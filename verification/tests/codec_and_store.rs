use vrac::digits::u64_to_dec;
use vrac::digits::u64_to_dec_pad;
use vrac::memstore::MemStore;
use vrac::store::blob_name;
use vrac::store::decode_locator;
use vrac::store::encode_locator;
use vrac::store::GarageData;
use vrac::store::InitFile;
use vrac::store::LocalFsData;
use vrac::store::LocalFsUploader;
use vrac::store::Locator;
use vrac::store::StorageBackendType;

fn init(token_id: u64, attempt: u64, index: u64, name: Option<&str>) -> InitFile {
    InitFile {
        token_id,
        token_path: "p".to_string(),
        file_index: index,
        attempt_counter: attempt,
        mime_type: None,
        file_name: name.map(|n| n.to_string()),
    }
}

#[test]
fn decimal_rendering_is_canonical() {
    assert_eq!(u64_to_dec(0), "0".to_string());
    assert_eq!(u64_to_dec(7), "7".to_string());
    assert_eq!(u64_to_dec(105), "105".to_string());
    assert_eq!(u64_to_dec(u64::MAX), "18446744073709551615".to_string());
    assert_eq!(u64_to_dec_pad(7, 3), "007".to_string());
    assert_eq!(u64_to_dec_pad(12345, 3), "12345".to_string());
}

#[test]
fn blob_names_pad_attempt_and_index() {
    assert_eq!(blob_name(1, 2, 3), "1_02_003".to_string());
    assert_eq!(blob_name(12, 345, 6789), "12_345_6789".to_string());
}

#[test]
fn local_locator_roundtrips() {
    let l = Locator::LocalFs(LocalFsData { path: "/srv/data/7_01_002".to_string(), version: 3 });
    let s = encode_locator(&l);
    assert_eq!(s, "local_fs:3:/srv/data/7_01_002".to_string());
    match decode_locator(&s) {
        Some(Locator::LocalFs(d)) => {
            assert_eq!(d.path, "/srv/data/7_01_002".to_string());
            assert_eq!(d.version, 3);
        },
        _ => panic!("expected a local locator"),
    }
}

#[test]
fn garage_locator_roundtrips_with_awkward_names() {
    let l = Locator::Garage(GarageData {
        bucket: "my:bucket".to_string(),
        key: "a/b:c 0".to_string(),
    });
    let s = encode_locator(&l);
    assert_eq!(s, "garage:9:my:bucketa/b:c 0".to_string());
    match decode_locator(&s) {
        Some(Locator::Garage(g)) => {
            assert_eq!(g.bucket, "my:bucket".to_string());
            assert_eq!(g.key, "a/b:c 0".to_string());
        },
        _ => panic!("expected an object-store locator"),
    }
}

#[test]
fn decode_rejects_what_encode_never_produces() {
    assert!(decode_locator("nonsense").is_none());
    assert!(decode_locator("local_fs:").is_none());
    assert!(decode_locator("local_fs:x:path").is_none());
    // leading zeros are never emitted, so they are never accepted
    assert!(decode_locator("local_fs:007:path").is_none());
    // the version must fit its field
    assert!(decode_locator("local_fs:300:path").is_none());
    // the declared bucket length must fit the remainder
    assert!(decode_locator("garage:9:ab").is_none());
    assert!(decode_locator("garage:2").is_none());
}

#[test]
fn local_fs_uploader_derives_collision_free_paths() {
    let up = LocalFsUploader::new("/srv/vrac".to_string());
    assert_eq!(up.get_type(), "local_fs");
    let d = up.locator_for(&init(5, 1, 1, None));
    assert_eq!(d.path, "/srv/vrac/5_01_001".to_string());
    assert_eq!(d.version, 0);
    let d2 = up.locator_for(&init(5, 2, 1, None));
    assert_ne!(d.path, d2.path);
}

#[test]
fn memstore_write_then_read_roundtrips() {
    for kind in [StorageBackendType::LocalFS, StorageBackendType::Garage] {
        let mut store = MemStore::new(kind, "root".to_string());
        let (mut blob, locator) = store.initiate_upload(&init(1, 1, 1, Some("f.bin")));
        blob.write(b"ab");
        blob.write(b"cd");
        let updated = store.finalize_upload(blob);
        assert!(updated.is_none());
        let bytes = store.read_blob(&locator).expect("stored");
        assert_eq!(bytes, b"abcd".to_vec());
    }
}

#[test]
fn memstore_delete_is_idempotent() {
    let mut store = MemStore::new(StorageBackendType::LocalFS, "root".to_string());
    let (mut blob, locator) = store.initiate_upload(&init(1, 1, 1, None));
    blob.write(b"payload");
    store.finalize_upload(blob);
    assert!(store.read_blob(&locator).is_some());
    // deleting twice in a row succeeds both times and leaves nothing
    store.delete_blob(&locator);
    assert!(store.read_blob(&locator).is_none());
    store.delete_blob(&locator);
    assert!(store.read_blob(&locator).is_none());
    // deleting a locator that never existed also succeeds
    let ghost_loc = Locator::LocalFs(LocalFsData { path: "root/9_09_009".to_string(), version: 0 });
    store.delete_blob(&ghost_loc);
}

#[test]
fn an_aborted_write_leaves_an_empty_deletable_blob() {
    let mut store = MemStore::new(StorageBackendType::LocalFS, "root".to_string());
    let (blob, locator) = store.initiate_upload(&init(2, 1, 1, None));
    // the handle is dropped without finishing: the empty blob stays behind
    drop(blob);
    assert_eq!(store.read_blob(&locator).expect("created at open"), Vec::<u8>::new());
    store.delete_blob(&locator);
    assert!(store.read_blob(&locator).is_none());
}

#[test]
fn backend_tags_are_the_persisted_words() {
    assert_eq!(StorageBackendType::LocalFS.get_type(), "local_fs");
    assert_eq!(StorageBackendType::Garage.get_type(), "garage");
}
