use vrac::gen::plan_token;
use vrac::gen::GenTokenForm;
use vrac::ledger::AppError;
use vrac::ledger::DBService;
use vrac::ledger::GetTokenResult;
use vrac::memstore::MemStore;
use vrac::orchestrator::handle_upload;
use vrac::orchestrator::UploadField;
use vrac::orchestrator::UploadOutcome;
use vrac::store::decode_locator;
use vrac::store::StorageBackendType;

const HOUR: u64 = 3600;

fn setup(path: &str, now: u64) -> (DBService, MemStore) {
    let mut db = DBService::new();
    let form = GenTokenForm {
        path: path.to_string(),
        max_size_mib: Some(100),
        content_expires_after_hours: Some(48),
        token_valid_for_hour: 1,
        storage_backend: StorageBackendType::LocalFS,
    };
    let ct = plan_token(&form, now);
    db.create_token(ct, now).expect("token created");
    let store = MemStore::new(StorageBackendType::LocalFS, "/srv/vrac".to_string());
    (db, store)
}

#[test]
fn ten_mib_upload_is_served_back() {
    let (mut db, mut store) = setup("big", 1_000);
    let payload = vec![0xA7u8; 10 * 1024 * 1024];
    let fields = vec![UploadField {
        mime_type: Some("application/octet-stream".to_string()),
        file_name: Some("blob.bin".to_string()),
        data: payload.clone(),
    }];
    let outcome = handle_upload(&mut db, &mut store, "big", &fields, 1_010).expect("upload runs");
    match outcome {
        UploadOutcome::Completed { token_path, used } => {
            assert_eq!(token_path, "big".to_string());
            assert!(used);
        },
        UploadOutcome::NoValidToken => panic!("the token was fresh"),
    }

    // the token is now used, with the retention deadline computed
    match db.get_valid_token("big", 1_020) {
        GetTokenResult::Used(t) => {
            assert_eq!(t.used_at, Some(1_010));
            assert_eq!(t.content_expires_at, Some(1_010 + 48 * HOUR));
            assert_eq!(t.attempt_counter, 1);
        },
        _ => panic!("expected a used token"),
    }

    // the file is served, and its blob holds the bytes, byte for byte
    let f = db.get_valid_file("big", 1, 1_020).expect("file is servable");
    assert_eq!(f.completed_at, Some(1_010));
    assert_eq!(f.mime_type, Some("application/octet-stream".to_string()));
    assert_eq!(f.name, Some("blob.bin".to_string()));
    let locator = decode_locator(&f.backend_data).expect("the locator parses");
    let bytes = store.read_blob(&locator).expect("the blob exists");
    assert_eq!(bytes, payload);

    // the join lists it with its metadata
    let listed = db.get_files(1, 1);
    assert_eq!(listed.len(), 1);
    assert_eq!(listed[0].1.size_b, Some(10 * 1024 * 1024));
}

#[test]
fn empty_upload_leaves_the_token_fresh() {
    let (mut db, mut store) = setup("empty", 1_000);
    let fields = vec![UploadField { mime_type: None, file_name: None, data: Vec::new() }];
    let outcome = handle_upload(&mut db, &mut store, "empty", &fields, 1_010).expect("runs");
    match outcome {
        UploadOutcome::Completed { used, .. } => assert!(!used),
        UploadOutcome::NoValidToken => panic!("the token was fresh"),
    }
    // the token stays fresh and reusable; no file row persists
    match db.get_valid_token("empty", 1_020) {
        GetTokenResult::Fresh(t) => {
            assert!(t.used_at.is_none());
            assert_eq!(t.attempt_counter, 1);
        },
        _ => panic!("the token must stay fresh"),
    }
    assert!(db.get_valid_file("empty", 1, 1_020).is_none());
    assert_eq!(db.get_files(1, 1).len(), 0);

    // the next attempt can still use the token
    let fields2 = vec![UploadField {
        mime_type: None,
        file_name: None,
        data: b"second try".to_vec(),
    }];
    let outcome2 = handle_upload(&mut db, &mut store, "empty", &fields2, 1_030).expect("runs");
    match outcome2 {
        UploadOutcome::Completed { used, .. } => assert!(used),
        UploadOutcome::NoValidToken => panic!("the token was still fresh"),
    }
}

#[test]
fn empty_fields_among_full_ones_are_discarded() {
    let (mut db, mut store) = setup("mixed", 1_000);
    let fields = vec![
        UploadField { mime_type: None, file_name: None, data: Vec::new() },
        UploadField {
            mime_type: Some("text/plain".to_string()),
            file_name: Some("note.txt".to_string()),
            data: b"hello".to_vec(),
        },
    ];
    let outcome = handle_upload(&mut db, &mut store, "mixed", &fields, 1_010).expect("runs");
    match outcome {
        UploadOutcome::Completed { used, .. } => assert!(used),
        UploadOutcome::NoValidToken => panic!("the token was fresh"),
    }
    // the empty field consumed file id 1 and left nothing; the full field is id 2
    assert!(db.get_valid_file("mixed", 1, 1_020).is_none());
    let f = db.get_valid_file("mixed", 2, 1_020).expect("second field persisted");
    assert_eq!(f.name, Some("note.txt".to_string()));
    let locator = decode_locator(&f.backend_data).expect("parses");
    assert_eq!(store.read_blob(&locator).expect("blob exists"), b"hello".to_vec());
    assert_eq!(db.get_files(1, 1).len(), 1);
}

#[test]
fn upload_without_a_token_is_rejected() {
    let mut db = DBService::new();
    let mut store = MemStore::new(StorageBackendType::LocalFS, "/srv/vrac".to_string());
    let fields = vec![UploadField { mime_type: None, file_name: None, data: b"x".to_vec() }];
    let outcome = handle_upload(&mut db, &mut store, "nowhere", &fields, 500).expect("runs");
    assert!(matches!(outcome, UploadOutcome::NoValidToken));
}

#[test]
fn upload_to_a_used_token_is_rejected() {
    let (mut db, mut store) = setup("once", 1_000);
    let fields = vec![UploadField { mime_type: None, file_name: None, data: b"x".to_vec() }];
    handle_upload(&mut db, &mut store, "once", &fields, 1_010).expect("first upload");
    let second = handle_upload(&mut db, &mut store, "once", &fields, 1_020).expect("runs");
    assert!(matches!(second, UploadOutcome::NoValidToken));
}

#[test]
fn upload_to_an_expired_fresh_token_fails() {
    let (mut db, mut store) = setup("late", 1_000);
    let fields = vec![UploadField { mime_type: None, file_name: None, data: b"x".to_vec() }];
    let late = 1_000 + HOUR + 1;
    let r = handle_upload(&mut db, &mut store, "late", &fields, late);
    assert!(matches!(r, Err(AppError::NoTokenFound)));
}

#[test]
fn garage_backend_uploads_roundtrip() {
    let mut db = DBService::new();
    let form = GenTokenForm {
        path: "obj".to_string(),
        max_size_mib: None,
        content_expires_after_hours: None,
        token_valid_for_hour: 2,
        storage_backend: StorageBackendType::Garage,
    };
    let ct = plan_token(&form, 2_000);
    db.create_token(ct, 2_000).expect("created");
    let mut store = MemStore::new(StorageBackendType::Garage, "vrac".to_string());
    let fields = vec![UploadField {
        mime_type: Some("image/png".to_string()),
        file_name: Some("shot.png".to_string()),
        data: b"png-bytes".to_vec(),
    }];
    handle_upload(&mut db, &mut store, "obj", &fields, 2_010).expect("upload runs");
    let f = db.get_valid_file("obj", 1, 2_020).expect("served");
    assert_eq!(f.backend_type, "garage".to_string());
    // a token with no retention window never content-expires
    match db.get_valid_token("obj", 9_000_000) {
        GetTokenResult::Used(t) => assert!(t.content_expires_at.is_none()),
        _ => panic!("expected a used token"),
    }
    let locator = decode_locator(&f.backend_data).expect("parses");
    assert_eq!(store.read_blob(&locator).expect("exists"), b"png-bytes".to_vec());
}

#[test]
fn equal_object_keys_keep_the_last_bytes() {
    let mut db = DBService::new();
    let form = GenTokenForm {
        path: "dup".to_string(),
        max_size_mib: None,
        content_expires_after_hours: Some(1),
        token_valid_for_hour: 1,
        storage_backend: StorageBackendType::Garage,
    };
    db.create_token(plan_token(&form, 3_000), 3_000).expect("created");
    let mut store = MemStore::new(StorageBackendType::Garage, "vrac".to_string());
    // two fields under the same client-supplied name share one object key
    let fields = vec![
        UploadField {
            mime_type: None,
            file_name: Some("same.bin".to_string()),
            data: b"first".to_vec(),
        },
        UploadField {
            mime_type: None,
            file_name: Some("same.bin".to_string()),
            data: b"second".to_vec(),
        },
    ];
    handle_upload(&mut db, &mut store, "dup", &fields, 3_010).expect("runs");
    // both rows are recorded, but the blob under the shared key holds the
    // later field's bytes
    let f1 = db.get_valid_file("dup", 1, 3_020).expect("first row");
    let f2 = db.get_valid_file("dup", 2, 3_020).expect("second row");
    let l1 = decode_locator(&f1.backend_data).expect("parses");
    let l2 = decode_locator(&f2.backend_data).expect("parses");
    assert_eq!(f1.backend_data, f2.backend_data);
    assert_eq!(store.read_blob(&l1).expect("exists"), b"second".to_vec());
    assert_eq!(store.read_blob(&l2).expect("exists"), b"second".to_vec());
}
