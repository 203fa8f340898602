use vrac::gen::plan_token;
use vrac::gen::GenTokenForm;
use vrac::ledger::DBService;
use vrac::ledger::GetTokenResult;
use vrac::memstore::MemStore;
use vrac::orchestrator::handle_upload;
use vrac::orchestrator::UploadField;
use vrac::store::decode_locator;
use vrac::store::encode_locator;
use vrac::store::LocalFsData;
use vrac::store::Locator;
use vrac::store::StorageBackendType;
use vrac::sweeper::sweep_cycle;

const HOUR: u64 = 3600;

fn stores() -> (MemStore, MemStore) {
    (
        MemStore::new(StorageBackendType::LocalFS, "/srv/vrac".to_string()),
        MemStore::new(StorageBackendType::Garage, "vrac".to_string()),
    )
}

fn form(path: &str, hours: Option<u64>) -> GenTokenForm {
    GenTokenForm {
        path: path.to_string(),
        max_size_mib: None,
        content_expires_after_hours: hours,
        token_valid_for_hour: 1,
        storage_backend: StorageBackendType::LocalFS,
    }
}

#[test]
fn sweep_removes_expired_content() {
    let mut db = DBService::new();
    let (mut fs, mut garage) = stores();
    db.create_token(plan_token(&form("doc", Some(1)), 1_000), 1_000).expect("created");
    let fields = vec![UploadField {
        mime_type: Some("text/plain".to_string()),
        file_name: Some("doc.txt".to_string()),
        data: b"contents".to_vec(),
    }];
    handle_upload(&mut db, &mut fs, "doc", &fields, 1_010).expect("uploaded");
    let f = db.get_valid_file("doc", 1, 1_020).expect("served");
    let locator = decode_locator(&f.backend_data).expect("parses");

    // before the deadline nothing is due
    let early = sweep_cycle(&mut db, &mut fs, &mut garage, 2_000);
    assert_eq!(early.deleted_file_ids.len(), 0);
    assert_eq!(early.deleted_tokens.len(), 0);
    assert!(db.get_valid_file("doc", 1, 2_000).is_some());

    // one cycle past content_expires_at removes blob, file row and token row
    let late = 1_010 + HOUR + 1;
    let report = sweep_cycle(&mut db, &mut fs, &mut garage, late);
    assert_eq!(report.deleted_file_ids, vec![1]);
    assert_eq!(report.skipped_file_ids.len(), 0);
    assert_eq!(report.deleted_tokens.len(), 1);
    assert_eq!(report.deleted_tokens[0], (1, "doc".to_string()));
    assert!(matches!(db.get_valid_token("doc", late), GetTokenResult::NotFound));
    assert!(db.get_valid_file("doc", 1, late).is_none());
    assert!(fs.read_blob(&locator).is_none());

    // and the path is free for a new token again
    db.create_token(plan_token(&form("doc", Some(1)), late), late).expect("path is free");
}

#[test]
fn abandoned_unused_tokens_are_swept() {
    let mut db = DBService::new();
    let (mut fs, mut garage) = stores();
    db.create_token(plan_token(&form("ghost", Some(48)), 1_000), 1_000).expect("created");
    // never uploaded to; past valid_until the row goes
    let late = 1_000 + HOUR + 1;
    let report = sweep_cycle(&mut db, &mut fs, &mut garage, late);
    assert_eq!(report.deleted_tokens, vec![(1, "ghost".to_string())]);
    assert!(matches!(db.get_valid_token("ghost", late), GetTokenResult::NotFound));
}

#[test]
fn superseded_attempt_files_are_reclaimed() {
    let mut db = DBService::new();
    let (mut fs, mut garage) = stores();
    db.create_token(plan_token(&form("retry", Some(48)), 1_000), 1_000).expect("created");
    let t = match db.get_valid_token("retry", 1_010) {
        GetTokenResult::Fresh(t) => t,
        _ => panic!("fresh"),
    };
    let ut = db.initiate_upload(t, 1_010).expect("first attempt");
    assert_eq!(ut.attempt_counter, 1);
    let dangling = Locator::LocalFs(LocalFsData {
        path: "/srv/vrac/1_01_001".to_string(),
        version: 0,
    });
    let f = db.create_file(
        &ut,
        "local_fs".to_string(),
        encode_locator(&dangling),
        None,
        None,
        1_010,
    );
    // a retried request bumps the counter; the old attempt's file is an orphan
    let t2 = match db.get_valid_token("retry", 1_020) {
        GetTokenResult::Fresh(t2) => t2,
        _ => panic!("still fresh"),
    };
    let _ut2 = db.initiate_upload(t2, 1_020).expect("second attempt");
    let due = db.get_files_to_delete(1_030);
    assert_eq!(due.len(), 1);
    assert_eq!(due[0].id, f.id);

    // the sweeper reclaims it even though the token itself is kept
    let report = sweep_cycle(&mut db, &mut fs, &mut garage, 1_030);
    assert_eq!(report.deleted_file_ids, vec![f.id]);
    assert_eq!(report.deleted_tokens.len(), 0);
    assert!(matches!(db.get_valid_token("retry", 1_040), GetTokenResult::Fresh(_)));
    assert_eq!(db.get_files_to_delete(1_040).len(), 0);
}

#[test]
fn unknown_backends_are_skipped_not_fatal() {
    let mut db = DBService::new();
    let (mut fs, mut garage) = stores();
    db.create_token(plan_token(&form("tape", Some(48)), 1_000), 1_000).expect("created");
    let t = match db.get_valid_token("tape", 1_010) {
        GetTokenResult::Fresh(t) => t,
        _ => panic!("fresh"),
    };
    let ut = db.initiate_upload(t, 1_010).expect("attempt");
    // one row on a backend this process does not run, one deletable row
    let odd = db.create_file(
        &ut,
        "tape_robot".to_string(),
        "spool 7, slot 3".to_string(),
        None,
        None,
        1_010,
    );
    let fine_locator = Locator::LocalFs(LocalFsData {
        path: "/srv/vrac/1_01_002".to_string(),
        version: 0,
    });
    let fine = db.create_file(
        &ut,
        "local_fs".to_string(),
        encode_locator(&fine_locator),
        None,
        None,
        1_010,
    );
    let t2 = match db.get_valid_token("tape", 1_020) {
        GetTokenResult::Fresh(t2) => t2,
        _ => panic!("still fresh"),
    };
    let _ut2 = db.initiate_upload(t2, 1_020).expect("supersede");

    let report = sweep_cycle(&mut db, &mut fs, &mut garage, 1_030);
    // the odd row is skipped and kept; the cleanable row is gone
    assert_eq!(report.skipped_file_ids, vec![odd.id]);
    assert_eq!(report.deleted_file_ids, vec![fine.id]);
    let due = db.get_files_to_delete(1_040);
    assert_eq!(due.len(), 1);
    assert_eq!(due[0].id, odd.id);
}

#[test]
fn an_expired_fresh_token_blocks_its_path_until_swept() {
    let mut db = DBService::new();
    let (mut fs, mut garage) = stores();
    db.create_token(plan_token(&form("slot", Some(48)), 1_000), 1_000).expect("created");
    let late = 1_000 + HOUR + 1;
    // the row scan still keeps the fresh row, so creation conflicts...
    let conflict = db.create_token(plan_token(&form("slot", Some(48)), late), late);
    assert!(conflict.is_err());
    // ...until a sweep removes the abandoned row, freeing the path
    sweep_cycle(&mut db, &mut fs, &mut garage, late);
    db.create_token(plan_token(&form("slot", Some(48)), late + 1), late + 1)
        .expect("path is free after the sweep");
}
