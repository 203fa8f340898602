use vrac::gen::plan_token;
use vrac::gen::GenTokenForm;
use vrac::ledger::AppError;
use vrac::ledger::DBService;
use vrac::ledger::DbFileMetadata;
use vrac::ledger::GetTokenResult;
use vrac::ledger::TokenError;
use vrac::store::StorageBackendType;

const HOUR: u64 = 3600;

fn report_form() -> GenTokenForm {
    GenTokenForm {
        path: "report".to_string(),
        max_size_mib: None,
        content_expires_after_hours: Some(48),
        token_valid_for_hour: 1,
        storage_backend: StorageBackendType::LocalFS,
    }
}

#[test]
fn create_token_then_conflict() {
    let mut db = DBService::new();
    let now: u64 = 1_000;
    let ct = plan_token(&report_form(), now);
    assert_eq!(ct.valid_until, now + HOUR);
    assert_eq!(ct.content_expires_after_hours, Some(48));
    assert_eq!(ct.backend_type, "local_fs".to_string());
    let tok = db.create_token(ct, now).expect("first creation succeeds");
    assert_eq!(tok.id, 1);
    assert_eq!(tok.path, "report".to_string());
    assert_eq!(tok.attempt_counter, 0);
    assert!(tok.used_at.is_none());
    assert!(tok.content_expires_at.is_none());

    // immediately creating another token at the same path conflicts
    let ct2 = plan_token(&report_form(), now + 5);
    let r2 = db.create_token(ct2, now + 5);
    assert!(matches!(r2, Err(TokenError::AlreadyExist)));
}

#[test]
fn fresh_token_is_classified_fresh() {
    let mut db = DBService::new();
    let ct = plan_token(&report_form(), 100);
    db.create_token(ct, 100).expect("created");
    match db.get_valid_token("report", 200) {
        GetTokenResult::Fresh(t) => {
            assert_eq!(t.id, 1);
            assert_eq!(t.path, "report".to_string());
        },
        _ => panic!("expected a fresh token"),
    }
    assert!(matches!(db.get_valid_token("elsewhere", 200), GetTokenResult::NotFound));
}

#[test]
fn initiate_bumps_the_attempt_counter() {
    let mut db = DBService::new();
    let ct = plan_token(&report_form(), 100);
    db.create_token(ct, 100).expect("created");
    let t = match db.get_valid_token("report", 150) {
        GetTokenResult::Fresh(t) => t,
        _ => panic!("expected a fresh token"),
    };
    let ut = db.initiate_upload(t, 150).expect("initiate succeeds");
    assert_eq!(ut.id, 1);
    assert_eq!(ut.attempt_counter, 1);
    let t2 = match db.get_valid_token("report", 160) {
        GetTokenResult::Fresh(t2) => t2,
        _ => panic!("still fresh until bytes arrive"),
    };
    assert_eq!(t2.attempt_counter, 1);
    let ut2 = db.initiate_upload(t2, 170).expect("second initiate succeeds");
    assert_eq!(ut2.attempt_counter, 2);
}

#[test]
fn initiate_past_the_deadline_fails() {
    let mut db = DBService::new();
    let ct = plan_token(&report_form(), 100);
    db.create_token(ct, 100).expect("created");
    // the scan still shows the fresh token, but it can no longer be locked
    let late: u64 = 100 + HOUR + 1;
    let t = match db.get_valid_token("report", late) {
        GetTokenResult::Fresh(t) => t,
        _ => panic!("the scan keeps an unexpired-content fresh row"),
    };
    let r = db.initiate_upload(t, late);
    assert!(matches!(r, Err(AppError::NoTokenFound)));
}

#[test]
fn files_of_a_fresh_token_are_not_served() {
    let mut db = DBService::new();
    let ct = plan_token(&report_form(), 100);
    db.create_token(ct, 100).expect("created");
    let t = match db.get_valid_token("report", 110) {
        GetTokenResult::Fresh(t) => t,
        _ => panic!("expected a fresh token"),
    };
    let ut = db.initiate_upload(t, 110).expect("initiate succeeds");
    let f = db.create_file(
        &ut,
        "local_fs".to_string(),
        "local_fs:0:/srv/vrac/1_01_001".to_string(),
        Some("text/plain".to_string()),
        Some("a.txt".to_string()),
        120,
    );
    assert_eq!(f.id, 1);
    assert!(f.completed_at.is_none());
    // even a completed file is invisible while the token is still fresh
    db.finalise_file_upload(
        f,
        None,
        DbFileMetadata { size_b: Some(5), mime_type: Some("text/plain".to_string()) },
        130,
    );
    assert!(db.get_valid_file("report", 1, 140).is_none());
}

#[test]
fn finalising_a_superseded_session_changes_nothing() {
    let mut db = DBService::new();
    let ct = plan_token(&report_form(), 100);
    db.create_token(ct, 100).expect("created");
    let t = match db.get_valid_token("report", 110) {
        GetTokenResult::Fresh(t) => t,
        _ => panic!("expected a fresh token"),
    };
    let stale = db.initiate_upload(t, 110).expect("first session");
    let t2 = match db.get_valid_token("report", 120) {
        GetTokenResult::Fresh(t2) => t2,
        _ => panic!("still fresh"),
    };
    let _fresh_session = db.initiate_upload(t2, 120).expect("second session");
    // the stale session's conditional update must match zero rows
    db.finalise_token_upload(stale, 130).expect("silently affects nothing");
    match db.get_valid_token("report", 140) {
        GetTokenResult::Fresh(t3) => {
            assert!(t3.used_at.is_none());
            assert_eq!(t3.attempt_counter, 2);
        },
        _ => panic!("the token must still be fresh"),
    }
}

#[test]
fn accounts_roundtrip() {
    let mut db = DBService::new();
    assert!(db.get_account("admin").is_none());
    let a = db.create_account("admin".to_string(), "SECRET-REDACTED".to_string());
    assert_eq!(a.id, 1);
    let found = db.get_account("admin").expect("stored");
    assert_eq!(found.username, "admin".to_string());
    assert_eq!(found.phc, "SECRET-REDACTED".to_string());
    let updated = db
        .change_password("admin".to_string(), "SECRET-REDACTED-2".to_string())
        .expect("account exists");
    assert_eq!(updated.id, 1);
    assert_eq!(db.get_account("admin").expect("still there").phc, "SECRET-REDACTED-2".to_string());
    let missing = db.change_password("ghost".to_string(), "x".to_string());
    assert!(matches!(missing, Err(AppError::NoAccountFound)));
}
