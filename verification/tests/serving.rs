use vrac::ledger::DbFile;
use vrac::serve::content_disposition_kind;
use vrac::serve::download_file_name;
use vrac::serve::mime_prefix;

fn file(name: Option<&str>) -> DbFile {
    DbFile {
        id: 2,
        token_id: 1,
        attempt_counter: 1,
        mime_type: Some("text/plain".to_string()),
        name: name.map(|n| n.to_string()),
        backend_type: "local_fs".to_string(),
        backend_data: "local_fs:0:/srv/vrac/1_01_002".to_string(),
        created_at: 10,
        completed_at: Some(11),
    }
}

#[test]
fn download_names_fall_back_to_identities() {
    assert_eq!(download_file_name(&file(Some("notes.txt"))), "notes.txt".to_string());
    assert_eq!(download_file_name(&file(None)), "0001_0002".to_string());
}

#[test]
fn mime_prefixes_split_at_the_first_slash() {
    assert_eq!(mime_prefix("image/png"), Some("image".to_string()));
    assert_eq!(mime_prefix("application/octet-stream"), Some("application".to_string()));
    assert_eq!(mime_prefix("a/b/c"), Some("a".to_string()));
    assert_eq!(mime_prefix("weird"), None);
    assert_eq!(mime_prefix(""), None);
}

#[test]
fn disposition_follows_the_download_flag() {
    assert_eq!(content_disposition_kind(true), "attachment");
    assert_eq!(content_disposition_kind(false), "inline");
}
