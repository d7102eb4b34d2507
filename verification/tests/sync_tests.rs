use tirra::storage::db::{TirraDbError, TirraDbInformation};
use tirra::storage::sync::{decision, sync_retrieve_information, url_endpoint, SyncDecision};

fn info(local: Option<Vec<u8>>, origin: Option<Vec<u8>>) -> TirraDbInformation {
    TirraDbInformation {
        id: 1,
        schema_ver: 0,
        local_commit: local,
        origin_commit: origin,
        local_source: "here".to_string(),
        origin_source: "there".to_string(),
        local_ts: 10,
        origin_ts: 20,
    }
}

#[test]
fn unchanged_local_takes_origin() {
    let ours = info(Some(vec![1, 2]), Some(vec![1, 2]));
    let theirs = info(Some(vec![9]), Some(vec![8]));
    assert_eq!(decision(&ours, &theirs), SyncDecision::ChangeLocal);
    let ours = info(None, None);
    assert_eq!(decision(&ours, &theirs), SyncDecision::ChangeLocal);
}

#[test]
fn unchanged_origin_takes_ours() {
    let ours = info(Some(vec![3]), Some(vec![1, 2]));
    let theirs = info(Some(vec![1, 2]), Some(vec![7]));
    assert_eq!(decision(&ours, &theirs), SyncDecision::ChangeOrigin);
}

#[test]
fn same_commits_on_both_sides() {
    let ours = info(Some(vec![3]), Some(vec![4]));
    let theirs = info(Some(vec![3]), Some(vec![4]));
    assert_eq!(decision(&ours, &theirs), SyncDecision::ChangeCommits);
}

#[test]
fn diverged_sides_conflict() {
    let ours = info(Some(vec![3]), Some(vec![4]));
    let theirs = info(Some(vec![5]), Some(vec![6]));
    assert_eq!(decision(&ours, &theirs), SyncDecision::Conflict);
    let ours = info(Some(vec![3]), None);
    let theirs = info(Some(vec![5]), None);
    assert_eq!(decision(&ours, &theirs), SyncDecision::Conflict);
}

#[test]
fn retrieve_information_keeps_the_row() {
    let r = sync_retrieve_information(Ok(info(Some(vec![1]), None)));
    let r = r.expect("row");
    assert_eq!(r.local_commit, Some(vec![1]));
    assert_eq!(r.origin_source, "there");
    assert!(sync_retrieve_information(Err(TirraDbError::DbOpenFailure)).is_none());
}

#[test]
fn endpoints() {
    assert_eq!(url_endpoint("fetch", 7), "http://localhost:8443/fetch?id=7");
    assert_eq!(url_endpoint("push", 0), "http://localhost:8443/push?id=0");
    assert_eq!(url_endpoint("info", 18446744073709551615), "http://localhost:8443/info?id=18446744073709551615");
}

#[test]
fn debug_line_shows_six_commit_digits() {
    let full = info(Some(vec![0x12, 0x34, 0xab, 0x00]), None);
    assert_eq!(full.short_local_commit(), Some("1234ab".to_string()));
    assert_eq!(full.debug_line(), Some("info: db v0 - 1234ab - 10".to_string()));
    let short = info(Some(vec![0x12, 0x34]), None);
    assert_eq!(short.short_local_commit(), None);
    assert_eq!(short.debug_line(), None);
    assert_eq!(info(None, None).debug_line(), None);
}
