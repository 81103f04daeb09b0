use reel_core::rclone::{parse_listing, parse_stats};
use reel_core::share::{ocs_data, parse_shares, remote_config, sharee_query, truthy, union_sharees};

#[test]
fn a_listing_reads_paths_and_sizes() {
    let json = br#"[{"Path":"jaeho/dji/DJI_0001.MP4","Size":5,"IsDir":false},{"Size":2},{"Path":"a.MOV"}]"#;
    let files = parse_listing(json).unwrap();
    assert_eq!(
        files,
        vec![("jaeho/dji/DJI_0001.MP4".to_string(), 5), (String::new(), 2), ("a.MOV".to_string(), 0)]
    );
    assert_eq!(parse_listing(b"[]").unwrap(), Vec::<(String, u64)>::new());
}

#[test]
fn a_listing_that_is_not_an_array_is_an_error() {
    let e = parse_listing(br#"{"Path":"x"}"#).unwrap_err();
    assert!(e.starts_with("couldn't read cloud listing: "), "{e}");
    assert!(e.len() > "couldn't read cloud listing: ".len());
    assert!(parse_listing(b"not json").is_err());
}

#[test]
fn a_stats_line_gives_its_counts_and_file() {
    let line = r#"{"level":"notice","msg":"x","stats":{"bytes":10,"totalBytes":20,"checks":1,"totalChecks":3,"eta":7,"speed":1.5,"transferring":[{"name":"jaeho/DJI_0001.MP4"},{"name":"b"}]}}"#;
    let st = parse_stats(line).unwrap();
    assert_eq!(st.bytes, 10);
    assert_eq!(st.total_bytes, 20);
    assert_eq!(st.checks, 1);
    assert_eq!(st.total_checks, 3);
    assert_eq!(st.eta, 7);
    assert_eq!(st.file, "jaeho/DJI_0001.MP4");
}

#[test]
fn a_stats_record_missing_fields_reads_zero() {
    let st = parse_stats(r#"{"stats":{"eta":null}}"#).unwrap();
    assert_eq!((st.bytes, st.total_bytes, st.checks, st.total_checks, st.eta), (0, 0, 0, 0, 0));
    assert_eq!(st.file, "");
}

#[test]
fn lines_that_are_not_stats_are_skipped() {
    assert!(parse_stats(r#"{"level":"info","msg":"copied"}"#).is_none());
    assert!(parse_stats("2024/01/01 plain text").is_none());
    assert!(parse_stats("").is_none());
}

#[test]
fn truthy_accepts_rclone_string_and_json_bool() {
    assert!(truthy(None, Some("true")));
    assert!(truthy(None, Some("True")));
    assert!(truthy(Some(true), None));
    assert!(!truthy(None, Some("false")));
    assert!(!truthy(None, Some("")));
    assert!(!truthy(None, None));
}

#[test]
fn ocs_envelope_ok_and_failure() {
    let ok = r#"{"ocs": {"meta": {"status": "ok", "statuscode": 200}, "data": [1, 2]}}"#;
    let reply = ocs_data(ok).unwrap();
    assert_eq!(reply.shares.as_ref().map(|v| v.len()), Some(2));
    let bad = r#"{"ocs": {"meta": {"status": "failure", "statuscode": 404, "message": "not found"}, "data": []}}"#;
    let e = ocs_data(bad).err().unwrap();
    assert!(e.contains("not found"));
    assert_eq!(e, "Nextcloud: not found (404)");
}

#[test]
fn an_ocs_failure_without_message_or_code_says_so() {
    let e = ocs_data(r#"{"ocs": {"meta": {"status": "failure"}}}"#).err().unwrap();
    assert_eq!(e, "Nextcloud: share request failed (0)");
    let e = ocs_data("<html>oops</html>").err().unwrap();
    assert_eq!(e, "Nextcloud returned an unexpected (non-JSON) response");
}

#[test]
fn parses_user_shares_ignoring_links_and_id_shape() {
    let body = r#"{"ocs": {"meta": {"status": "ok"}, "data": [
        {"id": 42, "share_type": 0, "share_with": "alice", "share_with_displayname": "Alice A", "permissions": 15},
        {"id": "7", "share_type": 3, "share_with": null, "permissions": 1},
        {"id": 9, "share_type": 0, "share_with": "bob", "share_with_displayname": "", "permissions": 1}
    ]}}"#;
    let shares = parse_shares(&ocs_data(body).unwrap());
    assert_eq!(shares.len(), 2);
    assert_eq!(shares[0].user, "alice");
    assert_eq!(shares[0].id, "42");
    assert_eq!(shares[0].permissions, 15);
    assert_eq!(shares[1].user, "bob");
    assert_eq!(shares[1].display_name, "bob");
}

#[test]
fn a_single_share_reply_reads_as_one_share() {
    let body = r#"{"ocs": {"meta": {"status": "ok"}, "data": {"id": "11", "share_type": 0, "share_with": "carol", "permissions": 15}}}"#;
    let reply = ocs_data(body).unwrap();
    assert!(reply.shares.is_none());
    assert!(parse_shares(&reply).is_empty());
    let s = reel_core::share::one_share(reply.share).unwrap();
    assert_eq!((s.id.as_str(), s.user.as_str(), s.display_name.as_str(), s.permissions), ("11", "carol", "carol", 15));
}

#[test]
fn sharee_candidates_come_exact_first() {
    let body = r#"{"ocs": {"meta": {"status": "ok"}, "data": {
        "exact": {"users": [{"label": "Alice", "value": {"shareType": 0, "shareWith": "alice"}}]},
        "users": [{"label": "Bob", "value": {"shareWith": "bob"}}, {"label": "Me", "value": {"shareWith": "jaeho"}}]
    }}}"#;
    let reply = ocs_data(body).unwrap();
    let found = reel_core::share::sharees(&reply.sharees, Some("jaeho"));
    let users: Vec<&str> = found.iter().map(|s| s.user.as_str()).collect();
    assert_eq!(users, ["alice", "bob"]);
}

#[test]
fn the_remote_config_must_name_a_webdav_remote() {
    let dump = r#"{"nextcloud": {"type": "webdav", "url": "https://h/remote.php/dav/files/j/", "user": "j", "pass": "xx", "no_check_certificate": "True"},
                   "drive": {"type": "drive"}}"#;
    let c = remote_config(dump, "nextcloud").unwrap();
    assert_eq!(c.url, "https://h/remote.php/dav/files/j/");
    assert_eq!(c.user, "j");
    assert_eq!(c.pass, "xx");
    assert!(c.insecure);
    assert_eq!(
        remote_config(dump, "drive").err().unwrap(),
        "sharing needs a Nextcloud (webdav) remote; 'drive:' is a drive remote"
    );
    assert_eq!(remote_config(dump, "gone").err().unwrap(), "rclone remote 'gone:' not found");
    assert!(remote_config("{", "nextcloud").err().unwrap().starts_with("bad rclone config: "));
    let plain = remote_config(r#"{"n": {"type": "webdav"}}"#, "n").unwrap();
    assert_eq!((plain.url.as_str(), plain.user.as_str(), plain.pass.as_str(), plain.insecure), ("", "", "", false));
}

#[test]
fn shares_come_sorted_by_display_name_ignoring_case() {
    let body = r#"{"ocs": {"meta": {"status": "ok"}, "data": [
        {"id": 1, "share_type": 0, "share_with": "zed", "share_with_displayname": "zed", "permissions": 15},
        {"id": 2, "share_type": 0, "share_with": "amy", "share_with_displayname": "Bob", "permissions": 15},
        {"id": 3, "share_type": 0, "share_with": "al", "share_with_displayname": "ÉLODIE", "permissions": 15},
        {"id": 4, "share_type": 0, "share_with": "bo", "share_with_displayname": "bob", "permissions": 15},
        {"id": 5, "share_type": 0, "share_with": "ann", "share_with_displayname": "alice", "permissions": 15}
    ]}}"#;
    let shares = parse_shares(&ocs_data(body).unwrap());
    let ids: Vec<&str> = shares.iter().map(|s| s.id.as_str()).collect();
    // "alice" < "bob" == "bob" (reply order kept) < "zed" < "élodie"
    assert_eq!(ids, ["5", "2", "4", "1", "3"]);
}

fn row(id: &str, user: &str, display: &str) -> (String, String, String) {
    (id.to_string(), user.to_string(), display.to_string())
}

#[test]
fn known_sharees_unions_and_dedups_across_trips() {
    let doha = vec![row("1", "bob", "Bob"), row("2", "alice", "Alice A")];
    let kyoto = vec![row("3", "alice", "Alice A")];
    let friends = union_sharees(&[doha, kyoto]);
    let users: Vec<&str> = friends.iter().map(|s| s.user.as_str()).collect();
    assert_eq!(users, ["alice", "bob"]);
    assert_eq!(friends[0].display_name, "Alice A");
    assert!(union_sharees(&[]).is_empty());
}

#[test]
fn friends_with_the_same_name_come_in_user_order() {
    let a = vec![row("1", "sam2", "Sam"), row("2", "sam1", "sam"), row("3", "amy", "Zoe")];
    let friends = union_sharees(&[a]);
    let users: Vec<&str> = friends.iter().map(|s| s.user.as_str()).collect();
    assert_eq!(users, ["sam1", "sam2", "amy"]);
}

#[test]
fn an_empty_sharee_query_makes_no_search() {
    assert_eq!(sharee_query("   \t "), None);
    assert_eq!(sharee_query(""), None);
    assert_eq!(sharee_query("  ali "), Some("ali".to_string()));
}
