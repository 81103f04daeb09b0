use reel_core::dedup::{merge_locs, prune_step, scan, tally_prune, resolve_start, CloudPrune, PruneStep};
use reel_core::ledger::{Ledger, LedgerRow, Tombstones};
use reel_core::log::{record, Level};
use reel_core::model::TripState;
use reel_core::organize::{
    cloud_path, merge_check, migrate_marks, move_clips, rename_rows, repoint_moves, reprefix, MoveFacts,
};
use reel_core::remove::{drop_rows, owned_ids, recorded_id};
use reel_core::store::{FileSet, Pending, PendingOp};
use reel_core::sync::{classify, drop_applied, ops_for, pull_people, replay_call, CloudCall};
use reel_core::timeline::{segment_of, uuid_from};
use reel_core::trips::{derive_state, meta_value, set_meta_text};
use reel_core::sync::item;

fn row(id: &str, trip: &str, person: &str, camera: &str, base: &str) -> LedgerRow {
    LedgerRow {
        id: id.to_string(),
        trip: trip.to_string(),
        person: person.to_string(),
        camera: camera.to_string(),
        base: base.to_string(),
        bytes: "10".to_string(),
        captured: "1".to_string(),
        imported_at: "2".to_string(),
    }
}

#[test]
fn the_ledger_reads_back_what_it_wrote() {
    let mut l = Ledger::new();
    l.upsert(row("id1", "bali", "jaeho", "dji", "A.MP4"));
    l.upsert(row("id2", "bali", "alice", "gopro", "B.MP4"));
    let back = Ledger::parse(&l.to_tsv());
    assert_eq!(back.rows.len(), 2);
    assert_eq!(back.trip_of("id2").as_deref(), Some("bali"));
    assert_eq!(back.row_of("id1").map(|r| r.base.clone()).as_deref(), Some("A.MP4"));
}

#[test]
fn upsert_replaces_the_row_for_an_id() {
    let mut l = Ledger::new();
    l.upsert(row("id1", "bali", "jaeho", "dji", "A.MP4"));
    l.upsert(row("id1", "doha", "jaeho", "dji", "A.MP4"));
    assert_eq!(l.rows.len(), 1);
    assert_eq!(l.trip_of("id1").as_deref(), Some("doha"));
}

#[test]
fn tombstones_read_back_what_they_wrote() {
    let mut t = Tombstones::new();
    t.insert("dead1");
    t.insert("dead2");
    let back = Tombstones::parse(&t.to_text());
    assert!(back.contains("dead1") && back.contains("dead2"));
    assert!(!back.contains("alive"));
}

#[test]
fn a_set_meta_value_reads_back() {
    let t = set_meta_text(Some("reel project\nshare=local\n"), "share", "shared");
    assert_eq!(meta_value(&t, "share").as_deref(), Some("shared"));
    let fresh = set_meta_text(None, "archived", "1");
    assert_eq!(meta_value(&fresh, "archived").as_deref(), Some("1"));
    assert!(fresh.starts_with("reel project\n"));
}

#[test]
fn cutting_never_advances_a_trip_and_archives_read_as_archived() {
    assert_eq!(derive_state(0, 0, 0, false), TripState::Empty);
    assert_eq!(derive_state(0, 0, 3, false), TripState::Archived);
    assert_eq!(derive_state(0, 0, 0, true), TripState::Archived);
    assert_eq!(derive_state(5, 0, 0, false), TripState::Imported);
    assert_eq!(derive_state(5, 2, 9, false), TripState::Marked);
}

#[test]
fn a_log_level_reads_back_from_its_name() {
    for l in [Level::Debug, Level::Info, Level::Warn, Level::Error] {
        assert_eq!(Level::parse(l.as_str()), l);
    }
}

#[test]
fn a_record_carries_its_timestamp_and_level() {
    let line = record(1_000_000_000, Level::Warn, "engine", "plain", None);
    let v: serde_json::Value = serde_json::from_str(&line).expect("valid JSON");
    assert_eq!(v["at"], "2001-09-09T01:46:40Z");
    assert_eq!(v["lvl"], "warn");
    assert!(v.get("ctx").is_none());
}

#[test]
fn the_fileset_and_queue_read_back() {
    let mut f = FileSet::new();
    f.insert("a/b/C.MP4", 7);
    f.insert("a/b/C.MP4", 9);
    f.remove("missing");
    let back = FileSet::parse(&f.to_tsv());
    assert_eq!(back.len(), 1);
    assert_eq!(back.get("a/b/C.MP4"), Some(9));
}

#[test]
fn archived_footage_reads_as_cloud_only_and_an_offline_delete_as_owed() {
    let mut l = FileSet::new();
    let mut b = FileSet::new();
    let mut r = FileSet::new();
    // archived: gone locally, still in baseline and cloud
    b.insert("jaeho/dji/A.MP4", 5);
    r.insert("jaeho/dji/A.MP4", 5);
    // deleted offline: gone locally and from baseline, still in the cloud
    r.insert("jaeho/dji/B.MP4", 6);
    // new here: only local
    l.insert("jaeho/dji/C.MP4", 7);
    let d = classify("jaeho", &l, &b, &r, &FileSet::new());
    assert_eq!(d.cloud_only.len(), 1);
    assert_eq!(d.cloud_only[0].rel, "jaeho/dji/A.MP4");
    assert_eq!(d.deleted_local.len(), 1);
    assert_eq!(d.deleted_local[0].rel, "jaeho/dji/B.MP4");
    assert_eq!(d.to_push.len(), 1);
    assert!(d.to_pull.is_empty());
}

#[test]
fn a_copy_is_never_pruned_without_a_proven_survivor() {
    // the kept copy is neither on disk nor reachable in the cloud
    assert_eq!(
        prune_step(false, true, false, false, None, None, true, true, true),
        PruneStep::Skip
    );
    // the kept copy itself is never pruned
    assert_eq!(prune_step(true, true, true, true, None, None, true, true, true), PruneStep::Skip);
    // different content under the same name and size is left alone
    assert_eq!(
        prune_step(true, false, true, false, Some("x"), Some("y"), true, false, true),
        PruneStep::Skip
    );
    // someone else's cloud copy is theirs to keep
    assert_eq!(
        prune_step(true, false, true, false, None, None, true, true, false),
        PruneStep::Prune { local: true, cloud: CloudPrune::KeepTheirs }
    );
}

#[test]
fn a_prune_counts_what_it_freed() {
    let mut res = resolve_start(2, true);
    let drop = tally_prune(&mut res, 100, true, CloudPrune::Delete, true);
    assert!(drop);
    let keep = tally_prune(&mut res, 50, true, CloudPrune::KeepTheirs, false);
    assert!(!keep, "their cloud copy stays in the baseline");
    assert_eq!((res.removed_local, res.removed_cloud, res.kept_cloud, res.freed), (2, 1, 1, 150));
    assert!(res.cloud_ok && !res.offline);
}

#[test]
fn the_scan_groups_copies_of_one_clip_biggest_saving_first() {
    let local = vec![
        ("bali".to_string(), "jaeho/dji/A.MP4".to_string(), 100, "/lib/bali/jaeho/dji/A.MP4".to_string()),
        ("2024-01-01_to_x".to_string(), "jaeho/dji/A.MP4".to_string(), 100, "/lib/2024/jaeho/dji/A.MP4".to_string()),
        ("bali".to_string(), "jaeho/dji/B.MP4".to_string(), 10, "/lib/bali/jaeho/dji/B.MP4".to_string()),
    ];
    let cloud = vec![
        ("bali/jaeho/dji/A.MP4".to_string(), 100),
        ("old/jaeho/dji/B.MP4".to_string(), 10),
        ("old/jaeho/dji/B.MP4".to_string(), 10),
        ("README.txt".to_string(), 1),
    ];
    let r = scan("jaeho", &local, &cloud, false);
    assert_eq!(r.groups_count, 2);
    assert_eq!(r.scanned_local, 3);
    assert_eq!(r.scanned_cloud, 3);
    assert_eq!(r.groups[0].name, "A.MP4");
    assert_eq!(r.groups[0].reclaimable, 100);
    assert_eq!(r.groups[0].key, "A.MP4|100");
    let trips: Vec<&str> = r.groups[0].copies.iter().map(|c| c.trip.as_str()).collect();
    assert_eq!(trips, ["2024-01-01_to_x", "bali"], "copies in trip order");
    // the synced copy in a named trip is the one to keep
    assert_eq!(r.groups[0].copies[r.groups[0].suggested_keep].trip, "bali");
    assert_eq!(r.total_reclaimable, 110);
    assert_eq!(merge_locs(&local, &cloud).len(), 4);
}

#[test]
fn a_move_plan_skips_what_the_destination_has_and_keeps_the_subpath() {
    let masters = vec![
        "/lib/bali/jaeho/dji/A.MP4".to_string(),
        "/lib/doha/alice/gopro/B.MP4".to_string(),
        "/lib/doha/jaeho/dji/C.MP4".to_string(),
        "/elsewhere/D.MP4".to_string(),
    ];
    let facts = vec![
        MoveFacts { inside: true, dest_has: false, src_shared: false },
        MoveFacts { inside: true, dest_has: false, src_shared: false },
        MoveFacts { inside: true, dest_has: false, src_shared: false },
        MoveFacts { inside: false, dest_has: false, src_shared: false },
    ];
    let plan = move_clips("/lib", "jaeho", "doha", &masters, &facts);
    assert_eq!(plan.skipped, 2, "two are already in the destination");
    assert_eq!(plan.moves.len(), 1);
    let (i, t, cloud) = &plan.moves[0];
    assert_eq!(*i, 0);
    assert_eq!(t.master_dst, "/lib/doha/jaeho/dji/A.MP4");
    assert_eq!(t.rel, "jaeho/dji/A.MP4");
    assert!(!cloud, "your own clip from an unshared trip has no cloud copy to move");
    assert_eq!(cloud_path("r:pool/", "bali", &t.rel), "r:pool/bali/jaeho/dji/A.MP4");
}

#[test]
fn a_move_reowns_only_the_moved_rows() {
    let mut l = Ledger::new();
    l.upsert(row("id1", "bali", "jaeho", "dji", "A.MP4"));
    l.upsert(row("id2", "bali", "jaeho", "dji", "B.MP4"));
    repoint_moves(&mut l, &[("bali".to_string(), "jaeho/dji/A.MP4".to_string())], "doha");
    assert_eq!(l.trip_of("id1").as_deref(), Some("doha"));
    assert_eq!(l.trip_of("id2").as_deref(), Some("bali"));
    let moved = migrate_marks(
        &["/lib/bali/jaeho/dji/A.MP4".to_string(), "/lib/bali/jaeho/dji/B.MP4".to_string()],
        &[("/lib/bali/jaeho/dji/A.MP4".to_string(), "/lib/doha/jaeho/dji/A.MP4".to_string())],
    );
    assert_eq!(moved, vec![Some("/lib/doha/jaeho/dji/A.MP4".to_string()), None]);
}

#[test]
fn a_rename_leaves_no_row_on_the_old_name() {
    let mut l = Ledger::new();
    l.upsert(row("id1", "bali", "jaeho", "dji", "A.MP4"));
    l.upsert(row("id2", "doha", "jaeho", "dji", "B.MP4"));
    rename_rows(&mut l, "bali", "bali-2024");
    assert!(l.rows.iter().all(|r| r.trip != "bali"));
    assert_eq!(l.trip_of("id1").as_deref(), Some("bali-2024"));
    assert_eq!(reprefix("/lib/bali/jaeho/A.MP4", "/lib/bali", "/lib/bali-2024"), "/lib/bali-2024/jaeho/A.MP4");
    assert_eq!(reprefix("/lib/doha/x", "/lib/bali", "/lib/bali-2024"), "/lib/doha/x");
}

#[test]
fn merge_refusals_say_why() {
    assert_eq!(merge_check("a", "a", true, 3).unwrap_err(), "a trip can't merge into itself");
    assert_eq!(merge_check("ghost", "b", false, 0).unwrap_err(), "no such trip: ghost");
    assert_eq!(merge_check("a", "b", true, 0).unwrap_err(), "'a' has no footage to merge");
    assert_eq!(merge_check("a/b", "c", true, 1).unwrap_err(), "invalid trip name");
    assert!(merge_check("a", "b", true, 1).is_ok());
}

#[test]
fn a_delete_drops_the_deleted_rows_only() {
    let mut l = Ledger::new();
    l.upsert(row("id1", "bali", "jaeho", "dji", "A.MP4"));
    l.upsert(row("id2", "bali", "jaeho", "dji", "B.MP4"));
    l.upsert(row("id3", "doha", "jaeho", "dji", "C.MP4"));
    assert_eq!(recorded_id(&l, "bali", "jaeho/dji/B.MP4").as_deref(), Some("id2"));
    assert_eq!(owned_ids(&l, "bali"), vec!["id1".to_string(), "id2".to_string()]);
    drop_rows(&mut l, &["id2".to_string()], None);
    assert_eq!(l.rows.len(), 2);
    drop_rows(&mut l, &[], Some("bali"));
    assert_eq!(l.rows.len(), 1);
    assert_eq!(l.rows[0].id, "id3");
}

#[test]
fn a_replay_drops_only_the_ops_that_landed() {
    let mut q = Pending::new();
    q.push(1, PendingOp::Purge { trip: "bali".into() });
    q.push(2, PendingOp::Rename { old: "a".into(), new: "b".into() });
    q.push(3, PendingOp::Move { from: "x".into(), to: "b".into(), rel: "p/c/F.MP4".into() });
    assert_eq!(ops_for(&q, "b").len(), 2);
    drop_applied(&mut q, &[PendingOp::Rename { old: "a".into(), new: "b".into() }]);
    assert_eq!(q.rows.len(), 2);
    assert_eq!(q.count_for("b"), 1);
    match replay_call("r:pool/", "jaeho", &PendingOp::Rename { old: "a".into(), new: "b".into() }) {
        CloudCall::MovePath { from, to } => {
            assert_eq!(from, "r:pool/a/jaeho");
            assert_eq!(to, "r:pool/b/jaeho");
        },
        CloudCall::PurgePath { .. } => panic!("a rename moves"),
    }
}

#[test]
fn a_pull_fetches_each_person_once_in_name_order() {
    let items = vec![item("bob/dji/A.MP4", 1, "me"), item("alice/x/B.MP4", 2, "me"), item("bob/dji/C.MP4", 3, "me")];
    assert_eq!(pull_people(&items), vec!["alice".to_string(), "bob".to_string()]);
}

#[test]
fn segments_stay_inside_their_media() {
    let s = segment_of("/lib/t/p/c.MP4", "x", 500, 900, 100);
    assert_eq!((s.in_f, s.out_f), (99, 99));
    assert_eq!(s.name, "c.MP4");
    assert_eq!(segment_of("/lib/t/p/", "", 0, 0, 10).name, "clip");
}

#[test]
fn ids_are_the_sha1_of_their_seed_in_uuid_shape() {
    // the SHA-1 of "abc" is a9993e364706816aba3e25717850c26c9cd0d89d
    assert_eq!(uuid_from("abc"), "{a9993e36-4706-416a-ba3e-25717850c26c}");
    assert_eq!(uuid_from("reel/seq/reel: t"), "{f0ce5c36-c08a-4d92-b480-c7f2f6062244}");
}

#[test]
fn the_timeline_carries_the_derived_document_id() {
    let xml = reel_core::timeline::timeline_xml(
        "reel: t",
        "/lib/t",
        &reel_core::timeline::Profile::default(),
        Some("atsc_1080p_30"),
        &[],
        &[],
    );
    assert!(xml.contains("kdenlive:docproperties.documentid\">1667776117492<"));
    assert!(xml.contains("kdenlive:docproperties.profile\">atsc_1080p_30<"));
    assert!(xml.contains("<tractor id=\"{f0ce5c36-c08a-4d92-b480-c7f2f6062244}\" in=\"0\" out=\"0\">"));
}
