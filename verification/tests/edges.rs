use reel_core::archive::{archive_check, is_raw_dir, not_all_in_cloud, plan_archive};
use reel_core::cards::card_candidates;
use reel_core::config::{Config, EnvVars};
use reel_core::cut::{clip_name, cut_check, cut_counts, cut_outcome, locate, slugify, CutOutcome};
use reel_core::edit::{edit_check, edit_gate, launch_args, media_for};
use reel_core::import::{import_dest, import_row, import_step, ImportStep};
use reel_core::ledger::{Ledger, LedgerRow};
use reel_core::media::{capture_sorted, probe_duration, probe_field, probe_has_video};
use reel_core::organize::{move_clips, move_step, MoveFacts, MoveStep};
use reel_core::proxy::{ffmpeg_error, proxy_args, proxy_path, proxy_plan, ProxyPlan};
use reel_core::pull::{contributor, contributors, pull_check};
use reel_core::push::{pool_args, push_check, push_verdict};
use reel_core::restore::{landed, restore_list, safe_rel};
use reel_core::review::{mark_fields, review_check};
use reel_core::serve::{parse_range, percent_decode, serve_clip};
use reel_core::share::{add_check, share_id};
use reel_core::still::grab_error;
use reel_core::trips::archived_of;
use reel_core::wipe::{check_list, pano_swept, plan_check, reclaim_match, seq_num, ReclaimMatch};

#[test]
fn slugs_collapse_runs_and_trim_dashes() {
    assert_eq!(slugify("Sunset over   the bay!"), "Sunset-over-the-bay");
    assert_eq!(slugify("--a--b--"), "a-b");
    assert_eq!(slugify("日本"), "");
    assert_eq!(clip_name("jaeho__dji__DJI_0001", 3, "best bit"), "jaeho__dji__DJI_0001_c03_best-bit.mp4");
    assert_eq!(clip_name("x", 12, "!!"), "x_c12.mp4");
}

#[test]
fn a_moved_trips_mark_finds_its_master_by_name_once() {
    let masters = vec!["/lib/new/jaeho/dji/A.MP4".to_string(), "/lib/new/alice/gopro/B.MP4".to_string()];
    assert_eq!(locate("/lib/old/jaeho/dji/A.MP4", false, &masters).as_deref(), Some("/lib/new/jaeho/dji/A.MP4"));
    assert_eq!(locate("/lib/old/jaeho/dji/A.MP4", true, &masters).as_deref(), Some("/lib/old/jaeho/dji/A.MP4"));
    let twice = vec!["/lib/new/a/A.MP4".to_string(), "/lib/new/b/A.MP4".to_string()];
    assert_eq!(locate("/lib/old/A.MP4", false, &twice), None, "ambiguous: give up rather than guess");
    assert_eq!(cut_check("t", true, 0).unwrap_err(), "no marks to cut in 't' — review it first");
    assert_eq!(cut_check("t", false, 3).unwrap_err(), "no such trip: t");
}

#[test]
fn panorama_frames_ride_their_stitched_photo() {
    assert_eq!(seq_num("DJI_20240101_0039_D.JPG").as_deref(), Some("0039"));
    assert_eq!(seq_num("001_0039").as_deref(), Some("0039"));
    assert_eq!(seq_num("IMG_12345.JPG"), None);
    assert!(pano_swept("001_0039", &["0039".to_string()]));
    assert!(!pano_swept("001_0040", &["0039".to_string()]));
    assert_eq!(check_list(&vec!["a/b".to_string(), "c/d".to_string()]), "a/b\nc/d\n");
}

#[test]
fn reclaim_only_takes_what_is_imported_and_verified() {
    let r = LedgerRow {
        id: "i".into(),
        trip: "bali".into(),
        person: "jaeho".into(),
        camera: "dji".into(),
        base: "A.MP4".into(),
        bytes: "5".into(),
        captured: "0".into(),
        imported_at: "0".into(),
    };
    assert!(matches!(reclaim_match(None, 5, Some(5)), ReclaimMatch::NotImported));
    assert!(matches!(reclaim_match(Some(&r), 5, Some(4)), ReclaimMatch::NotVerified));
    assert!(matches!(reclaim_match(Some(&r), 5, None), ReclaimMatch::NotVerified));
    match reclaim_match(Some(&r), 5, Some(5)) {
        ReclaimMatch::Eligible { trip, rel } => {
            assert_eq!(trip, "bali");
            assert_eq!(rel, "jaeho/dji/A.MP4");
        },
        _ => panic!("a verified import is eligible"),
    }
    assert_eq!(plan_check(false, 1, 1).unwrap_err(), "no card inserted");
    assert_eq!(plan_check(true, 0, 0).unwrap_err(), "no footage on the card for this selection");
    assert_eq!(
        plan_check(true, 3, 0).unwrap_err(),
        "nothing here is verified-imported yet — import and share these clips first"
    );
}

#[test]
fn restore_counts_what_came_back() {
    assert!(safe_rel("jaeho/dji/A.MP4"));
    assert!(!safe_rel("jaeho//A.MP4"));
    assert!(!safe_rel("a\\b"));
    assert!(!safe_rel("./A.MP4"));
    assert_eq!(landed(&[Some(10), None, Some(5)]), (2, 15));
    assert_eq!(restore_list(&["a/b".to_string()]), "a/b\n");
}

#[test]
fn contributors_leave_you_out_and_count_per_person() {
    let entries = vec![
        ("bob/dji/A.MP4".to_string(), 10),
        ("me/dji/B.MP4".to_string(), 20),
        ("alice/x/C.JPG".to_string(), 5),
        ("bob/dji/notes.txt".to_string(), 99),
        ("bob/dji/D.MOV".to_string(), 30),
    ];
    let c = contributors("me", &entries);
    assert_eq!(c, vec![("alice".to_string(), 1, 5), ("bob".to_string(), 2, 40)]);
    assert!(contributor("bob".into(), 2, 40, 2).pulled);
    assert!(!contributor("bob".into(), 2, 40, 1).pulled);
    assert_eq!(pull_check("me", "me").unwrap_err(), "that's your own footage — Share uploads it, no need to pull");
    assert_eq!(pull_check("../x", "me").unwrap_err(), "invalid person");
}

#[test]
fn marks_rows_split_into_fields() {
    assert_eq!(
        mark_fields("/m.MP4\t 1.500 \t3.000\tsunset\tand more"),
        Some(("/m.MP4".to_string(), "1.500".to_string(), "3.000".to_string(), "sunset\tand more".to_string()))
    );
    assert_eq!(
        mark_fields("/m.MP4\t1\t2"),
        Some(("/m.MP4".to_string(), "1".to_string(), "2".to_string(), String::new()))
    );
    assert_eq!(mark_fields("# comment"), None);
    assert_eq!(mark_fields("\t1\t2"), None);
    assert_eq!(mark_fields("/m.MP4\t1"), None);
    assert_eq!(review_check("t", false, 1).unwrap_err(), "no trip 't'");
    assert_eq!(review_check("t", true, 0).unwrap_err(), "no footage in 't' to review yet");
}

#[test]
fn proxies_remux_a_native_proxy_and_say_why_they_failed() {
    assert_eq!(proxy_path("/lib", "bali", "/lib/bali/jaeho/dji/A.MP4"), "/lib/bali/.proxies/jaeho__dji__A.mp4");
    let a = proxy_args("/in.LRF", true, "/out.partial.mp4");
    assert!(a.contains(&"copy".to_string()) && !a.contains(&"libx264".to_string()));
    let b = proxy_args("/in.MP4", false, "/out.partial.mp4");
    assert!(b.contains(&"libx264".to_string()));
    assert_eq!(b.last().map(|s| s.as_str()), Some("/out.partial.mp4"));
    assert_eq!(ffmpeg_error("noise\n  bad codec  \n"), "ffmpeg: bad codec");
    assert_eq!(ffmpeg_error("   "), "ffmpeg couldn't build a proxy for this clip");
    assert_eq!(proxy_plan(false, true), ProxyPlan::Outside);
    assert_eq!(proxy_plan(true, true), ProxyPlan::AsIs);
    assert_eq!(grab_error(""), "couldn't grab that frame: ffmpeg couldn't decode that frame");
}

#[test]
fn import_skips_owned_clips_and_lands_new_ones_by_camera() {
    let mut l = Ledger::new();
    l.upsert(import_row("id1", "bali", "jaeho", "/card/DCIM/DJI_0001.MP4", 5, 10, 20));
    assert!(matches!(import_step(&l, "bali", 5, 0, 10, Some("id1")), ImportStep::AlreadyHere));
    assert!(matches!(import_step(&l, "doha", 5, 0, 10, Some("id1")), ImportStep::OtherTrip));
    assert!(matches!(import_step(&l, "doha", 5, 0, 10, Some("new")), ImportStep::New));
    assert!(matches!(import_step(&l, "doha", 11, 0, 10, Some("new")), ImportStep::OutOfWindow));
    assert!(matches!(import_step(&l, "doha", 5, 0, 10, None), ImportStep::Unreadable));
    assert_eq!(import_dest("/lib", "bali", "jaeho", "/card/DCIM/GX010001.MP4"), "/lib/bali/jaeho/gopro/GX010001.MP4");
    assert_eq!(l.rows[0].camera, "dji");
    assert_eq!(l.rows[0].captured, "10");
}

#[test]
fn a_push_is_refused_or_verified_before_anything_is_claimed() {
    assert_eq!(push_check("t", true, 0).unwrap_err(), "nothing of yours to share in 't'");
    assert!(push_verdict(false, true).unwrap_err().starts_with("upload didn't finish"));
    assert!(push_verdict(true, false).unwrap_err().starts_with("pool check failed"));
    assert!(push_verdict(true, true).is_ok());
    let a = pool_args(&["check", "--one-way"], "/lib/t/me", "r:pool/t/me");
    assert_eq!(
        a,
        vec!["check", "--one-way", "--exclude", "*.LRF", "--exclude", "*.LRV", "--exclude", "*.THM", "/lib/t/me", "r:pool/t/me"]
    );
}

#[test]
fn archiving_frees_the_raw_folders() {
    assert!(is_raw_dir("jaeho") && is_raw_dir(".proxies") && !is_raw_dir("clips"));
    let p = plan_archive("bali", 3, &[10, 20, 5]);
    assert_eq!((p.masters, p.bytes), (3, 35));
    assert_eq!(archive_check("bali", true, 0).unwrap_err(), "no raw footage in 'bali' to free");
    assert_eq!(not_all_in_cloud("bali"), "not all of 'bali' is in the cloud — Share it first; nothing freed");
}

#[test]
fn card_overrides_win_over_mounted_volumes() {
    assert_eq!(card_candidates(Some("/sd/dji"), None, &["/run/media/me/X".to_string()]), vec!["/sd/dji".to_string()]);
    assert_eq!(
        card_candidates(None, None, &["/run/media/me/X".to_string()]),
        vec!["/run/media/me/X/DCIM".to_string()]
    );
}

#[test]
fn the_editor_opens_the_cut_in_order_else_the_masters() {
    let clips = vec!["/t/clips/b_c02.mp4".to_string(), "/t/clips/a_c01.MP4".to_string(), "/t/clips/x.txt".to_string()];
    let masters = vec!["/t/p/c/M.MP4".to_string()];
    assert_eq!(media_for(&clips, &masters), vec!["/t/clips/a_c01.MP4".to_string(), "/t/clips/b_c02.mp4".to_string()]);
    assert_eq!(media_for(&vec![], &masters), masters);
    assert_eq!(edit_check("t", true, false).unwrap_err(), "kdenlive isn't installed — run 'make sync'");
    assert_eq!(launch_args(&masters), vec!["--fork".to_string(), "kdenlive".to_string(), "/t/p/c/M.MP4".to_string()]);
}

#[test]
fn probe_listings_name_video_and_duration() {
    let text = "codec_type=audio\n codec_type=video \nduration=12.5\n";
    assert!(probe_has_video(text));
    assert_eq!(probe_duration(text).as_deref(), Some("12.5"));
    assert!(!probe_has_video("codec_type=audio\n"));
    assert_eq!(probe_duration("nothing\n"), None);
}

#[test]
fn byte_ranges_are_clamped_and_confined() {
    assert_eq!(parse_range("bytes=0-99", 1000), Some((0, 99)));
    assert_eq!(parse_range("bytes=500-", 1000), Some((500, 999)));
    assert_eq!(parse_range("items=0-1", 1000), None);
    let r = serve_clip("/lib", "/lib/t/a.MP4", Some("bytes=10-"), None, None, Some(100));
    assert_eq!(r.status, 206);
    assert_eq!(r.content_range.as_deref(), Some("bytes 10-99/100"));
    assert_eq!(r.send, Some((10, 99)));
    let r = serve_clip("/lib", "/lib/t/a.MP4", Some("bytes=200-300"), None, None, Some(100));
    assert_eq!(r.status, 416);
    assert_eq!(r.content_range.as_deref(), Some("bytes */100"));
    let r = serve_clip("/lib", "/etc/passwd", None, None, None, Some(100));
    assert_eq!(r.status, 403);
    let r = serve_clip("/lib", "/lib/t/gone.MP4", None, None, None, None);
    assert_eq!(r.status, 404);
}

#[test]
fn share_ids_and_users_are_checked() {
    assert_eq!(share_id(" 42 ").as_deref(), Some("42"));
    assert_eq!(share_id("4a"), None);
    assert_eq!(share_id(""), None);
    assert_eq!(add_check("  bob ", "me").as_deref(), Ok("bob"));
    assert_eq!(add_check("  ", "me").unwrap_err(), "no username to share with");
    assert_eq!(add_check("me", "me").unwrap_err(), "that's your own account — it already owns the trip");
}

#[test]
fn config_falls_back_to_the_environment_defaults() {
    let e = EnvVars {
        home: Some("/home/j".into()),
        reel_user: None,
        user: Some("j".into()),
        reel_lib: None,
        xdg_state_home: None,
        xdg_cache_home: None,
        reel_remote: None,
        reel_session_gap: Some("600".into()),
        dji_sd: None,
        gopro_sd: None,
    };
    let c = Config::from_vars(&e);
    assert_eq!(c.lib, "/home/j/Videos");
    assert_eq!(c.user, "j");
    assert_eq!(c.session_gap, 600);
    assert!(c.ledger_path().starts_with(&c.state_dir));
}

#[test]
fn request_paths_are_percent_decoded() {
    assert_eq!(percent_decode(b"lib/My%20Trip/a.MP4"), b"lib/My Trip/a.MP4".to_vec());
    assert_eq!(percent_decode(b"%e2%80%94"), "\u{2014}".as_bytes().to_vec());
    // a stray or short escape stays as it is
    assert_eq!(percent_decode(b"100%"), b"100%".to_vec());
    assert_eq!(percent_decode(b"%zz%4"), b"%zz%4".to_vec());
    assert_eq!(percent_decode(b""), Vec::<u8>::new());
}

#[test]
fn probe_fields_are_read_by_key() {
    let text = "width=3840\nheight=2160\nr_frame_rate=24000/1001\nduration= 12.5 \n";
    assert_eq!(probe_field(text, "width").as_deref(), Some("3840"));
    assert_eq!(probe_field(text, "r_frame_rate").as_deref(), Some("24000/1001"));
    assert_eq!(probe_field(text, "duration").as_deref(), Some("12.5"));
    assert_eq!(probe_field(text, "sample_aspect_ratio"), None);
}

#[test]
fn only_a_marker_of_one_reads_as_archived() {
    assert!(archived_of(Some("1")));
    assert!(!archived_of(Some("0")));
    assert!(!archived_of(Some("yes")));
    assert!(!archived_of(None));
}

#[test]
fn captures_sort_by_time_then_path() {
    let v = vec![
        (30, "/t/b.MP4".to_string()),
        (10, "/t/z.MP4".to_string()),
        (30, "/t/a.MP4".to_string()),
        (-5, "/t/m.MP4".to_string()),
    ];
    let r = capture_sorted(&v);
    let want = vec![
        (-5, "/t/m.MP4".to_string()),
        (10, "/t/z.MP4".to_string()),
        (30, "/t/a.MP4".to_string()),
        (30, "/t/b.MP4".to_string()),
    ];
    assert_eq!(r, want);
}

#[test]
fn a_move_keeps_the_whole_subpath() {
    // a friend's clip pulled as person/file keeps that shape
    match move_step("/lib", "b", "/lib/a/alice/CLIP_0050.MP4", true) {
        MoveStep::Target(t) => {
            assert_eq!(t.master_dst, "/lib/b/alice/CLIP_0050.MP4");
            assert_eq!(t.rel, "alice/CLIP_0050.MP4");
            assert_eq!(t.person, "alice");
            assert_eq!(t.src_trip, "a");
        }
        other => panic!("expected a target, got {other:?}"),
    }
    // a deeper subpath rides along whole
    match move_step("/lib", "b", "/lib/a/jaeho/dji/day2/DJI_0007.MP4", true) {
        MoveStep::Target(t) => {
            assert_eq!(t.master_dst, "/lib/b/jaeho/dji/day2/DJI_0007.MP4");
            assert_eq!(t.rel, "jaeho/dji/day2/DJI_0007.MP4");
            assert_eq!(t.stem, "jaeho__dji__day2__DJI_0007");
        }
        other => panic!("expected a target, got {other:?}"),
    }
    // a file straight in the trip folder has no owner: never moved
    assert!(matches!(move_step("/lib", "b", "/lib/a/loose.MP4", true), MoveStep::Ignore));
    assert!(matches!(move_step("/lib", "a", "/lib/a/jaeho/dji/x.MP4", true), MoveStep::AlreadyHere));
    assert!(matches!(move_step("/lib", "b", "/lib/a/jaeho/dji/x.MP4", false), MoveStep::Ignore));
}

#[test]
fn a_cut_counts_each_mark_once() {
    assert_eq!(cut_outcome(false, true, true), CutOutcome::Failed);
    assert_eq!(cut_outcome(true, true, false), CutOutcome::Skipped);
    assert_eq!(cut_outcome(true, false, true), CutOutcome::Made);
    assert_eq!(cut_outcome(true, false, false), CutOutcome::Failed);
    let os = [CutOutcome::Made, CutOutcome::Skipped, CutOutcome::Failed, CutOutcome::Made];
    assert_eq!(cut_counts(&os), (2, 1, 1));
    assert_eq!(cut_counts(&[CutOutcome::Skipped; 3]), (0, 3, 0));
    assert_eq!(cut_counts(&[]), (0, 0, 0));
}

#[test]
fn a_move_with_nowhere_to_go_plans_nothing() {
    let masters = vec![
        "/lib/b/jaeho/dji/A.MP4".to_string(),
        "/lib/a/jaeho/dji/B.MP4".to_string(),
        "/elsewhere/C.MP4".to_string(),
        "/lib/a/loose.MP4".to_string(),
    ];
    let facts = vec![
        MoveFacts { inside: true, dest_has: false, src_shared: false },
        MoveFacts { inside: true, dest_has: true, src_shared: false },
        MoveFacts { inside: false, dest_has: false, src_shared: false },
        MoveFacts { inside: true, dest_has: false, src_shared: false },
    ];
    let plan = move_clips("/lib", "jaeho", "b", &masters, &facts);
    assert!(plan.moves.is_empty());
    assert_eq!(plan.skipped, 2);
}

#[test]
fn a_failed_build_is_what_opening_the_editor_answers() {
    let no_marks = "no marks to build a timeline from".to_string();
    assert_eq!(edit_gate("t", true, Some(no_marks.clone()), true), Err(no_marks.clone()));
    assert_eq!(edit_gate("t", true, Some(no_marks), false).unwrap_err(), "no marks to build a timeline from");
    assert_eq!(edit_gate("ghost", false, None, true).unwrap_err(), "no such trip: ghost");
    assert_eq!(edit_gate("t", true, None, false).unwrap_err(), "kdenlive isn't installed — run 'make sync'");
    assert_eq!(edit_gate("t", true, None, true), Ok(()));
}

#[test]
fn card_proxy_cache_is_within_clip_scope() {
    let cfg = Config {
        lib: "/home/me/Videos".to_string(),
        remote: "x:".to_string(),
        user: "me".to_string(),
        state_dir: "/home/me/.local/state/reel".to_string(),
        cache_dir: "/home/me/.cache/reel".to_string(),
        session_gap: 21600,
        dji_sd: None,
        gopro_sd: None,
        media_user: "me".to_string(),
    };
    let proxy = cfg.card_proxy_path("qdeadbeef");
    assert_eq!(proxy, "/home/me/.cache/reel/proxies/qdeadbeef.mp4");
    let roots = cfg.clip_roots();
    assert!(roots.contains(&"/home/me/.cache/reel/proxies".to_string()));
    assert!(roots.iter().any(|r| proxy.starts_with(&format!("{r}/"))));
    let root = "/home/me/.cache/reel/proxies";
    let r = serve_clip(root, &proxy, None, Some(&proxy), Some(root), Some(4));
    assert_eq!(r.status, 200);
}
