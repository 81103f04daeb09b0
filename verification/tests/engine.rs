use reel_core::log::iso8601;
use reel_core::media::{kind_of, Kind};
use reel_core::model::ClipRef;
use reel_core::serve::mime_for;
use reel_core::sessions::{cluster_sessions, ClipRec};
use reel_core::share::{base_from_webdav, cloud_root, curl_escape, trip_path};
use reel_core::still::ledger_place;
use reel_core::thumbs::base64;
use reel_core::timeline::{choose_profile, match_profile, Profile};
use reel_core::still::still_path;
use reel_core::timeline::segment_of;
use reel_core::timeline::timeline_xml;
use reel_core::timeline::conform;
use reel_core::log::{record, Level};
use reel_core::model::TripShare;
use reel_core::share::{cached_count, parse_share_rows, share_cache_text, share_row};
use reel_core::share::sharees;
use reel_core::organize::rename_check;
use reel_core::store::{FileSet, Pending, PendingOp};
use reel_core::restore::first_unsafe;

#[test]
fn epochs_render_as_utc_timestamps() {
    assert_eq!(iso8601(0), "1970-01-01T00:00:00Z");
    assert_eq!(iso8601(1_000_000_000), "2001-09-09T01:46:40Z");
    // a leap day, the case an off-by-one in the calendar maths lands on
    assert_eq!(iso8601(1_709_164_800), "2024-02-29T00:00:00Z");
}

#[test]
fn base_url_trims_webdav_suffix() {
    assert_eq!(
        base_from_webdav("https://nc.example.net/remote.php/dav/files/jaeho/").as_deref(),
        Some("https://nc.example.net")
    );
    // Nextcloud served from a subdirectory keeps the subdir.
    assert_eq!(
        base_from_webdav("https://host/nextcloud/remote.php/webdav/").as_deref(),
        Some("https://host/nextcloud")
    );
    assert_eq!(base_from_webdav("https://host/dav/files/x/"), None);
}

#[test]
fn cloud_root_and_trip_path() {
    assert_eq!(cloud_root("nextcloud:Reels"), "Reels");
    assert_eq!(cloud_root("nextcloud:Reels/"), "Reels");
    assert_eq!(cloud_root("nextcloud:"), "");
    assert_eq!(trip_path("Reels", "Japan 2024"), "/Reels/Japan 2024");
    assert_eq!(trip_path("", "Japan"), "/Japan");
}

#[test]
fn curl_escape_quotes_and_backslashes() {
    assert_eq!(curl_escape(r#"jaeho:pa"ss\word"#), r#"jaeho:pa\"ss\\word"#);
    assert_eq!(curl_escape("a\nb\rc"), "abc");
}

#[test]
fn ledger_place_reads_owner_and_camera_at_any_depth() {
    let f = |s: &str| ledger_place(s);
    assert_eq!(
        f("DOHA/jaeho/DJI/clip.jpg"),
        Some(("DOHA".into(), "jaeho".into(), "DJI".into()))
    );
    // a friend's flat tree has no camera level
    assert_eq!(
        f("DOHA/alice/clip.jpg"),
        Some(("DOHA".into(), "alice".into(), String::new()))
    );
    // deeper trees are joined, never truncated onto person/camera
    assert_eq!(
        f("DOHA/alice/DJI/2026/clip.jpg"),
        Some(("DOHA".into(), "alice".into(), "DJI/2026".into()))
    );
    // a stray at the trip root has no owner — the filename is not a person
    assert_eq!(
        f("DOHA/clip.jpg"),
        Some(("DOHA".into(), String::new(), String::new()))
    );
    assert_eq!(f("clip.jpg"), None);
}

#[test]
fn base64_matches_known_vectors() {
    assert_eq!(base64(b""), "");
    assert_eq!(base64(b"f"), "Zg==");
    assert_eq!(base64(b"fo"), "Zm8=");
    assert_eq!(base64(b"foo"), "Zm9v");
    assert_eq!(base64(b"foob"), "Zm9vYg==");
    assert_eq!(base64(b"fooba"), "Zm9vYmE=");
    assert_eq!(base64(b"foobar"), "Zm9vYmFy");
}

#[test]
fn classifies_cameras() {
    assert_eq!(kind_of("/x/DJI_0001.MP4"), Kind::Dji);
    assert_eq!(kind_of("/x/GX010001.MP4"), Kind::Gopro);
    assert_eq!(kind_of("/x/GL010001.LRV"), Kind::Gopro);
    assert_eq!(kind_of("/x/IMG_1234.MOV"), Kind::Iphone);
    assert_eq!(kind_of("/x/random.mp4"), Kind::Misc);
}

#[test]
fn clusters_on_the_gap() {
    // two clips close, then one a day later → two sessions.
    let rec = |at: i64, owner: Option<&str>| ClipRec {
        at,
        bytes: 100,
        photo: false,
        owner: owner.map(|s| s.to_string()),
        discarded: false,
        clip: ClipRef {
            path: format!("c{at}.mp4"),
            fileid: format!("id{at}"),
        },
    };
    let recs = vec![
        rec(1_700_000_000, None),
        rec(1_700_000_300, Some("ha-giang")),
        rec(1_700_100_000, None),
    ];
    let s = cluster_sessions(&recs, 21600);
    assert_eq!(s.len(), 2);
    assert_eq!(s[0].captures, 2);
    assert_eq!(s[1].captures, 1);
    assert_eq!(s[0].owners, vec!["ha-giang".to_string()]);
    assert!(!s[0].imported, "only one of two clips owned");
    assert_eq!(s[0].new_captures, 1, "one clip still new");
    assert!(!s[0].strip.is_empty(), "session carries a contact strip");
}

#[test]
fn photos_cluster_with_videos_by_time() {
    // A video with a photo shot during it, plus a lone photo a day later → two
    // sessions: one video+photo, one photo-only. Photos cluster exactly like video.
    let cap = |at: i64, photo: bool, owner: Option<&str>| ClipRec {
        at,
        bytes: 100,
        photo,
        owner: owner.map(|s| s.to_string()),
        discarded: false,
        clip: ClipRef {
            path: format!("c{at}.{}", if photo { "jpg" } else { "mp4" }),
            fileid: format!("id{at}"),
        },
    };
    let caps = vec![
        cap(1_700_000_000, false, None),         // video
        cap(1_700_000_200, true, Some("kyoto")), // photo, rides the same session
        cap(1_700_100_000, true, None),          // lone photo → its own session
    ];
    let s = cluster_sessions(&caps, 21600);
    assert_eq!(s.len(), 2);
    assert_eq!(s[0].captures, 2, "video + photo in one session");
    assert_eq!(s[0].photos, 1, "one of the two is a photo");
    assert_eq!(
        s[0].owners,
        vec!["kyoto".to_string()],
        "the photo's owner surfaces"
    );
    assert_eq!(s[0].new_captures, 1, "the video is still new");
    assert_eq!(s[1].captures, 1);
    assert_eq!(s[1].photos, 1, "photo-only session");
    assert_eq!(s[1].new_captures, 1, "the lone photo is new");
    assert!(!s[1].imported);
}

#[test]
fn mime_forces_video_for_camera_proxies() {
    assert_eq!(mime_for("/x/DJI_0001.LRF"), "video/mp4");
    assert_eq!(mime_for("/x/GL010001.LRV"), "video/mp4");
    assert_eq!(mime_for("/x/IMG_1.MOV"), "video/mp4");
    assert_eq!(mime_for("/x/poster.jpg"), "image/jpeg");
}

#[test]
fn the_project_profile_follows_the_majority_of_the_marked_footage() {
    let drone = Profile {
        width: 3840,
        height: 2160,
        fps_num: 24000,
        fps_den: 1001,
        sar_num: 1,
        sar_den: 1,
    };
    let phone = Profile {
        width: 1280,
        height: 720,
        fps_num: 30,
        fps_den: 1,
        sar_num: 1,
        sar_den: 1,
    };
    let picked = choose_profile(&[phone.clone(), drone.clone(), drone.clone()]);
    assert_eq!(picked, drone, "two drone marks outvote one phone mark");
    assert_eq!(picked.describe(), "3840×2160 · 23.98 fps");

    // Portrait drone footage is in this library too; a hardcoded 16:9 would squash it.
    let portrait = Profile {
        width: 1080,
        height: 1920,
        ..drone.clone()
    };
    assert_eq!(portrait.dar(), (9, 16), "display aspect follows the pixels");

    // Nothing probed at all still yields a usable project rather than a panic.
    assert_eq!(choose_profile(&[]), Profile::default());
}

#[test]
fn the_profile_id_is_an_exact_match_or_nothing() {
    let drone = Profile {
        width: 3840,
        height: 2160,
        fps_num: 24000,
        fps_den: 1001,
        sar_num: 1,
        sar_den: 1,
    };
    let candidates = vec![
        ("uhd_2160p_2398".to_string(), drone.clone()),
        (
            "uhd_2160p_30".to_string(),
            Profile {
                fps_num: 30,
                fps_den: 1,
                ..drone.clone()
            },
        ),
        (
            "atsc_1080p_2398".to_string(),
            Profile {
                width: 1920,
                height: 1080,
                ..drone.clone()
            },
        ),
    ];
    assert_eq!(
        match_profile(&candidates, &drone).as_deref(),
        Some("uhd_2160p_2398")
    );

    // Portrait drone footage at 23.98 matches no stock profile. `None` is the right
    // answer: the caller then tells the user to set it, rather than emitting a name
    // that hangs Kdenlive on a modal or letting it default to PAL in silence.
    let portrait = Profile {
        width: 1080,
        height: 1920,
        ..drone.clone()
    };
    assert_eq!(match_profile(&candidates, &portrait), None);

    // Same size, different rate is NOT a match.
    let same_size_other_rate = Profile {
        fps_num: 25,
        fps_den: 1,
        ..drone.clone()
    };
    assert_eq!(match_profile(&candidates, &same_size_other_rate), None);
}

// ---- brought over: their subjects now stand in the library ----

fn mlt_stock() -> Vec<Vec<(String, Profile)>> {
    let uhd = Profile {
        width: 3840,
        height: 2160,
        fps_num: 24000,
        fps_den: 1001,
        sar_num: 1,
        sar_den: 1,
    };
    vec![vec![
        ("uhd_2160p_2398".to_string(), uhd.clone()),
        ("uhd_2160p_30".to_string(), Profile { fps_num: 30, fps_den: 1, ..uhd.clone() }),
        ("atsc_1080p_2398".to_string(), Profile { width: 1920, height: 1080, ..uhd.clone() }),
    ]]
}

#[test]
fn still_name_carries_the_source_and_the_offset() {
    let p = "/lib/DOHA/jaeho/DJI/DJI_0030_D.MP4";
    // the playhead arrives as whole milliseconds: 12.48 s and 12.4801 s are both 12480
    assert_eq!(still_path(p, 12480), "/lib/DOHA/jaeho/DJI/DJI_0030_D_t12480.jpg");
    assert_eq!(still_path(p, 12480), still_path(p, 12480));
    // and a negative/zero playhead (clamped to 0) still yields a sane name
    assert_eq!(still_path(p, 0), "/lib/DOHA/jaeho/DJI/DJI_0030_D_t0.jpg");
}

#[test]
fn a_marks_seconds_become_inclusive_frames_at_the_masters_real_rate() {
    // 70.920 s and 80.920 s at 24000/1001 fall on frames 1700 and 1940
    let m = "/lib/party/jaeho/dji/DJI_0004.MP4";
    let s = segment_of(m, "hl", 1700, 1940, 30_000);
    assert_eq!((s.in_f, s.out_f), (1700, 1939), "start/end land on the frames the player was showing");
    assert_eq!(s.frames(), 240, "inclusive out: a 10s mark is 240 frames at 23.976, not 239");
}

#[test]
fn a_mark_past_the_end_of_its_master_is_clamped_not_extrapolated() {
    let m = "/lib/t/p/c.MP4";
    // 1.0 s .. 999.0 s at 30 fps: frames 30 .. 29970, source is frames 0..99
    let s = segment_of(m, "", 30, 29970, 100);
    assert_eq!(s.out_f, 99, "never past the last frame");
    assert!(s.in_f <= s.out_f, "and never inverted");
    // A zero-width mark is still a clip, not a zero-frame hole in the playlist.
    let z = segment_of(m, "", 150, 150, 1000);
    assert_eq!(z.frames(), 1);
}

fn seg(master: &str, label: &str, start_f: i64, end_f: i64, len: i64) -> reel_core::timeline::Segment {
    reel_core::timeline::segment_of(master, label, start_f, end_f, len)
}

fn src(master: &str, name: &str, len: i64, audio: bool) -> reel_core::timeline::Source {
    reel_core::timeline::Source {
        master: master.to_string(),
        name: name.to_string(),
        length_f: len,
        has_audio: audio,
        proxy: None,
    }
}

#[test]
fn a_bin_clip_spans_its_whole_master_so_edges_stay_draggable() {
    let m = "/lib/party/jaeho/dji/DJI_0004.MP4";
    // a real one: 2228-frame master, mark covering frames 1700..1939
    let s = seg(m, "hl", 1700, 1940, 2228);
    let xml = timeline_xml("reel: party", "/lib/party", &Profile::default(), None, &[src(m, "DJI_0004.MP4", 2228, true)], &[s]);
    assert!(
        xml.contains(r#"<entry producer="bin2" in="0" out="2227"/>"#),
        "the bin clip must reach the end of the media, not the end of the mark"
    );
    assert!(
        xml.contains(r#"<property name="length">2228</property>"#),
        "and the producer must declare the master's real length"
    );
    assert!(xml.contains(r#"in="1700" out="1939""#), "mark placement unchanged");
}

#[test]
fn labels_and_filenames_survive_the_xml_and_json_layers() {
    let m = "/lib/t/jack/26-06-20 14-36-45 4297.mov";
    let s = seg(m, r#"Tyler & "Jack" <best>"#, 30, 90, 900);
    let xml = timeline_xml(
        "reel: t",
        "/lib/t",
        &Profile::default(),
        None,
        &[src(m, "26-06-20 14-36-45 4297.mov", 900, true)],
        &[s],
    );
    assert!(!xml.contains("& \""), "a raw ampersand would break the parse");
    assert!(xml.contains("Tyler &amp;"), "ampersand escaped for XML");
    assert!(xml.contains("&lt;best&gt;"), "angle brackets escaped");
    assert!(xml.contains(r#"\&quot;Jack\&quot;"#), "quotes escaped for JSON first, then for XML");
    assert!(xml.contains(r#"&quot;comment&quot;"#), "the JSON structure itself is XML-escaped, as Kdenlive writes it");
    assert!(xml.contains("26-06-20 14-36-45 4297.mov"));
}

#[test]
fn a_silent_source_leaves_a_gap_rather_than_desyncing_the_audio_track() {
    let quiet = "/lib/t/p/quiet.MP4";
    let loud = "/lib/t/p/loud.MP4";
    // 0..2 s and 0..1 s at 30 fps
    let segs = vec![seg(quiet, "", 0, 60, 900), seg(loud, "", 0, 30, 900)];
    let sources = vec![src(quiet, "quiet.MP4", 900, false), src(loud, "loud.MP4", 900, true)];
    let xml = timeline_xml("reel: t", "/lib/t", &Profile::default(), None, &sources, &segs);
    assert!(xml.contains(r#"<blank length="60"/>"#), "the silent clip holds its 60 frames open on the audio track");
    assert!(!xml.contains(r#"producer="a2""#), "and no audio producer is emitted for a source that has none");
    assert!(xml.contains(r#"producer="a3""#), "while the source that does have audio still gets its clip");
}

#[test]
fn the_project_is_a_sequence_which_is_what_kdenlive_actually_opens() {
    let m = "/lib/t/p/c.MP4";
    let s = seg(m, "sunset", 30, 90, 900);
    let xml = timeline_xml("reel: t", "/lib/t", &Profile::default(), None, &[src(m, "c.MP4", 900, true)], &[s]);
    assert!(xml.contains(r#"<property name="kdenlive:producer_type">17</property>"#));
    assert!(xml.contains(r#"<property name="kdenlive:docproperties.version">1.1</property>"#));
    let uuid = xml
        .split(r#"<property name="kdenlive:uuid">"#)
        .nth(1)
        .and_then(|s| s.split('<').next())
        .expect("a sequence uuid")
        .to_string();
    assert!(uuid.starts_with('{') && uuid.ends_with('}') && uuid.len() == 38, "got {uuid}");
    assert!(xml.contains(&format!(r#"<tractor id="{uuid}""#)), "sequence element");
    assert!(
        xml.contains(&format!(r#"<property name="kdenlive:docproperties.activetimeline">{uuid}</property>"#)),
        "activetimeline points at the sequence"
    );
    assert!(xml.contains(&format!(r#"<entry producer="{uuid}""#)), "sequence is a bin item");
    assert!(xml.contains(&format!(r#"<track producer="{uuid}""#)), "project tractor plays it");
    assert!(
        xml.contains(r#"kdenlive:sequenceproperties.guides">[{&quot;comment&quot;:&quot;sunset&quot;"#),
        "guides ride on the sequence, XML-escaped"
    );
    assert!(!xml.contains("docproperties.guides"), "never the legacy location");
}

#[test]
fn rebuilding_the_same_timeline_produces_the_same_file() {
    let m = "/lib/t/p/c.MP4";
    let s = seg(m, "hl", 30, 90, 900);
    let source = src(m, "c.MP4", 900, true);
    let once = timeline_xml(
        "reel: t",
        "/lib/t",
        &Profile::default(),
        None,
        std::slice::from_ref(&source),
        std::slice::from_ref(&s),
    );
    let twice = timeline_xml("reel: t", "/lib/t", &Profile::default(), None, &[source], &[s]);
    assert_eq!(once, twice);
    let other = timeline_xml("reel: other", "/lib/o", &Profile::default(), None, &[], &[]);
    assert_ne!(once, other);
}

#[test]
fn the_project_never_claims_a_profile_name_kdenlive_cannot_resolve() {
    let m = "/lib/party/jaeho/dji/DJI_0004.MP4";
    let drone = Profile {
        width: 3840,
        height: 2160,
        fps_num: 24000,
        fps_den: 1001,
        sar_num: 1,
        sar_den: 1,
    };
    // 1.0 s .. 3.0 s at 24000/1001: frames 24 .. 72
    let s = seg(m, "hl", 24, 72, 5000);
    let xml = timeline_xml("reel: party", "/lib/party", &drone, None, &[src(m, "DJI_0004.MP4", 5000, true)], &[s]);
    assert!(!xml.contains("docproperties.profile"), "never write a profile identifier that may not resolve");
    assert!(xml.contains(r#"frame_rate_num="24000" frame_rate_den="1001""#), "the real rate, unrounded");
    assert!(xml.contains(r#"width="3840" height="2160""#));
}

#[test]
fn a_proxy_is_only_referenced_when_it_actually_exists() {
    let m = "/lib/t/jaeho/dji/clip.MP4";
    let s = seg(m, "hl", 30, 90, 900);
    let bare = src(m, "clip.MP4", 900, true);
    let xml = timeline_xml(
        "reel: t",
        "/lib/t",
        &Profile::default(),
        None,
        std::slice::from_ref(&bare),
        std::slice::from_ref(&s),
    );
    assert!(!xml.contains("kdenlive:proxy"), "no proxy property without a proxy");
    assert!(!xml.contains("kdenlive:originalurl"), "and no originalurl either");
    assert!(xml.contains(r#"name="resource">/lib/t/jaeho/dji/clip.MP4"#), "resource is the master");
    assert!(xml.contains(r#"kdenlive:docproperties.enableproxy">0"#), "proxies off when there are none");

    let proxied = reel_core::timeline::Source {
        proxy: Some("/lib/t/.proxies/jaeho__dji__clip.mp4".to_string()),
        ..bare
    };
    let xml = timeline_xml("reel: t", "/lib/t", &Profile::default(), None, &[proxied], &[s]);
    assert!(xml.contains(r#"name="resource">/lib/t/.proxies/jaeho__dji__clip.mp4"#));
    assert!(xml.contains(r#"kdenlive:originalurl">/lib/t/jaeho/dji/clip.MP4"#));
    assert!(xml.contains(r#"kdenlive:docproperties.enableproxy">1"#));
}

#[test]
fn only_footage_kdenlive_cannot_open_gets_its_rate_conformed() {
    let stock = mlt_stock();
    let portrait = Profile {
        width: 1080,
        height: 1920,
        fps_num: 24000,
        fps_den: 1001,
        sar_num: 1,
        sar_den: 1,
    };
    let (got, id, conformed) = conform(&portrait, &stock);
    assert!(conformed, "portrait 23.98 has to be conformed or it won't open");
    assert_eq!((got.fps_num, got.fps_den), (24, 1), "nearest whole rate, not 25 or 30");
    assert_eq!((got.width, got.height), (1080, 1920), "geometry is never touched");
    assert!(id.is_none(), "still no stock profile — but an integer rate opens clean");

    let uhd = Profile { width: 3840, height: 2160, ..portrait.clone() };
    let (got, id, conformed) = conform(&uhd, &stock);
    assert!(!conformed, "never conform footage Kdenlive already understands");
    assert_eq!((got.fps_num, got.fps_den), (24000, 1001), "left frame-exact");
    assert_eq!(id.as_deref(), Some("uhd_2160p_2398"));

    let odd = Profile {
        width: 640,
        height: 480,
        fps_num: 30,
        fps_den: 1,
        sar_num: 1,
        sar_den: 1,
    };
    let (got, _, conformed) = conform(&odd, &stock);
    assert!(!conformed);
    assert_eq!((got.fps_num, got.fps_den), (30, 1));
}

#[test]
fn a_record_is_one_parseable_line_however_ugly_the_message() {
    let line = record(
        0,
        Level::Error,
        "ui",
        "boom \"quoted\"\nand a second line",
        Some(r#"{"trip":"ha-giang"}"#),
    );
    assert!(!line.contains('\n'), "a raw newline would split the record");
    let v: serde_json::Value = serde_json::from_str(&line).expect("valid JSON");
    assert_eq!(v["lvl"], "error");
    assert_eq!(v["src"], "ui");
    assert_eq!(v["msg"], "boom \"quoted\"\nand a second line");
    assert_eq!(v["ctx"]["trip"], "ha-giang");
    assert_eq!(v["at"], "1970-01-01T00:00:00Z");
}

#[test]
fn share_cache_round_trips_and_scrubs() {
    let shares = [
        TripShare {
            id: "42".into(),
            user: "alice".into(),
            display_name: "Alice\tA".into(),
            permissions: 15,
        },
        TripShare {
            id: "9".into(),
            user: "bob".into(),
            display_name: "Bob".into(),
            permissions: 15,
        },
    ];
    let rows: Vec<(String, String, String)> = shares.iter().map(share_row).collect();
    let text = share_cache_text(1_700_000_000, &rows);
    assert_eq!(cached_count(&text), 2);
    let back = parse_share_rows(&text);
    assert_eq!(back.iter().find(|r| r.0 == "42").unwrap().2, "Alice A");
    // Pruning to empty leaves a valid (header-only) cache: shared with nobody now.
    assert_eq!(cached_count(&share_cache_text(1_700_000_000, &[])), 0);
}

#[test]
fn parses_sharees_dedups_and_drops_self() {
    // exact matches first, then the rest, as the search returns them
    let cands = vec![
        (Some("alice".to_string()), Some("Alice".to_string())),
        (Some("alice".to_string()), Some("Alice A".to_string())),
        (Some("jaeho".to_string()), Some("Me".to_string())),
        (Some("bob".to_string()), Some("Bob".to_string())),
    ];
    let out = sharees(&cands, Some("jaeho"));
    let users: Vec<&str> = out.iter().map(|s| s.user.as_str()).collect();
    assert_eq!(users, ["alice", "bob"]); // exact first, alice de-duped, self dropped
}

#[test]
fn rename_refuses_bad_targets() {
    assert!(rename_check("a", "b", true, true).is_err(), "won't clobber an existing trip — that's a merge");
    assert!(rename_check("ghost", "x", false, false).is_err(), "no such source trip");
    assert!(rename_check("a", "../escape", true, false).is_err(), "a path-y name is rejected");
}

#[test]
fn store_roundtrips() {
    let mut f = FileSet::new();
    f.insert("jaeho/dji/A.MP4", 100);
    f.insert("alice/gopro/B.MP4", 200);
    let back = FileSet::parse(&f.to_tsv());
    assert_eq!(back.get("jaeho/dji/A.MP4"), Some(100));
    assert_eq!(back.get("alice/gopro/B.MP4"), Some(200));

    let mut q = Pending::new();
    q.push(1, PendingOp::Purge { trip: "bali".into() });
    q.push(2, PendingOp::Move { from: "a".into(), to: "b".into(), rel: "jaeho/dji/A.MP4".into() });
    // a duplicate op isn't queued twice
    q.push(3, PendingOp::Move { from: "a".into(), to: "b".into(), rel: "jaeho/dji/A.MP4".into() });
    let back = Pending::parse(&q.to_tsv());
    assert_eq!(back.rows.len(), 2);
    assert_eq!(back.count_for("b"), 1);
    assert_eq!(back.count_for("bali"), 1);
}

#[test]
fn restore_refuses_to_climb_out_of_the_trip() {
    for bad in ["../../.ssh/id_rsa", "/etc/passwd", "jaeho/../../escape.MP4", ""] {
        assert_eq!(first_unsafe(&[bad.to_string()]), Some(0), "{bad:?} must be refused");
    }
}
