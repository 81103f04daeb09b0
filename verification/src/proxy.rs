//! Review proxies, cached under `<trip>/.proxies/`: a webview-playable file per
//! master. A native `.LRF`/`.LRV` beside the master is remuxed (fast, no
//! re-encode); without one the master is transcoded to 720p H.264. Running ffmpeg
//! is the caller's; where the proxy goes, what ffmpeg is asked, and what a
//! failure says are decided here.
use crate::media::rel_stem_spec;
use crate::paths::{join, join_spec};
use crate::text::{chars_of, lines_of, lines_spec, push_str, trim, trim_range, views};
use vstd::prelude::*;

verus! {

/// Where a master's review proxy is cached: `<lib>/<trip>/.proxies/<stem>.mp4`.
pub open spec fn proxy_path_spec(lib: Seq<char>, trip: Seq<char>, master: Seq<char>) -> Seq<char> {
    let dir = join_spec(lib, trip);
    join_spec(join_spec(dir, ".proxies"@), rel_stem_spec(master, dir) + ".mp4"@)
}

pub fn proxy_path(lib: &str, trip: &str, master: &str) -> (p: String)
    ensures
        p@ == proxy_path_spec(lib@, trip@, master@),
{
    let dir = join(lib, trip);
    let pd = join(dir.as_str(), ".proxies");
    let mut name = crate::media::rel_stem(master, dir.as_str());
    push_str(&mut name, ".mp4");
    join(pd.as_str(), name.as_str())
}

/// What serving a proxy for a clip does: refuse one outside the allowed roots,
/// show a photo as itself, or build (or reuse) a proxy.
#[derive(Clone, Copy, Debug, PartialEq, Eq, Structural)]
pub enum ProxyPlan {
    Outside,
    AsIs,
    Build,
}

pub fn proxy_plan(inside: bool, photo: bool) -> (p: ProxyPlan)
    ensures
        !inside ==> p == ProxyPlan::Outside,
        inside && photo ==> p == ProxyPlan::AsIs,
        inside && !photo ==> p == ProxyPlan::Build,
{
    if !inside {
        ProxyPlan::Outside
    } else if photo {
        ProxyPlan::AsIs
    } else {
        ProxyPlan::Build
    }
}

/// The ffmpeg arguments that build a proxy from `source` into `tmp`: only the
/// primary video and any audio, then a plain remux of a native proxy, or a 720p
/// H.264/AAC transcode of a master.
pub open spec fn proxy_args_spec(source: Seq<char>, native: bool, tmp: Seq<char>) -> Seq<Seq<char>> {
    seq!["-nostdin"@, "-hide_banner"@, "-loglevel"@, "error"@, "-y"@, "-i"@, source] + seq![
        "-map"@,
        "0:v:0"@,
        "-map"@,
        "0:a?"@,
        "-write_tmcd"@,
        "0"@,
    ] + (if native {
        seq!["-c"@, "copy"@, "-movflags"@, "+faststart"@]
    } else {
        seq![
            "-vf"@,
            "scale=w=720:h=720:force_original_aspect_ratio=decrease:force_divisible_by=2"@,
            "-c:v"@,
            "libx264"@,
            "-preset"@,
            "veryfast"@,
            "-crf"@,
            "28"@,
            "-pix_fmt"@,
            "yuv420p"@,
            "-c:a"@,
            "aac"@,
            "-b:a"@,
            "128k"@,
            "-movflags"@,
            "+faststart"@,
        ]
    }) + seq![tmp]
}

pub fn proxy_args(source: &str, native: bool, tmp: &str) -> (a: Vec<String>)
    ensures
        views(a@) == proxy_args_spec(source@, native, tmp@),
{
    let mut a: Vec<String> = Vec::new();
    a.push("-nostdin".to_string());
    a.push("-hide_banner".to_string());
    a.push("-loglevel".to_string());
    a.push("error".to_string());
    a.push("-y".to_string());
    a.push("-i".to_string());
    a.push(source.to_string());
    a.push("-map".to_string());
    a.push("0:v:0".to_string());
    a.push("-map".to_string());
    a.push("0:a?".to_string());
    a.push("-write_tmcd".to_string());
    a.push("0".to_string());
    if native {
        a.push("-c".to_string());
        a.push("copy".to_string());
        a.push("-movflags".to_string());
        a.push("+faststart".to_string());
    } else {
        a.push("-vf".to_string());
        a.push("scale=w=720:h=720:force_original_aspect_ratio=decrease:force_divisible_by=2".to_string());
        a.push("-c:v".to_string());
        a.push("libx264".to_string());
        a.push("-preset".to_string());
        a.push("veryfast".to_string());
        a.push("-crf".to_string());
        a.push("28".to_string());
        a.push("-pix_fmt".to_string());
        a.push("yuv420p".to_string());
        a.push("-c:a".to_string());
        a.push("aac".to_string());
        a.push("-b:a".to_string());
        a.push("128k".to_string());
        a.push("-movflags".to_string());
        a.push("+faststart".to_string());
    }
    a.push(tmp.to_string());
    proof {
        assert(views(a@) =~= proxy_args_spec(source@, native, tmp@));
    }
    a
}

/// What a failed build says: ffmpeg's own last line (of its trimmed error
/// output, itself trimmed) when there is one, else a generic reason.
pub open spec fn ffmpeg_error_spec(stderr: Seq<char>) -> Seq<char> {
    let ls = lines_spec(trim(stderr));
    if ls.len() > 0 && trim(ls.last()).len() > 0 {
        "ffmpeg: "@ + trim(ls.last())
    } else {
        "ffmpeg couldn't build a proxy for this clip"@
    }
}

pub fn ffmpeg_error(stderr: &str) -> (e: String)
    ensures
        e@ == ffmpeg_error_spec(stderr@),
{
    let v = chars_of(stderr);
    let t = trim_range(v.as_slice(), 0, v.len());
    proof {
        assert(v@.subrange(0, v@.len() as int) =~= stderr@);
    }
    let tc = chars_of(t.as_str());
    let ls = lines_of(tc.as_slice());
    if ls.len() > 0 {
        let lc = chars_of(ls[ls.len() - 1].as_str());
        let line = trim_range(lc.as_slice(), 0, lc.len());
        proof {
            assert(lc@.subrange(0, lc@.len() as int) =~= lc@);
        }
        if line.as_str().unicode_len() > 0 {
            let mut e = "ffmpeg: ".to_string();
            push_str(&mut e, line.as_str());
            return e;
        }
    }
    "ffmpeg couldn't build a proxy for this clip".to_string()
}

} // verus!
