//! Poster-frame thumbnails, cached by content id, so a clip is decoded once — and
//! a clip on a card shares its poster with the same clip after import, since the
//! id is content-addressed. Extracting the frame (ffmpeg) is the caller's part;
//! this names the cache file and turns its bytes into an inline image.
use crate::config::Config;
use crate::paths::{join, join_spec};
use crate::text::push_str;
use vstd::prelude::*;

verus! {

/// Cache path for a clip's poster, keyed by its stable content id.
pub fn poster_path(cfg: &Config, fileid: &str) -> (p: String)
    ensures
        p@ == join_spec(join_spec(cfg.cache_dir@, "thumbs"@), fileid@ + ".jpg"@),
{
    let dir = join(cfg.cache_dir.as_str(), "thumbs");
    let mut name = fileid.to_string();
    push_str(&mut name, ".jpg");
    join(dir.as_str(), name.as_str())
}

/// The standard base64 alphabet.
pub open spec fn b64_char(v: u8) -> char {
    if v < 26 {
        ((v + 65) as u8) as char
    } else if v < 52 {
        ((v + 71) as u8) as char
    } else if v < 62 {
        ((v - 4) as u8) as char
    } else if v == 62 {
        '+'
    } else {
        '/'
    }
}

fn b64_digit(v: u8) -> (c: char)
    requires
        v < 64,
    ensures
        c == b64_char(v),
{
    if v < 26 {
        (v + 65) as char
    } else if v < 52 {
        (v + 71) as char
    } else if v < 62 {
        (v - 4) as char
    } else if v == 62 {
        '+'
    } else {
        '/'
    }
}

/// One group of one to three bytes as four base64 characters, `=`-padded.
pub open spec fn b64_group(g: Seq<u8>) -> Seq<char> {
    let b1 = g[0];
    let b2: u8 = if g.len() > 1 { g[1] } else { 0 };
    let b3: u8 = if g.len() > 2 { g[2] } else { 0 };
    seq![
        b64_char(b1 / 4),
        b64_char(((b1 % 4) * 16 + b2 / 16) as u8),
        if g.len() > 1 { b64_char(((b2 % 16) * 4 + b3 / 64) as u8) } else { '=' },
        if g.len() > 2 { b64_char(b3 % 64) } else { '=' },
    ]
}

/// Standard base64 without line breaks: the bytes in groups of three.
pub open spec fn base64_spec(d: Seq<u8>) -> Seq<char>
    decreases d.len(),
{
    if d.len() == 0 {
        Seq::empty()
    } else if d.len() <= 3 {
        b64_group(d)
    } else {
        b64_group(d.take(3)) + base64_spec(d.skip(3))
    }
}

/// Minimal standard base64 (no line breaks) — a tiny need not worth a dependency.
pub fn base64(data: &[u8]) -> (s: String)
    ensures
        s@ == base64_spec(data@),
{
    let n = data.len();
    let mut s = String::new();
    let mut i: usize = 0;
    proof {
        assert(data@.skip(0) =~= data@);
        assert(s@ + base64_spec(data@) =~= base64_spec(data@));
    }
    while i < n
        invariant
            n == data@.len(),
            i <= n,
            s@ + base64_spec(data@.skip(i as int)) == base64_spec(data@),
        decreases n - i,
    {
        let rest = n - i;
        let b1 = data[i];
        let b2: u8 = if rest > 1 { data[i + 1] } else { 0 };
        let b3: u8 = if rest > 2 { data[i + 2] } else { 0 };
        let ghost tail = data@.skip(i as int);
        let ghost g = if rest <= 3 { tail } else { tail.take(3) };
        proof {
            assert(g[0] == b1);
            if rest > 1 {
                assert(g[1] == b2);
            }
            if rest > 2 {
                assert(g[2] == b3);
            }
            if rest > 3 {
                assert(tail.skip(3) =~= data@.skip(i + 3));
            }
        }
        let ghost before = s@;
        s.push(b64_digit(b1 / 4));
        s.push(b64_digit((b1 % 4) * 16 + b2 / 16));
        s.push(if rest > 1 { b64_digit((b2 % 16) * 4 + b3 / 64) } else { '=' });
        s.push(if rest > 2 { b64_digit(b3 % 64) } else { '=' });
        proof {
            assert(s@ =~= before + b64_group(g));
        }
        if rest <= 3 {
            i = n;
            proof {
                assert(data@.skip(i as int) =~= Seq::<u8>::empty());
            }
        } else {
            i = i + 3;
        }
    }
    proof {
        assert(data@.skip(n as int) =~= Seq::<u8>::empty());
    }
    s
}

/// A JPEG's bytes as a `data:image/jpeg;base64,…` URI the webview can show inline.
pub fn jpeg_data_uri(bytes: &[u8]) -> (uri: String)
    ensures
        uri@ == "data:image/jpeg;base64,"@ + base64_spec(bytes@),
{
    let mut uri = String::new();
    push_str(&mut uri, "data:image/jpeg;base64,");
    push_str(&mut uri, base64(bytes).as_str());
    uri
}

} // verus!

verus! {

/// The ffmpeg arguments that grab one poster frame of `clip` into `out`, seeking
/// `seek` seconds in (`1` first, to skip black leader frames; `0` for a clip
/// shorter than that): scaled to 512 wide, as a JPEG.
pub open spec fn poster_args_spec(seek: Seq<char>, clip: Seq<char>, out: Seq<char>) -> Seq<Seq<char>> {
    seq![
        "-y"@,
        "-loglevel"@,
        "error"@,
        "-ss"@,
        seek,
        "-i"@,
        clip,
        "-frames:v"@,
        "1"@,
        "-vf"@,
        "scale=512:-2"@,
        "-pix_fmt"@,
        "yuvj420p"@,
        "-q:v"@,
        "3"@,
        out,
    ]
}

pub fn poster_args(seek: &str, clip: &str, out: &str) -> (a: Vec<String>)
    ensures
        crate::text::views(a@) == poster_args_spec(seek@, clip@, out@),
{
    let mut a: Vec<String> = Vec::new();
    a.push("-y".to_string());
    a.push("-loglevel".to_string());
    a.push("error".to_string());
    a.push("-ss".to_string());
    a.push(seek.to_string());
    a.push("-i".to_string());
    a.push(clip.to_string());
    a.push("-frames:v".to_string());
    a.push("1".to_string());
    a.push("-vf".to_string());
    a.push("scale=512:-2".to_string());
    a.push("-pix_fmt".to_string());
    a.push("yuvj420p".to_string());
    a.push("-q:v".to_string());
    a.push("3".to_string());
    a.push(out.to_string());
    proof {
        assert(crate::text::views(a@) =~= poster_args_spec(seek@, clip@, out@));
    }
    a
}

} // verus!
