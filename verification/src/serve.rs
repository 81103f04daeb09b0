//! A tiny static file server for clips, behind the loopback HTTP server.
//!
//! It scope-guards every request to the library, honours a single HTTP `Range`
//! (what a `<video>` element sends to seek), and never buffers a body: the caller
//! streams the decided byte range from the file, so memory stays bounded no matter
//! how large the master. The conventions mirror Tauri's own asset protocol (206
//! partial content, `Content-Range`, `bytes */len` on an unsatisfiable range).
//! What the filesystem says (canonical paths, the file's length) is gathered by
//! the caller and handed in.
use crate::media::{opt_str, under, under_spec};
use crate::paths::{ext_spec, extension, file_name, file_name_spec};
use crate::text::{
    chars_of, eq_ignore_ascii_case, eq_ignore_case, find_char, has_prefix, idx_of, parse_u64,
    push_str, split_spec, starts_with, trim, trim_range, u64_dec, dec, uint_text,
};
use vstd::prelude::*;

verus! {

/// A serving decision: the HTTP layer maps these onto headers and streams `send`
/// from the file itself. Streaming (rather than buffering a body) keeps memory
/// bounded *and* lets the response carry a real `Content-Length` — a `<video>`
/// needs that to treat the clip as a seekable file instead of an endless stream.
pub struct ClipResponse {
    pub status: u16,
    pub content_type: &'static str,
    pub accept_ranges: bool,
    /// `bytes start-end/total` for a 206, or `bytes */total` for a 416.
    pub content_range: Option<String>,
    /// Inclusive byte range to stream from the file, or `None` for an empty body
    /// (an error, a 416, or a zero-length file).
    pub send: Option<(u64, u64)>,
}

impl ClipResponse {
    fn err(status: u16) -> (r: ClipResponse)
        ensures
            r.status == status,
            r.content_type@ == "text/plain"@,
            !r.accept_ranges,
            r.content_range is None,
            r.send is None,
    {
        ClipResponse {
            status,
            content_type: "text/plain",
            accept_ranges: false,
            content_range: None,
            send: None,
        }
    }
}

/// The MIME type for a file extension (ASCII case ignored).
pub open spec fn mime_of_ext(e: Option<Seq<char>>) -> Seq<char> {
    match e {
        Some(x) => if eq_ignore_case(x, "mp4"@) || eq_ignore_case(x, "mov"@) || eq_ignore_case(x, "m4v"@)
            || eq_ignore_case(x, "lrf"@) || eq_ignore_case(x, "lrv"@) {
            "video/mp4"@
        } else if eq_ignore_case(x, "mkv"@) {
            "video/x-matroska"@
        } else if eq_ignore_case(x, "webm"@) {
            "video/webm"@
        } else if eq_ignore_case(x, "jpg"@) || eq_ignore_case(x, "jpeg"@) {
            "image/jpeg"@
        } else if eq_ignore_case(x, "png"@) {
            "image/png"@
        } else {
            "application/octet-stream"@
        },
        None => "application/octet-stream"@,
    }
}

pub open spec fn mime_spec(path: Seq<char>) -> Seq<char> {
    mime_of_ext(ext_spec(file_name_spec(path)))
}

/// MIME by extension. `.lrf`/`.lrv` are H.264 in mp4-ish containers, so they're
/// forced to `video/mp4` — that's the whole trick that lets the webview play a
/// camera's native proxy despite its odd extension.
pub fn mime_for(path: &str) -> (m: &'static str)
    ensures
        m@ == mime_spec(path@),
{
    let name = file_name(path);
    let nc = chars_of(name.as_str());
    match extension(nc.as_slice()) {
        Some(e) => {
            let x = chars_of(e.as_str());
            let xs = x.as_slice();
            if eq_ignore_ascii_case(xs, "mp4") || eq_ignore_ascii_case(xs, "mov") || eq_ignore_ascii_case(
                xs,
                "m4v",
            ) || eq_ignore_ascii_case(xs, "lrf") || eq_ignore_ascii_case(xs, "lrv") {
                "video/mp4"
            } else if eq_ignore_ascii_case(xs, "mkv") {
                "video/x-matroska"
            } else if eq_ignore_ascii_case(xs, "webm") {
                "video/webm"
            } else if eq_ignore_ascii_case(xs, "jpg") || eq_ignore_ascii_case(xs, "jpeg") {
                "image/jpeg"
            } else if eq_ignore_ascii_case(xs, "png") {
                "image/png"
            } else {
                "application/octet-stream"
            }
        },
        None => "application/octet-stream",
    }
}

pub open spec fn sat_sub(a: int, b: int) -> u64 {
    if a >= b { (a - b) as u64 } else { 0 }
}

/// A number as `str::parse::<u64>` reads it, `None` when it does not or it is
/// too large.
pub open spec fn u64_text(s: Seq<char>) -> Option<u64> {
    match uint_text(s) {
        Some(v) => if v <= u64::MAX { Some(v as u64) } else { None },
        None => None,
    }
}

/// The first range of a `Range: bytes=…` header as inclusive `(start, end)`:
/// `a-b`, `a-` (to the end) or `-n` (the last `n` bytes); `None` when malformed.
pub open spec fn range_spec(header: Seq<char>, len: u64) -> Option<(u64, u64)> {
    let h = trim(header);
    if !has_prefix(h, "bytes="@) {
        None
    } else {
        let all = h.skip("bytes="@.len() as int);
        let first = trim(split_spec(all, ',')[0]);
        let i = idx_of(first, '-');
        if i >= first.len() {
            None
        } else {
            let a = first.take(i);
            let b = first.skip(i + 1);
            if a.len() == 0 {
                match u64_text(trim(b)) {
                    Some(n) => if n == 0 {
                        None
                    } else {
                        Some((sat_sub(len as int, n as int), sat_sub(len as int, 1)))
                    },
                    None => None,
                }
            } else {
                match u64_text(trim(a)) {
                    Some(start) => {
                        let end = if trim(b).len() == 0 {
                            Some(sat_sub(len as int, 1))
                        } else {
                            u64_text(trim(b))
                        };
                        match end {
                            Some(e) => if e < start { None } else { Some((start, e)) },
                            None => None,
                        }
                    },
                    None => None,
                }
            }
        }
    }
}

/// A suffix range `bytes=-n` asks for the last `n` bytes: for `0 < n <= len` it
/// is the inclusive range from `len - n` to the last byte.
pub proof fn lemma_suffix_range(n: u64, len: u64)
    requires
        0 < n <= len,
    ensures
        range_spec("bytes=-"@ + dec(n as nat), len) == Some(((len - n) as u64, (len - 1) as u64)),
{
    reveal_strlit("bytes=-");
    reveal_strlit("bytes=");
    let d = dec(n as nat);
    crate::text::lemma_dec_reads_back(n as nat);
    let h = "bytes=-"@ + d;
    assert(h[0] == 'b');
    assert(h.last() == d.last());
    crate::text::lemma_trim_plain(h);
    assert(has_prefix(h, "bytes="@)) by {
        assert(h.take(6) =~= "bytes="@);
    }
    let all = h.skip(6);
    assert(all =~= seq!['-'] + d);
    assert(crate::text::free_of(all, ',')) by {
        assert forall|i: int| 0 <= i < all.len() implies all[i] != ',' by {
            if i > 0 {
                assert(all[i] == d[i - 1]);
                assert(crate::text::is_digit(d[i - 1])) by {
                    assert(crate::text::all_digits(d));
                }
            }
        }
    }
    crate::text::lemma_split_join(seq![all], ',');
    assert(crate::text::join_with(seq![all], ',') == all);
    assert(split_spec(all, ',')[0] == all);
    assert(all.last() == d.last());
    crate::text::lemma_trim_plain(all);
    let first = trim(split_spec(all, ',')[0]);
    assert(first == all);
    crate::text::lemma_idx_of(first, '-', 0);
    assert(first.take(0).len() == 0);
    assert(first.skip(1) =~= d);
    assert(d[0] == d[0]);
    assert(crate::text::is_digit(d[0])) by {
        assert(crate::text::all_digits(d));
    }
    crate::text::lemma_trim_plain(d);
    assert(u64_text(d) == Some(n));
}

proof fn lemma_digits_plain(d: Seq<char>)
    requires
        d.len() > 0,
        crate::text::all_digits(d),
    ensures
        trim(d) == d,
        crate::text::free_of(d, ','),
        crate::text::free_of(d, '-'),
{
    assert(crate::text::is_digit(d[0]));
    assert(crate::text::is_digit(d[d.len() - 1]));
    crate::text::lemma_trim_plain(d);
    assert forall|i: int| 0 <= i < d.len() implies d[i] != ',' && d[i] != '-' by {
        assert(crate::text::is_digit(d[i]));
    }
}

/// An explicit range `bytes=a-b` with `a <= b` is the inclusive range from `a` to
/// `b`; with `b < a` it is malformed.
#[verifier::spinoff_prover]
#[verifier::rlimit(40)]
pub proof fn lemma_explicit_range(a: u64, b: u64, len: u64)
    ensures
        a <= b ==> range_spec("bytes="@ + dec(a as nat) + "-"@ + dec(b as nat), len) == Some((a, b)),
        b < a ==> range_spec("bytes="@ + dec(a as nat) + "-"@ + dec(b as nat), len) is None,
{
    reveal_strlit("bytes=");
    reveal_strlit("-");
    let da = dec(a as nat);
    let db = dec(b as nat);
    crate::text::lemma_dec_reads_back(a as nat);
    crate::text::lemma_dec_reads_back(b as nat);
    lemma_digits_plain(da);
    lemma_digits_plain(db);
    let h = "bytes="@ + da + "-"@ + db;
    assert(h[0] == 'b');
    assert(h.last() == db.last());
    assert(crate::text::is_digit(db[db.len() - 1]));
    crate::text::lemma_trim_plain(h);
    assert(h.take(6) =~= "bytes="@);
    let all = h.skip(6);
    assert(all =~= da + seq!['-'] + db);
    assert(crate::text::free_of(all, ',')) by {
        assert forall|i: int| 0 <= i < all.len() implies all[i] != ',' by {
            if i < da.len() {
                assert(all[i] == da[i]);
            } else if i > da.len() {
                assert(all[i] == db[i - da.len() - 1]);
            }
        }
    }
    crate::text::lemma_split_join(seq![all], ',');
    assert(crate::text::join_with(seq![all], ',') == all);
    assert(all[0] == da[0]);
    assert(crate::text::is_digit(da[0]));
    assert(all.last() == db.last());
    crate::text::lemma_trim_plain(all);
    crate::text::lemma_idx_of(all, '-', da.len() as int);
    assert(all.take(da.len() as int) =~= da);
    assert(all.skip(da.len() as int + 1) =~= db);
    assert(u64_text(da) == Some(a));
    assert(u64_text(db) == Some(b));
}

/// An open range `bytes=a-` starting inside the file runs from `a` to its last
/// byte.
#[verifier::spinoff_prover]
#[verifier::rlimit(40)]
pub proof fn lemma_open_range(a: u64, len: u64)
    requires
        a < len,
    ensures
        range_spec("bytes="@ + dec(a as nat) + "-"@, len) == Some((a, (len - 1) as u64)),
{
    reveal_strlit("bytes=");
    reveal_strlit("-");
    let da = dec(a as nat);
    crate::text::lemma_dec_reads_back(a as nat);
    lemma_digits_plain(da);
    let h2 = "bytes="@ + da + "-"@;
    assert(h2[0] == 'b');
    assert(h2.last() == '-');
    crate::text::lemma_trim_plain(h2);
    assert(h2.take(6) =~= "bytes="@);
    let all2 = h2.skip(6);
    assert(all2 =~= da + seq!['-']);
    assert(crate::text::free_of(all2, ',')) by {
        assert forall|i: int| 0 <= i < all2.len() implies all2[i] != ',' by {
            if i < da.len() {
                assert(all2[i] == da[i]);
            }
        }
    }
    crate::text::lemma_split_join(seq![all2], ',');
    assert(crate::text::join_with(seq![all2], ',') == all2);
    assert(all2[0] == da[0]);
    assert(crate::text::is_digit(da[0]));
    crate::text::lemma_trim_plain(all2);
    crate::text::lemma_idx_of(all2, '-', da.len() as int);
    assert(all2.take(da.len() as int) =~= da);
    assert(all2.skip(da.len() as int + 1) =~= Seq::<char>::empty());
    crate::text::lemma_trim_empty();
    assert(u64_text(da) == Some(a));
}

/// Asked for the last `n` bytes of a library file of `len` bytes (`0 < n <=
/// len`), the server answers 206 and streams exactly those bytes.
pub proof fn lemma_suffix_served(n: u64, len: u64, mime: Seq<char>)
    requires
        0 < n <= len,
    ensures
        response_spec(true, Some(len), mime, range_spec("bytes=-"@ + dec(n as nat), len)).0 == 206,
        response_spec(true, Some(len), mime, range_spec("bytes=-"@ + dec(n as nat), len)).4
            == Some(((len - n) as u64, (len - 1) as u64)),
{
    lemma_suffix_range(n, len);
}

/// Parse the first range of a `Range: bytes=…` header into inclusive `(start,
/// end)`. Supports `a-b`, `a-`, and `-suffix`; `None` on malformed input.
pub fn parse_range(header: &str, len: u64) -> (r: Option<(u64, u64)>)
    ensures
        r == range_spec(header@, len),
{
    let hc = chars_of(header);
    let h = trim_range(hc.as_slice(), 0, hc.len());
    proof {
        assert(hc@.subrange(0, hc@.len() as int) =~= header@);
    }
    let v = chars_of(h.as_str());
    if !starts_with(v.as_slice(), "bytes=") {
        return None;
    }
    let p = "bytes=".unicode_len();
    let n = v.len();
    let ghost all = v@.skip(p as int);
    // The first comma-separated range.
    let comma_rel = find_char_from(v.as_slice(), p, ',');
    proof {
        crate::text::lemma_idx_of_bounds(all, ',');
        lemma_first_piece(all, ',');
        assert(v@.subrange(p as int, comma_rel as int) =~= all.take(idx_of(all, ',')));
    }
    let first = trim_range(v.as_slice(), p, comma_rel);
    let f = chars_of(first.as_str());
    let dash = find_char(f.as_slice(), '-');
    if dash >= f.len() {
        return None;
    }
    let fl = f.len();
    let b = trim_range(f.as_slice(), dash + 1, fl);
    proof {
        assert(f@.subrange(dash + 1, fl as int) =~= f@.skip(dash + 1));
        assert(f@.subrange(0, dash as int) =~= f@.take(dash as int));
    }
    if dash == 0 {
        // A suffix range: the last N bytes.
        return match parse_u64(b.as_str()) {
            Some(k) => if k == 0 {
                None
            } else {
                Some((if len >= k { len - k } else { 0 }, if len >= 1 { len - 1 } else { 0 }))
            },
            None => None,
        };
    }
    let a = trim_range(f.as_slice(), 0, dash);
    let start = match parse_u64(a.as_str()) {
        Some(s) => s,
        None => {
            return None;
        },
    };
    let bc = chars_of(b.as_str());
    let end = if bc.len() == 0 {
        if len >= 1 { len - 1 } else { 0 }
    } else {
        match parse_u64(b.as_str()) {
            Some(e) => e,
            None => {
                return None;
            },
        }
    };
    if end < start {
        return None;
    }
    Some((start, end))
}

/// The index of the first `c` in `v` at or after `from`, or `v.len()`.
fn find_char_from(v: &[char], from: usize, c: char) -> (i: usize)
    requires
        from <= v@.len(),
    ensures
        i == from + idx_of(v@.skip(from as int), c),
        from <= i <= v@.len(),
{
    let mut i = from;
    while i < v.len() && v[i] != c
        invariant
            from <= i <= v@.len(),
            forall|k: int| from <= k < i ==> v@[k] != c,
        decreases v@.len() - i,
    {
        i = i + 1;
    }
    proof {
        let t = v@.skip(from as int);
        assert forall|k: int| 0 <= k < i - from implies t[k] != c by {
            assert(t[k] == v@[from + k]);
        }
        crate::text::lemma_idx_of(t, c, i - from);
    }
    i
}

proof fn lemma_first_piece(s: Seq<char>, c: char)
    ensures
        split_spec(s, c)[0] == s.take(idx_of(s, c)),
{
    crate::text::lemma_idx_of_bounds(s, c);
    if idx_of(s, c) >= s.len() {
        assert(s.take(s.len() as int) =~= s);
    }
}

/// What a request for a clip is answered: 403 outside the library, 404 when the
/// file is missing (`len` is `None`), 200 with an empty body for an empty file,
/// 416 when the range starts past the end, 206 for a range (its end clamped to
/// the file's), and 200 with the whole file otherwise.
pub open spec fn response_spec(
    inside: bool,
    len: Option<u64>,
    mime: Seq<char>,
    range: Option<(u64, u64)>,
) -> (u16, Seq<char>, bool, Option<Seq<char>>, Option<(u64, u64)>) {
    if !inside {
        (403, "text/plain"@, false, None, None)
    } else {
        match len {
            None => (404, "text/plain"@, false, None, None),
            Some(n) => if n == 0 {
                (200, mime, true, None, None)
            } else {
                match range {
                    Some((start, end_req)) => if start >= n {
                        (416, mime, true, Some("bytes */"@ + dec(n as nat)), None)
                    } else {
                        let end = if end_req < n - 1 { end_req } else { (n - 1) as u64 };
                        (
                            206,
                            mime,
                            true,
                            Some("bytes "@ + dec(start as nat) + "-"@ + dec(end as nat) + "/"@ + dec(
                                n as nat,
                            )),
                            Some((start, end)),
                        )
                    },
                    None => (200, mime, true, None, Some((0, (n - 1) as u64))),
                }
            },
        }
    }
}

pub open spec fn response_view(r: ClipResponse) -> (u16, Seq<char>, bool, Option<Seq<char>>, Option<(u64, u64)>) {
    (
        r.status,
        r.content_type@,
        r.accept_ranges,
        match r.content_range {
            Some(s) => Some(s@),
            None => None,
        },
        r.send,
    )
}

/// Decide how to serve `target` (confined to `lib`), honouring an optional
/// `Range`. `target_canon` and `lib_canon` are the canonical paths (`None` when
/// canonicalizing failed), `file_len` the target's length when it is a file.
/// No bytes are read here — the caller streams `send` straight from the file.
pub fn serve_clip(
    lib: &str,
    target: &str,
    range: Option<&str>,
    target_canon: Option<&str>,
    lib_canon: Option<&str>,
    file_len: Option<u64>,
) -> (r: ClipResponse)
    ensures
        response_view(r) == response_spec(
            under_spec(target@, lib@, opt_str(target_canon), opt_str(lib_canon)),
            file_len,
            mime_spec(target@),
            match (range, file_len) {
                (Some(h), Some(n)) => range_spec(h@, n),
                _ => None,
            },
        ),
{
    if !under(target, lib, target_canon, lib_canon) {
        return ClipResponse::err(403);
    }
    let len = match file_len {
        Some(n) => n,
        None => {
            return ClipResponse::err(404);
        },
    };
    let ct = mime_for(target);
    // Empty file: nothing to range over.
    if len == 0 {
        return ClipResponse {
            status: 200,
            content_type: ct,
            accept_ranges: true,
            content_range: None,
            send: None,
        };
    }
    let parsed = match range {
        Some(h) => parse_range(h, len),
        None => None,
    };
    match parsed {
        Some((start, end_req)) => {
            if start >= len {
                // Unsatisfiable range (start past EOF).
                let mut cr = String::new();
                push_str(&mut cr, "bytes */");
                push_str(&mut cr, u64_dec(len).as_str());
                ClipResponse {
                    status: 416,
                    content_type: ct,
                    accept_ranges: true,
                    content_range: Some(cr),
                    send: None,
                }
            } else {
                // A partial range: exactly what was asked for, clamped to EOF.
                let end = if end_req < len - 1 { end_req } else { len - 1 };
                let mut cr = String::new();
                push_str(&mut cr, "bytes ");
                push_str(&mut cr, u64_dec(start).as_str());
                push_str(&mut cr, "-");
                push_str(&mut cr, u64_dec(end).as_str());
                push_str(&mut cr, "/");
                push_str(&mut cr, u64_dec(len).as_str());
                ClipResponse {
                    status: 206,
                    content_type: ct,
                    accept_ranges: true,
                    content_range: Some(cr),
                    send: Some((start, end)),
                }
            }
        },
        // No (or unparseable) range: the whole file, carrying a real
        // Content-Length so the player can seek.
        None => ClipResponse {
            status: 200,
            content_type: ct,
            accept_ranges: true,
            content_range: None,
            send: Some((0, len - 1)),
        },
    }
}

} // verus!

verus! {

/// A parsed range never ends before it starts.
pub proof fn lemma_range_ordered(header: Seq<char>, len: u64)
    ensures
        range_spec(header, len) matches Some((s, e)) ==> s <= e,
{
}

/// The server only ever streams bytes of a file inside the library, and only
/// bytes that the file has: whatever was asked, a body is a non-empty inclusive
/// range within the file's length.
pub proof fn lemma_serve_confined(
    inside: bool,
    len: Option<u64>,
    mime: Seq<char>,
    header: Option<Seq<char>>,
)
    ensures
        ({
            let range = match (header, len) {
                (Some(h), Some(n)) => range_spec(h, n),
                _ => None,
            };
            let r = response_spec(inside, len, mime, range);
            r.4 matches Some((s, e)) ==> (inside && (len matches Some(n) && s <= e < n))
        }),
{
    if let (Some(h), Some(n)) = (header, len) {
        lemma_range_ordered(h, n);
    }
}


/// The value of one hex digit (`0-9`, `a-f`, `A-F`), if it is one.
pub open spec fn hex_val(c: u8) -> Option<u8> {
    if 48 <= c <= 57 {
        Some((c - 48) as u8)
    } else if 97 <= c <= 102 {
        Some((c - 87) as u8)
    } else if 65 <= c <= 70 {
        Some((c - 55) as u8)
    } else {
        None
    }
}

/// A URL path with each `%XX` escape turned into its byte; a `%` not followed by
/// two hex digits stays as it is.
pub open spec fn decoded(s: Seq<u8>) -> Seq<u8>
    decreases s.len(),
{
    if s.len() == 0 {
        Seq::empty()
    } else if s.len() >= 3 && s[0] == 37 && hex_val(s[1]) is Some && hex_val(s[2]) is Some {
        seq![(hex_val(s[1]).unwrap() * 16 + hex_val(s[2]).unwrap()) as u8] + decoded(s.skip(3))
    } else {
        seq![s[0]] + decoded(s.skip(1))
    }
}

fn hex_digit(c: u8) -> (r: Option<u8>)
    ensures
        r == hex_val(c),
        r matches Some(v) ==> v < 16,
{
    if 48 <= c && c <= 57 {
        Some(c - 48)
    } else if 97 <= c && c <= 102 {
        Some(c - 87)
    } else if 65 <= c && c <= 70 {
        Some(c - 55)
    } else {
        None
    }
}

/// Decode the percent escapes of a request path's bytes.
pub fn percent_decode(b: &[u8]) -> (out: Vec<u8>)
    ensures
        out@ == decoded(b@),
{
    let mut out: Vec<u8> = Vec::new();
    let mut i: usize = 0;
    proof {
        assert(b@.skip(0) =~= b@);
        assert(out@ + decoded(b@) =~= decoded(b@));
    }
    while i < b.len()
        invariant
            i <= b@.len(),
            out@ + decoded(b@.skip(i as int)) == decoded(b@),
        decreases b@.len() - i,
    {
        let ghost rest = b@.skip(i as int);
        if b[i] == 37 && b.len() - i > 2 {
            match (hex_digit(b[i + 1]), hex_digit(b[i + 2])) {
                (Some(h), Some(l)) => {
                    proof {
                        assert(rest[0] == b@[i as int] && rest[1] == b@[i + 1] && rest[2] == b@[i + 2]);
                        assert(rest.skip(3) =~= b@.skip(i + 3));
                        assert(out@.push((h * 16 + l) as u8) + decoded(b@.skip(i + 3)) =~= out@ + decoded(rest));
                    }
                    out.push(h * 16 + l);
                    i = i + 3;
                    continue;
                },
                _ => {},
            }
        }
        proof {
            assert(rest[0] == b@[i as int]);
            assert(rest.skip(1) =~= b@.skip(i + 1));
            assert(rest.len() < 3 || rest[0] != 37 || hex_val(rest[1]) is None || hex_val(rest[2]) is None);
            assert(out@.push(b@[i as int]) + decoded(b@.skip(i + 1)) =~= out@ + decoded(rest));
        }
        out.push(b[i]);
        i = i + 1;
    }
    proof {
        assert(b@.skip(i as int) =~= Seq::<u8>::empty());
    }
    out
}

} // verus!
