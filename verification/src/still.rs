//! Stills: a frame grabbed from a master and kept as an ordinary photo capture,
//! beside its source in the same `<trip>/<person>/<camera>/` folder. Decoding the
//! frame is the caller's part; this names the file and files it on the ledger.
use crate::ledger::LedgerRow;
use crate::media::{parent, parent_spec};
use crate::paths::{component_strings, component_strs, join_spec, strip_dir, strip_dir_spec, file_name, file_name_spec, stem, stem_spec};
use crate::text::{chars_of, i64_dec, join_with, push_joined, push_str, dec_i};
use vstd::prelude::*;

verus! {

/// `<trip>/<person>/<camera…>/<base>` → the ledger's trip / person / camera
/// fields. Levels below the person are joined rather than truncated, so a friend's
/// deeper tree rides along intact; a stray at the trip root has neither owner nor
/// camera.
pub open spec fn place_spec(rel: Seq<char>) -> Option<(Seq<char>, Seq<char>, Seq<char>)> {
    let c = component_strs(rel);
    if c.len() <= 1 {
        None
    } else if c.len() == 2 {
        Some((c[0], Seq::empty(), Seq::empty()))
    } else {
        Some((c[0], c[1], join_with(c.subrange(2, c.len() - 1), '/')))
    }
}

pub fn ledger_place(rel: &str) -> (r: Option<(String, String, String)>)
    ensures
        match r {
            Some((t, p, c)) => place_spec(rel@) == Some((t@, p@, c@)),
            None => place_spec(rel@) is None,
        },
{
    let c = component_strings(rel);
    let ghost cv = c@.map_values(|s: String| s@);
    let n = c.len();
    if n <= 1 {
        return None;
    }
    if n == 2 {
        return Some((c[0].clone(), String::new(), String::new()));
    }
    let mut mid: Vec<String> = Vec::new();
    let mut i: usize = 2;
    while i < n - 1
        invariant
            2 <= i <= n - 1,
            n == c@.len(),
            cv == c@.map_values(|s: String| s@),
            mid@.map_values(|s: String| s@) == cv.subrange(2, i as int),
        decreases n - 1 - i,
    {
        let ghost old_m = mid@;
        mid.push(c[i].clone());
        proof {
            assert(mid@.map_values(|s: String| s@) =~= old_m.map_values(|s: String| s@).push(cv[i as int]));
            assert(cv.subrange(2, i + 1) =~= cv.subrange(2, i as int).push(cv[i as int]));
        }
        i = i + 1;
    }
    let mut cam = String::new();
    push_joined(&mut cam, &mid, '/');
    proof {
        assert(cam@ =~= join_with(cv.subrange(2, n - 1), '/'));
    }
    Some((c[0].clone(), c[1].clone(), cam))
}

/// Where a still for `master` at `ms` milliseconds in lands: beside it, named
/// after its stem and the offset, so grabbing the same moment twice resolves to
/// the same file rather than to a second near-identical picture.
pub open spec fn still_path_spec(master: Seq<char>, ms: i64) -> Seq<char> {
    let name = file_name_spec(master);
    let st = if name.len() == 0 { "frame"@ } else { stem_spec(name) };
    join_spec(parent_spec(master), st + "_t"@ + dec_i(ms as int) + ".jpg"@)
}

pub fn still_path(master: &str, ms: i64) -> (p: String)
    ensures
        p@ == still_path_spec(master@, ms),
{
    let name = file_name(master);
    let nc = chars_of(name.as_str());
    let mut file = if nc.len() == 0 {
        "frame".to_string()
    } else {
        stem(nc.as_slice())
    };
    push_str(&mut file, "_t");
    push_str(&mut file, i64_dec(ms).as_str());
    push_str(&mut file, ".jpg");
    let dir = parent(master);
    crate::paths::join(dir.as_str(), file.as_str())
}

/// The ledger row a still grabbed into the library gets: its place under the
/// library, its content id and size, when it was captured, and when it was filed.
/// `None` when the still does not sit under `lib` at a trip level.
pub fn still_row(lib: &str, out: &str, id: &str, bytes: u64, when: i64, now: i64) -> (r: Option<LedgerRow>)
    ensures
        match r {
            Some(row) => {
                &&& strip_dir_spec(out@, lib@) matches Some(rel)
                &&& place_spec(rel) == Some((row.trip@, row.person@, row.camera@))
                &&& row.id@ == id@
                &&& row.base@ == file_name_spec(out@)
                &&& row.bytes@ == crate::text::dec(bytes as nat)
                &&& row.captured@ == dec_i(when as int)
                &&& row.imported_at@ == dec_i(now as int)
            },
            None => match strip_dir_spec(out@, lib@) {
                Some(rel) => place_spec(rel) is None,
                None => true,
            },
        },
{
    let rel = match strip_dir(out, lib) {
        Some(r) => r,
        None => {
            return None;
        },
    };
    match ledger_place(rel.as_str()) {
        Some((trip, person, camera)) => {
            let mut idc = String::new();
            push_str(&mut idc, id);
            Some(
                LedgerRow {
                    id: idc,
                    trip,
                    person,
                    camera,
                    base: file_name(out),
                    bytes: crate::text::u64_dec(bytes),
                    captured: i64_dec(when),
                    imported_at: i64_dec(now),
                },
            )
        },
        None => None,
    }
}

} // verus!

verus! {

/// What a failed grab says: ffmpeg's last line of error output, or a generic
/// reason when it printed nothing.
pub open spec fn grab_error_spec(stderr: Seq<char>) -> Seq<char> {
    let ls = crate::text::lines_spec(stderr);
    "couldn't grab that frame: "@ + if ls.len() > 0 { ls.last() } else { "ffmpeg couldn't decode that frame"@ }
}

pub fn grab_error(stderr: &str) -> (e: String)
    ensures
        e@ == grab_error_spec(stderr@),
{
    let v = crate::text::chars_of(stderr);
    let ls = crate::text::lines_of(v.as_slice());
    let mut e = "couldn't grab that frame: ".to_string();
    if ls.len() > 0 {
        push_str(&mut e, ls[ls.len() - 1].as_str());
    } else {
        push_str(&mut e, "ffmpeg couldn't decode that frame");
    }
    e
}

/// The capture time a still is filed under: its source clip's plus the offset
/// into it (saturating), so it sorts right after the footage it came from.
pub fn still_when(captured: i64, offset_secs: i64) -> (w: i64)
    ensures
        w == (if captured + offset_secs > i64::MAX {
            i64::MAX
        } else if captured + offset_secs < i64::MIN {
            i64::MIN
        } else {
            (captured + offset_secs) as i64
        }),
{
    if offset_secs > 0 && captured > i64::MAX - offset_secs {
        i64::MAX
    } else if offset_secs < 0 && captured < i64::MIN - offset_secs {
        i64::MIN
    } else {
        captured + offset_secs
    }
}

} // verus!
