//! Review: the skim playlist of a trip and the marks file's rows. The player
//! plays a cached clean proxy when there is one but marks are recorded against the
//! master, so `marks.tsv` (`master<TAB>start<TAB>end<TAB>label`, `#` and blank
//! lines ignored) stays the format the cut reads. Reading the disk and the times
//! (decimal seconds) are the caller's; the rows and the clips are built here.
use crate::ledger::Ledger;
use crate::model::ReviewClip;
use crate::text::{chars_of, idx_of, push_str, slice_string, str_eq, trim, trim_range};
use crate::wipe::{local_copy, local_copy_spec};
use vstd::prelude::*;

verus! {

/// The fields of a marks row: master, start and end (trimmed, still text), and
/// the label (everything after the third tab, possibly empty). `None` for a blank
/// or `#` line, a line without its start and end, or an empty master.
pub open spec fn mark_fields_spec(line: Seq<char>) -> Option<(Seq<char>, Seq<char>, Seq<char>, Seq<char>)> {
    if line.len() == 0 || line[0] == '#' {
        None
    } else {
        let i1 = idx_of(line, '\t');
        let r1 = line.skip(i1 + 1);
        let i2 = idx_of(r1, '\t');
        let r2 = r1.skip(i2 + 1);
        let i3 = idx_of(r2, '\t');
        if i1 >= line.len() || i1 == 0 {
            None
        } else if i2 >= r1.len() {
            // no end field
            None
        } else {
            let label = if i3 >= r2.len() { Seq::empty() } else { r2.skip(i3 + 1) };
            Some((line.take(i1), trim(r1.take(i2)), trim(r2.take(i3)), label))
        }
    }
}

pub fn mark_fields(line: &str) -> (r: Option<(String, String, String, String)>)
    ensures
        match r {
            Some((m, s, e, l)) => mark_fields_spec(line@) == Some((m@, s@, e@, l@)),
            None => mark_fields_spec(line@) is None,
        },
{
    let v = chars_of(line);
    let n = v.len();
    if n == 0 || v[0] == '#' {
        return None;
    }
    let i1 = crate::text::find_char(v.as_slice(), '\t');
    if i1 >= n || i1 == 0 {
        return None;
    }
    let r1 = slice_string(v.as_slice(), i1 + 1, n);
    let v1 = chars_of(r1.as_str());
    let i2 = crate::text::find_char(v1.as_slice(), '\t');
    proof {
        assert(v1@ =~= line@.skip(i1 + 1));
    }
    if i2 >= v1.len() {
        return None;
    }
    let r2 = slice_string(v1.as_slice(), i2 + 1, v1.len());
    let v2 = chars_of(r2.as_str());
    let i3 = crate::text::find_char(v2.as_slice(), '\t');
    proof {
        assert(v2@ =~= v1@.skip(i2 + 1));
    }
    let master = slice_string(v.as_slice(), 0, i1);
    let start = trim_range(v1.as_slice(), 0, i2);
    let end = trim_range(v2.as_slice(), 0, i3);
    let label = if i3 >= v2.len() {
        String::new()
    } else {
        slice_string(v2.as_slice(), i3 + 1, v2.len())
    };
    proof {
        assert(v@.subrange(0, i1 as int) =~= line@.take(i1 as int));
        assert(v1@.subrange(0, i2 as int) =~= v1@.take(i2 as int));
        assert(v2@.subrange(0, i3 as int) =~= v2@.take(i3 as int));
        if i3 < v2.len() {
            assert(v2@.subrange(i3 + 1, v2@.len() as int) =~= v2@.skip(i3 + 1));
        }
    }
    Some((master, start, end, label))
}

/// The content id the ledger records for the clip at `path`: the last row whose
/// place (`<lib>/<trip>/<person>/<camera>/<base>`) is that path.
pub open spec fn ledger_id_spec(lib: Seq<char>, rows: Seq<crate::ledger::LedgerRow>, path: Seq<char>) -> Option<Seq<char>>
    decreases rows.len(),
{
    if rows.len() == 0 {
        None
    } else if local_copy_spec(lib, rows.last()) == path {
        Some(rows.last().id@)
    } else {
        ledger_id_spec(lib, rows.drop_last(), path)
    }
}

pub fn ledger_id_for(lib: &str, ledger: &Ledger, path: &str) -> (r: Option<String>)
    ensures
        match r {
            Some(id) => ledger_id_spec(lib@, ledger.rows@, path@) == Some(id@),
            None => ledger_id_spec(lib@, ledger.rows@, path@) is None,
        },
{
    let ghost rows = ledger.rows@;
    proof {
        assert(rows.take(rows.len() as int) =~= rows);
    }
    let mut k: usize = ledger.rows.len();
    while k > 0
        invariant
            k <= rows.len(),
            rows == ledger.rows@,
            ledger_id_spec(lib@, rows, path@) == ledger_id_spec(lib@, rows.take(k as int), path@),
        decreases k,
    {
        proof {
            assert(rows.take(k as int).drop_last() =~= rows.take(k - 1));
            assert(rows.take(k as int).last() == rows[k - 1]);
        }
        let p = local_copy(lib, &ledger.rows[k - 1]);
        if str_eq(p.as_str(), path) {
            return Some(ledger.rows[k - 1].id.clone());
        }
        k = k - 1;
    }
    None
}

/// Facts gathered about one master of a trip under review.
pub struct ClipFacts {
    /// Its cached clean proxy under `.proxies/`, and whether that file exists.
    pub cached: String,
    pub proxied: bool,
    /// The camera's native proxy beside it, if any.
    pub native: Option<String>,
    pub bytes: u64,
    pub captured: i64,
    /// The content id: the ledger's when it has one, else the cheap stat-based id.
    pub fileid: String,
    pub photo: bool,
}

/// A card stub: a master under 512 KiB with no cached proxy never plays.
pub open spec fn stub_spec(proxied: bool, bytes: u64) -> bool {
    !proxied && bytes < 512 * 1024
}

/// One clip of the playlist: play the cached proxy when it exists, else the
/// master; pull posters from the native proxy when there is one, else what plays;
/// name it by the master's file name, and badge it with its owner.
pub fn review_clip(master: &str, person: Option<&str>, user: &str, f: ClipFacts) -> (c: ReviewClip)
    ensures
        c.master@ == master@,
        c.play@ == (if f.proxied { f.cached@ } else { master@ }),
        c.poster@ == (match f.native {
            Some(n) => n@,
            None => if f.proxied { f.cached@ } else { master@ },
        }),
        c.name@ == crate::paths::file_name_spec(master@),
        c.fileid == f.fileid,
        c.captured == f.captured,
        c.bytes == f.bytes,
        c.proxied == f.proxied,
        c.has_proxy == f.native is Some,
        c.stub == stub_spec(f.proxied, f.bytes),
        c.photo == f.photo,
        c.person@ == (match person {
            Some(p) => p@,
            None => Seq::empty(),
        }),
        c.mine == (person is Some && person.unwrap()@ == user@),
{
    let play = if f.proxied { f.cached.clone() } else { master.to_string() };
    let poster = match &f.native {
        Some(n) => n.clone(),
        None => play.clone(),
    };
    let (p, mine) = match person {
        Some(p) => (p.to_string(), str_eq(p, user)),
        None => (String::new(), false),
    };
    ReviewClip {
        master: master.to_string(),
        play,
        name: crate::paths::file_name(master),
        fileid: f.fileid,
        captured: f.captured,
        bytes: f.bytes,
        poster,
        proxied: f.proxied,
        has_proxy: f.native.is_some(),
        stub: !f.proxied && f.bytes < 512 * 1024,
        photo: f.photo,
        person: p,
        mine,
    }
}

/// Why a review of a (validly named) trip is refused, if it is.
pub open spec fn review_refusal(trip: Seq<char>, is_trip: bool, masters: nat) -> Option<Seq<char>> {
    if !is_trip {
        Some("no trip '"@ + trip + "'"@)
    } else if masters == 0 {
        Some("no footage in '"@ + trip + "' to review yet"@)
    } else {
        None
    }
}

pub fn review_check(trip: &str, is_trip: bool, masters: usize) -> (r: Result<(), String>)
    ensures
        match r {
            Ok(()) => review_refusal(trip@, is_trip, masters as nat) is None,
            Err(e) => review_refusal(trip@, is_trip, masters as nat) == Some(e@),
        },
{
    if !is_trip {
        let mut e = "no trip '".to_string();
        push_str(&mut e, trip);
        push_str(&mut e, "'");
        return Err(e);
    }
    if masters == 0 {
        let mut e = "no footage in '".to_string();
        push_str(&mut e, trip);
        push_str(&mut e, "' to review yet");
        return Err(e);
    }
    Ok(())
}

} // verus!
