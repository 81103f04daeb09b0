//! How the engine reads rclone: a destination that is a configured remote
//! (`name:path`) or a plain local path, and the JSON that rclone prints (a listing,
//! a stats record). Running rclone itself is the caller's part.
use crate::config::opt_view;
use crate::text::{chars_of, find_char, idx_of, push_str, slice_string};
use vstd::prelude::*;

verus! {

/// The remote a destination names: the text before its first `:`, when there is
/// one, it is not empty and holds no `/` (else it is a local path).
pub open spec fn remote_name_spec(remote: Seq<char>) -> Option<Seq<char>> {
    let i = idx_of(remote, ':');
    if i >= remote.len() {
        None
    } else {
        let head = remote.take(i);
        if head.len() == 0 || head.contains('/') { None } else { Some(head) }
    }
}

/// rclone reads `name:path` as a configured remote and a plain path as local.
/// Returns the remote name when there is one; `None` for a local-path cloud,
/// which is always reachable.
pub fn remote_name(remote: &str) -> (r: Option<String>)
    ensures
        match r {
            Some(n) => remote_name_spec(remote@) == Some(n@),
            None => remote_name_spec(remote@) is None,
        },
{
    let v = chars_of(remote);
    let i = find_char(v.as_slice(), ':');
    if i >= v.len() {
        return None;
    }
    let slash = find_char(v.as_slice(), '/');
    let ghost head = remote@.take(i as int);
    proof {
        crate::text::lemma_idx_of_bounds(remote@, '/');
        if head.contains('/') {
            let k = choose|k: int| 0 <= k < head.len() && head[k] == '/';
            assert(remote@[k] == '/');
        }
        if slash < i {
            assert(head[slash as int] == '/');
        }
    }
    if i == 0 || slash < i {
        None
    } else {
        proof {
            assert(v@.subrange(0, i as int) =~= head);
        }
        Some(slice_string(v.as_slice(), 0, i))
    }
}

/// What `serde_json::from_slice` reads from the output of `rclone lsjson`: for
/// each element of the JSON array, its `Path` where that is a string and its
/// `Size` where that is an unsigned integer; or the parser's message.
pub uninterp spec fn listing_of(json: Seq<u8>) -> Result<Seq<(Option<Seq<char>>, Option<u64>)>, Seq<char>>;

/// The entries as `listing_of` speaks of them.
pub open spec fn entries_view(v: Seq<(Option<String>, Option<u64>)>) -> Seq<(Option<Seq<char>>, Option<u64>)> {
    v.map_values(|e: (Option<String>, Option<u64>)| (opt_view(e.0), e.1))
}

/// Parses rclone's listing with `serde_json::from_slice` into an array of JSON
/// values and takes from each its `Path` string and its `Size` number. The
/// contract claims only that the result is `listing_of` the bytes; the parser's
/// message is serde_json's own text.
#[verifier::external_body]
fn read_listing(json: &[u8]) -> (r: Result<Vec<(Option<String>, Option<u64>)>, String>)
    ensures
        match r {
            Ok(v) => listing_of(json@) == Ok::<Seq<(Option<Seq<char>>, Option<u64>)>, Seq<char>>(entries_view(v@)),
            Err(e) => listing_of(json@) == Err::<Seq<(Option<Seq<char>>, Option<u64>)>, Seq<char>>(e@),
        },
{
    let all: Vec<serde_json::Value> = serde_json::from_slice(json).map_err(|e| e.to_string())?;
    Ok(all.iter().map(|e| (e["Path"].as_str().map(str::to_string), e["Size"].as_u64())).collect())
}

/// One listed file: a missing path reads as empty, a missing size as 0.
pub open spec fn listed_file(e: (Option<Seq<char>>, Option<u64>)) -> (Seq<char>, u64) {
    (
        match e.0 {
            Some(p) => p,
            None => Seq::empty(),
        },
        match e.1 {
            Some(n) => n,
            None => 0,
        },
    )
}

/// The files of a listing as (path, size) pairs.
pub open spec fn files_view(v: Seq<(String, u64)>) -> Seq<(Seq<char>, u64)> {
    v.map_values(|f: (String, u64)| (f.0@, f.1))
}

/// The files that `rclone lsjson -R --files-only` printed, each as its path below
/// the listed directory and its size; output that is not a JSON array is an error
/// that carries the parser's message.
pub fn parse_listing(json: &[u8]) -> (r: Result<Vec<(String, u64)>, String>)
    ensures
        match listing_of(json@) {
            Ok(es) => r matches Ok(v) && files_view(v@) == es.map_values(|e: (Option<Seq<char>>, Option<u64>)| listed_file(e)),
            Err(t) => r matches Err(m) && m@ == "couldn't read cloud listing: "@ + t,
        },
{
    match read_listing(json) {
        Err(t) => {
            let mut m = "couldn't read cloud listing: ".to_string();
            push_str(&mut m, t.as_str());
            Err(m)
        },
        Ok(es) => {
            let ghost want = entries_view(es@).map_values(|e: (Option<Seq<char>>, Option<u64>)| listed_file(e));
            let mut out: Vec<(String, u64)> = Vec::new();
            let mut i: usize = 0;
            while i < es.len()
                invariant
                    i <= es@.len(),
                    out@.len() == i,
                    want == entries_view(es@).map_values(|e: (Option<Seq<char>>, Option<u64>)| listed_file(e)),
                    files_view(out@) == want.take(i as int),
                decreases es@.len() - i,
            {
                let path = match &es[i].0 {
                    Some(p) => p.clone(),
                    None => String::new(),
                };
                let size = match es[i].1 {
                    Some(n) => n,
                    None => 0,
                };
                let ghost k = i as int;
                proof {
                    assert(entries_view(es@)[k] == (opt_view(es@[k].0), es@[k].1));
                    assert((path@, size) == want[k]);
                }
                out.push((path, size));
                i = i + 1;
                proof {
                    assert(files_view(out@) =~= want.take(i as int)) by {
                        assert(files_view(out@)[k] == (path@, size));
                    }
                }
            }
            proof {
                assert(want.take(es@.len() as int) =~= want);
            }
            Ok(out)
        },
    }
}

/// What `serde_json::from_str` reads from one line of rclone's JSON log, when the
/// line is a JSON value with a `stats` member: that member's `bytes`,
/// `totalBytes`, `checks` and `totalChecks` where they are unsigned integers, the
/// `name` of the first entry of its `transferring` array where that is a string,
/// and its `eta` where that is an integer. `None` for any other line.
pub uninterp spec fn stats_of(line: Seq<char>) -> Option<(Option<u64>, Option<u64>, Option<u64>, Option<u64>, Option<Seq<char>>, Option<i64>)>;

/// Parses one log line with `serde_json::from_str` and, when it has a `stats`
/// member, takes those fields from it. The contract claims only that the result is
/// `stats_of` the line.
#[verifier::external_body]
fn read_stats(line: &str) -> (r: Option<(Option<u64>, Option<u64>, Option<u64>, Option<u64>, Option<String>, Option<i64>)>)
    ensures
        match r {
            Some(f) => stats_of(line@) == Some((f.0, f.1, f.2, f.3, opt_view(f.4), f.5)),
            None => stats_of(line@) is None,
        },
{
    let v: serde_json::Value = serde_json::from_str(line).ok()?;
    let st = v.get("stats")?;
    let file = st["transferring"].as_array().and_then(|a| a.first()).and_then(|t| t["name"].as_str());
    let n = |k: &str| st[k].as_u64();
    Some((n("bytes"), n("totalBytes"), n("checks"), n("totalChecks"), file.map(str::to_string), st["eta"].as_i64()))
}

/// One progress record from a running rclone transfer or check.
pub struct RcloneStats {
    /// Bytes moved so far.
    pub bytes: u64,
    /// Bytes the transfer will move in all.
    pub total_bytes: u64,
    /// Files checked so far.
    pub checks: u64,
    /// Files the check will look at in all.
    pub total_checks: u64,
    /// The file moving now; empty between files.
    pub file: String,
    /// Seconds left, as rclone estimates them.
    pub eta: i64,
}

/// A number that a stats record leaves out reads as 0.
pub open spec fn or_zero(n: Option<u64>) -> u64 {
    match n {
        Some(k) => k,
        None => 0,
    }
}

fn u64_or_zero(n: Option<u64>) -> (r: u64)
    ensures
        r == or_zero(n),
{
    match n {
        Some(k) => k,
        None => 0,
    }
}

/// The progress that one line of rclone's JSON log reports: `None` unless the line
/// is a stats record; a count it leaves out reads as 0, a missing file name as
/// empty.
pub fn parse_stats(line: &str) -> (r: Option<RcloneStats>)
    ensures
        match stats_of(line@) {
            None => r is None,
            Some(f) => r matches Some(st) && {
                &&& st.bytes == or_zero(f.0)
                &&& st.total_bytes == or_zero(f.1)
                &&& st.checks == or_zero(f.2)
                &&& st.total_checks == or_zero(f.3)
                &&& st.file@ == (match f.4 {
                    Some(t) => t,
                    None => Seq::<char>::empty(),
                })
                &&& st.eta == (match f.5 {
                    Some(t) => t,
                    None => 0i64,
                })
            },
        },
{
    match read_stats(line) {
        None => None,
        Some(f) => {
            let file = match f.4 {
                Some(t) => t,
                None => String::new(),
            };
            let eta = match f.5 {
                Some(t) => t,
                None => 0,
            };
            Some(RcloneStats {
                bytes: u64_or_zero(f.0),
                total_bytes: u64_or_zero(f.1),
                checks: u64_or_zero(f.2),
                total_checks: u64_or_zero(f.3),
                file,
                eta,
            })
        },
    }
}

} // verus!
