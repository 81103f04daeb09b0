//! Bring footage back down that the cloud still holds but this machine freed
//! (archived, or a pulled clip cleared): exactly the files already accounted for,
//! file by file. Every path must stay inside the trip. The download is the
//! caller's; what to ask for and what to count is decided here.
use crate::text::{chars_of, push_str, split_at_char, split_spec, str_eq, views};
use vstd::prelude::*;

verus! {

/// A path piece that climbs or names nothing: empty, `.` or `..`.
pub open spec fn bad_seg(s: Seq<char>) -> bool {
    s.len() == 0 || s == seq!['.'] || s == seq!['.', '.']
}

/// A rel that stays inside the trip: not empty, relative, forward slashes only,
/// no empty, `.` or `..` segment.
pub open spec fn safe_rel_spec(rel: Seq<char>) -> bool {
    &&& rel.len() > 0
    &&& rel[0] != '/'
    &&& forall|i: int| 0 <= i < rel.len() ==> rel[i] != '\\'
    &&& forall|k: int| 0 <= k < split_spec(rel, '/').len() ==> !bad_seg(#[trigger] split_spec(rel, '/')[k])
}

pub fn safe_rel(rel: &str) -> (b: bool)
    ensures
        b == safe_rel_spec(rel@),
{
    let v = chars_of(rel);
    if v.len() == 0 || v[0] == '/' {
        return false;
    }
    let mut i: usize = 0;
    while i < v.len()
        invariant
            i <= v@.len(),
            v@ == rel@,
            forall|j: int| 0 <= j < i ==> v@[j] != '\\',
        decreases v@.len() - i,
    {
        if v[i] == '\\' {
            proof {
                assert(rel@[i as int] == '\\');
            }
            return false;
        }
        i = i + 1;
    }
    let parts = split_at_char(v.as_slice(), '/');
    let ghost pv = views(parts@);
    proof {
        assert(pv =~= split_spec(rel@, '/'));
    }
    let mut k: usize = 0;
    while k < parts.len()
        invariant
            k <= parts@.len(),
            pv == views(parts@),
            pv == split_spec(rel@, '/'),
            forall|j: int| 0 <= j < k ==> !bad_seg(#[trigger] pv[j]),
        decreases parts@.len() - k,
    {
        let s = parts[k].as_str();
        let sc = chars_of(s);
        if sc.len() == 0 || str_eq(s, ".") || str_eq(s, "..") {
            proof {
                reveal_strlit(".");
                reveal_strlit("..");
                assert(bad_seg(pv[k as int])) by {
                    assert(".."@ =~= seq!['.', '.']);
                    assert("."@ =~= seq!['.']);
                }
            }
            return false;
        }
        proof {
            reveal_strlit(".");
            reveal_strlit("..");
            assert(".."@ =~= seq!['.', '.']);
            assert("."@ =~= seq!['.']);
        }
        k = k + 1;
    }
    true
}

/// The first rel that would leave the trip, if any.
pub fn first_unsafe(rels: &[String]) -> (r: Option<usize>)
    ensures
        match r {
            Some(i) => i < rels@.len() && !safe_rel_spec(rels@[i as int]@) && forall|j: int|
                0 <= j < i ==> safe_rel_spec(#[trigger] rels@[j]@),
            None => forall|j: int| 0 <= j < rels@.len() ==> safe_rel_spec(#[trigger] rels@[j]@),
        },
{
    let mut i: usize = 0;
    while i < rels.len()
        invariant
            i <= rels@.len(),
            forall|j: int| 0 <= j < i ==> safe_rel_spec(#[trigger] rels@[j]@),
        decreases rels@.len() - i,
    {
        if !safe_rel(rels[i].as_str()) {
            return Some(i);
        }
        i = i + 1;
    }
    None
}

/// The file list the download reads: a rel per line.
pub open spec fn restore_list_spec(rels: Seq<Seq<char>>) -> Seq<char>
    decreases rels.len(),
{
    if rels.len() == 0 {
        Seq::empty()
    } else {
        restore_list_spec(rels.drop_last()) + rels.last() + seq!['\n']
    }
}

pub fn restore_list(rels: &[String]) -> (t: String)
    ensures
        t@ == restore_list_spec(views(rels@)),
{
    let mut t = String::new();
    let mut i: usize = 0;
    while i < rels.len()
        invariant
            i <= rels@.len(),
            t@ == restore_list_spec(views(rels@).take(i as int)),
        decreases rels@.len() - i,
    {
        proof {
            assert(views(rels@).take(i + 1).drop_last() =~= views(rels@).take(i as int));
        }
        push_str(&mut t, rels[i].as_str());
        t.push('\n');
        i = i + 1;
        proof {
            assert(t@ =~= restore_list_spec(views(rels@).take(i as int)));
        }
    }
    proof {
        assert(views(rels@).take(i as int) =~= views(rels@));
    }
    t
}

/// The download's arguments: copy the listed files from the trip's cloud folder
/// into the local trip, resumable.
pub open spec fn restore_args_spec(list: Seq<char>, remote: Seq<char>, trip: Seq<char>, dir: Seq<char>) -> Seq<Seq<char>> {
    seq![
        "copy"@,
        "--files-from"@,
        list,
        "--transfers"@,
        "4"@,
        "--checkers"@,
        "8"@,
        "--retries"@,
        "5"@,
        "--low-level-retries"@,
        "20"@,
        crate::text::trim_end_char(remote, '/') + seq!['/'] + trip,
        dir,
    ]
}

pub fn restore_args(list: &str, remote: &str, trip: &str, dir: &str) -> (a: Vec<String>)
    ensures
        views(a@) == restore_args_spec(list@, remote@, trip@, dir@),
{
    let rc = chars_of(remote);
    let mut src = crate::text::trim_char_range(rc.as_slice(), 0, rc.len(), '/', false, true);
    proof {
        assert(rc@.subrange(0, rc@.len() as int) =~= remote@);
    }
    src.push('/');
    push_str(&mut src, trip);
    let ghost sv = src@;
    proof {
        assert(sv =~= crate::text::trim_end_char(remote@, '/') + seq!['/'] + trip@);
    }
    let mut a: Vec<String> = Vec::new();
    a.push("copy".to_string());
    a.push("--files-from".to_string());
    a.push(list.to_string());
    a.push("--transfers".to_string());
    a.push("4".to_string());
    a.push("--checkers".to_string());
    a.push("8".to_string());
    a.push("--retries".to_string());
    a.push("5".to_string());
    a.push("--low-level-retries".to_string());
    a.push("20".to_string());
    a.push(src);
    a.push(dir.to_string());
    proof {
        let av = views(a@);
        assert(av[11] == sv);
        assert(av =~= restore_args_spec(list@, remote@, trip@, dir@));
    }
    a
}

/// The files that landed, by the size each requested rel now has on disk
/// (`None` when it did not come back).
pub open spec fn landed_count(sizes: Seq<Option<u64>>) -> nat
    decreases sizes.len(),
{
    if sizes.len() == 0 {
        0
    } else {
        landed_count(sizes.drop_last()) + if sizes.last() is Some { 1nat } else { 0nat }
    }
}

pub open spec fn landed_bytes(sizes: Seq<Option<u64>>) -> int
    decreases sizes.len(),
{
    if sizes.len() == 0 {
        0
    } else {
        landed_bytes(sizes.drop_last()) + match sizes.last() {
            Some(n) => n as int,
            None => 0,
        }
    }
}

proof fn lemma_landed_prefix(s: Seq<Option<u64>>, k: int)
    requires
        0 <= k <= s.len(),
    ensures
        landed_bytes(s.take(k)) <= landed_bytes(s),
        landed_count(s.take(k)) <= k,
    decreases s.len() - k,
{
    if k < s.len() {
        lemma_landed_prefix(s, k + 1);
        assert(s.take(k + 1).drop_last() =~= s.take(k));
    } else {
        assert(s.take(k) =~= s);
    }
    lemma_landed_count_le(s.take(k));
}

proof fn lemma_landed_count_le(s: Seq<Option<u64>>)
    ensures
        landed_count(s) <= s.len(),
    decreases s.len(),
{
    if s.len() > 0 {
        lemma_landed_count_le(s.drop_last());
    }
}

/// Count what actually came back rather than what was asked for: how many files,
/// and their bytes. A trip with anything restored is no longer archived.
pub fn landed(sizes: &[Option<u64>]) -> (r: (usize, u64))
    requires
        landed_bytes(sizes@) <= u64::MAX,
    ensures
        r.0 == landed_count(sizes@),
        r.1 == landed_bytes(sizes@),
{
    let mut files: usize = 0;
    let mut bytes: u64 = 0;
    let mut i: usize = 0;
    while i < sizes.len()
        invariant
            i <= sizes@.len(),
            files == landed_count(sizes@.take(i as int)),
            bytes == landed_bytes(sizes@.take(i as int)),
            landed_bytes(sizes@) <= u64::MAX,
        decreases sizes@.len() - i,
    {
        proof {
            assert(sizes@.take(i + 1).drop_last() =~= sizes@.take(i as int));
            lemma_landed_prefix(sizes@, i + 1);
        }
        match sizes[i] {
            Some(n) => {
                files = files + 1;
                bytes = bytes + n;
            },
            None => {},
        }
        i = i + 1;
    }
    proof {
        assert(sizes@.take(i as int) =~= sizes@);
    }
    (files, bytes)
}

} // verus!
