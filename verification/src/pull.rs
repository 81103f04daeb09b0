//! Pull other people's footage down from the shared cloud into a trip. Provenance
//! is the folder both ways: a person's clips live under `<trip>/<person>/` in the
//! cloud and land at the same path here. The survey and the download are the
//! caller's; who can be pulled, and when a pull is refused, is decided here.
use crate::media::{has_ext_spec, is_capture, photo_exts, video_exts};
use crate::model::Contributor;
use crate::text::{first_seg, first_segment, lex_lt, push_str, str_eq};
use vstd::prelude::*;

verus! {

/// The person a cloud listing path belongs to: its first folder, for a capture
/// that has one.
pub open spec fn listed_person(path: Seq<char>) -> Option<Seq<char>> {
    if (has_ext_spec(path, video_exts()) || has_ext_spec(path, photo_exts())) && first_seg(path).len() > 0 {
        Some(first_seg(path))
    } else {
        None
    }
}

/// A listed capture whose person is not `user`.
pub open spec fn pullable(path: Seq<char>, user: Seq<char>) -> bool {
    listed_person(path) is Some && listed_person(path).unwrap() != user
}

/// How many listed captures are `person`'s, and their bytes.
pub open spec fn tally(entries: Seq<(String, u64)>, person: Seq<char>) -> (nat, int)
    decreases entries.len(),
{
    if entries.len() == 0 {
        (0, 0)
    } else {
        let (n, b) = tally(entries.drop_last(), person);
        if listed_person(entries.last().0@) == Some(person) {
            (n + 1, b + entries.last().1)
        } else {
            (n, b)
        }
    }
}

pub open spec fn listed_bytes(entries: Seq<(String, u64)>) -> int
    decreases entries.len(),
{
    if entries.len() == 0 {
        0
    } else {
        listed_bytes(entries.drop_last()) + entries.last().1
    }
}

proof fn lemma_tally_bound(entries: Seq<(String, u64)>, person: Seq<char>)
    ensures
        tally(entries, person).1 <= listed_bytes(entries),
        tally(entries, person).0 <= entries.len(),
        0 <= tally(entries, person).1,
    decreases entries.len(),
{
    if entries.len() > 0 {
        lemma_tally_bound(entries.drop_last(), person);
    }
}

/// Who has footage in a trip's cloud listing `(path, size)` that `user` could
/// pull: one row per person (in name order, without `user`), with how many
/// captures they have there and their bytes. `pulled` is left to the caller.
pub fn contributors(user: &str, entries: &[(String, u64)]) -> (r: Vec<(String, usize, u64)>)
    requires
        listed_bytes(entries@) <= u64::MAX,
        entries@.len() <= usize::MAX,
    ensures
        forall|a: int, b: int| 0 <= a < b < r@.len() ==> lex_lt((#[trigger] r@[a]).0@, (#[trigger] r@[b]).0@),
        forall|k: int|
            0 <= k < r@.len() ==> {
                let (p, n, b) = #[trigger] r@[k];
                &&& p@ != user@
                &&& n == tally(entries@, p@).0
                &&& b == tally(entries@, p@).1
                &&& n > 0
            },
        forall|i: int|
            0 <= i < entries@.len() && pullable(#[trigger] entries@[i].0@, user@) ==> exists|k: int|
                0 <= k < r@.len() && (#[trigger] r@[k]).0@ == listed_person(entries@[i].0@).unwrap(),
{
    let mut r: Vec<(String, usize, u64)> = Vec::new();
    let mut i: usize = 0;
    while i < entries.len()
        invariant
            i <= entries@.len(),
            listed_bytes(entries@) <= u64::MAX,
            forall|a: int, b: int| 0 <= a < b < r@.len() ==> lex_lt((#[trigger] r@[a]).0@, (#[trigger] r@[b]).0@),
            forall|k: int|
                0 <= k < r@.len() ==> {
                    let (p, n, b) = #[trigger] r@[k];
                    &&& p@ != user@
                    &&& n == tally(entries@.take(i as int), p@).0
                    &&& b == tally(entries@.take(i as int), p@).1
                    &&& n > 0
                },
            forall|j: int|
                0 <= j < i && pullable(#[trigger] entries@[j].0@, user@) ==> exists|k: int|
                    0 <= k < r@.len() && (#[trigger] r@[k]).0@ == listed_person(entries@[j].0@).unwrap(),
        decreases entries@.len() - i,
    {
        let ghost pre = entries@.take(i as int);
        let ghost nxt = entries@.take(i + 1);
        proof {
            assert(nxt.drop_last() =~= pre);
            assert(nxt.last() == entries@[i as int]);
            lemma_tally_bound(entries@.take(i + 1), first_seg(entries@[i as int].0@));
            lemma_listed_prefix(entries@, i + 1);
        }
        let path = entries[i].0.as_str();
        let person = first_segment(path);
        if is_capture(path) && person.as_str().unicode_len() > 0 && !str_eq(person.as_str(), user) {
            let ghost pv = person@;
            let mut p: usize = 0;
            while p < r.len() && crate::text::str_lt(r[p].0.as_str(), person.as_str())
                invariant
                    p <= r@.len(),
                    pv == person@,
                    forall|k: int| 0 <= k < p ==> lex_lt((#[trigger] r@[k]).0@, pv),
                decreases r@.len() - p,
            {
                p = p + 1;
            }
            let ghost before = r@;
            if p < r.len() && str_eq(r[p].0.as_str(), person.as_str()) {
                let q = r[p].0.clone();
                let n = r[p].1;
                let b = r[p].2;
                proof {
                    assert(n == tally(pre, pv).0 && b == tally(pre, pv).1);
                    assert(tally(nxt, pv).1 <= u64::MAX);
                }
                r.set(p, (q, n + 1, b + entries[i].1));
                proof {
                    assert forall|k: int| 0 <= k < r@.len() implies {
                        let (pp, nn, bb) = #[trigger] r@[k];
                        &&& pp@ != user@
                        &&& nn == tally(nxt, pp@).0
                        &&& bb == tally(nxt, pp@).1
                        &&& nn > 0
                    } by {
                        if k != p {
                            assert(r@[k] == before[k]);
                            if before[k].0@ == pv {
                                if k < p {
                                    assert(lex_lt(before[k].0@, before[p as int].0@));
                                    crate::text::lemma_lex_irreflexive(pv);
                                } else {
                                    assert(lex_lt(before[p as int].0@, before[k].0@));
                                    crate::text::lemma_lex_irreflexive(pv);
                                }
                            }
                        }
                    }
                    assert forall|j: int|
                        0 <= j < i + 1 && pullable(#[trigger] entries@[j].0@, user@) implies exists|k: int|
                            0 <= k < r@.len() && (#[trigger] r@[k]).0@ == listed_person(entries@[j].0@).unwrap() by {
                        if j < i {
                            let k = choose|k: int| 0 <= k < before.len() && (#[trigger] before[k]).0@ == listed_person(entries@[j].0@).unwrap();
                            assert(r@[k].0@ == before[k].0@);
                        } else {
                            assert(r@[p as int].0@ == pv);
                        }
                    }
                }
            } else {
                proof {
                    assert forall|k: int| p <= k < before.len() implies lex_lt(pv, (#[trigger] before[k]).0@) by {
                        let rp = before[p as int].0@;
                        assert(!lex_lt(rp, pv));
                        assert(rp != pv);
                        crate::text::lemma_lex_total(rp, pv);
                        if k > p {
                            crate::text::lemma_lex_transitive(pv, rp, before[k].0@);
                        }
                    }
                    assert forall|k: int| 0 <= k < before.len() implies (#[trigger] before[k]).0@ != pv by {
                        crate::text::lemma_lex_irreflexive(pv);
                    }
                    lemma_tally_absent(pre, pv);
                }
                r.insert(p, (person, 1, entries[i].1));
                proof {
                    let nv = r@;
                    assert(nv =~= before.insert(p as int, (nv[p as int].0, 1usize, entries@[i as int].1)));
                    assert forall|a: int, b: int| 0 <= a < b < nv.len() implies lex_lt((#[trigger] nv[a]).0@, (#[trigger] nv[b]).0@) by {
                        if a < p && b == p {
                            assert(nv[a] == before[a]);
                        } else if a == p && b > p {
                            assert(nv[b] == before[b - 1]);
                        } else if a < p && b > p {
                            assert(nv[a] == before[a] && nv[b] == before[b - 1]);
                        } else if b < p {
                            assert(nv[a] == before[a] && nv[b] == before[b]);
                        } else {
                            assert(nv[a] == before[a - 1] && nv[b] == before[b - 1]);
                        }
                    }
                    assert forall|k: int| 0 <= k < nv.len() implies {
                        let (pp, nn, bb) = #[trigger] nv[k];
                        &&& pp@ != user@
                        &&& nn == tally(nxt, pp@).0
                        &&& bb == tally(nxt, pp@).1
                        &&& nn > 0
                    } by {
                        if k < p {
                            assert(nv[k] == before[k]);
                        } else if k > p {
                            assert(nv[k] == before[k - 1]);
                        }
                    }
                    assert forall|j: int|
                        0 <= j < i + 1 && pullable(#[trigger] entries@[j].0@, user@) implies exists|k: int|
                            0 <= k < nv.len() && (#[trigger] nv[k]).0@ == listed_person(entries@[j].0@).unwrap() by {
                        if j < i {
                            let k = choose|k: int| 0 <= k < before.len() && (#[trigger] before[k]).0@ == listed_person(entries@[j].0@).unwrap();
                            if k < p {
                                assert(nv[k] == before[k]);
                            } else {
                                assert(nv[k + 1] == before[k]);
                            }
                        } else {
                            assert(nv[p as int].0@ == pv);
                        }
                    }
                }
            }
        } else {
            proof {
                assert forall|k: int| 0 <= k < r@.len() implies {
                    let (pp, nn, bb) = #[trigger] r@[k];
                    &&& pp@ != user@
                    &&& nn == tally(nxt, pp@).0
                    &&& bb == tally(nxt, pp@).1
                    &&& nn > 0
                } by {
                    if listed_person(entries@[i as int].0@) == Some(r@[k].0@) {
                        assert(r@[k].0@ != user@);
                    }
                }
            }
        }
        i = i + 1;
    }
    proof {
        assert(entries@.take(i as int) =~= entries@);
    }
    r
}

proof fn lemma_tally_absent(entries: Seq<(String, u64)>, person: Seq<char>)
    requires
        forall|j: int| 0 <= j < entries.len() ==> listed_person(#[trigger] entries[j].0@) != Some(person),
    ensures
        tally(entries, person) == (0nat, 0int),
    decreases entries.len(),
{
    if entries.len() > 0 {
        assert forall|j: int| 0 <= j < entries.drop_last().len() implies listed_person(
            #[trigger] entries.drop_last()[j].0@,
        ) != Some(person) by {
            assert(entries.drop_last()[j] == entries[j]);
        }
        lemma_tally_absent(entries.drop_last(), person);
        assert(listed_person(entries[entries.len() - 1].0@) != Some(person));
    }
}

proof fn lemma_listed_prefix(entries: Seq<(String, u64)>, k: int)
    requires
        0 <= k <= entries.len(),
    ensures
        listed_bytes(entries.take(k)) <= listed_bytes(entries),
    decreases entries.len() - k,
{
    if k < entries.len() {
        lemma_listed_prefix(entries, k + 1);
        assert(entries.take(k + 1).drop_last() =~= entries.take(k));
    } else {
        assert(entries.take(k) =~= entries);
    }
}

/// A contributor row: pulled already when they have captures there and at least
/// as many of their masters are here.
pub fn contributor(person: String, clips: usize, bytes: u64, local: usize) -> (c: Contributor)
    ensures
        c.person == person,
        c.clips == clips,
        c.bytes == bytes,
        c.pulled == (clips > 0 && local >= clips),
{
    Contributor { person, clips, bytes, pulled: clips > 0 && local >= clips }
}

/// Why pulling `person` is refused, if it is: their name is not a single path
/// segment, or it is your own footage (that is what sharing uploads).
pub open spec fn pull_refusal(person: Seq<char>, user: Seq<char>) -> Option<Seq<char>> {
    if !crate::paths::valid_trip_spec(person) {
        Some("invalid person"@)
    } else if person == user {
        Some("that's your own footage — Share uploads it, no need to pull"@)
    } else {
        None
    }
}

pub fn pull_check(person: &str, user: &str) -> (r: Result<(), String>)
    ensures
        match r {
            Ok(()) => pull_refusal(person@, user@) is None,
            Err(e) => pull_refusal(person@, user@) == Some(e@),
        },
{
    if !crate::paths::valid_trip(person) {
        return Err("invalid person".to_string());
    }
    if str_eq(person, user) {
        return Err("that's your own footage — Share uploads it, no need to pull".to_string());
    }
    Ok(())
}

/// The download's arguments: copy `<remote>/<trip>/<person>` into the local
/// `<trip>/<person>`, resumable.
pub open spec fn pull_args_spec(remote: Seq<char>, trip: Seq<char>, person: Seq<char>, dst: Seq<char>) -> Seq<Seq<char>> {
    seq![
        "copy"@,
        "--transfers"@,
        "4"@,
        "--checkers"@,
        "8"@,
        "--retries"@,
        "5"@,
        "--low-level-retries"@,
        "20"@,
        crate::organize::cloud_path_spec(remote, trip, person),
        dst,
    ]
}

pub fn pull_args(remote: &str, trip: &str, person: &str, dst: &str) -> (a: Vec<String>)
    ensures
        crate::text::views(a@) == pull_args_spec(remote@, trip@, person@, dst@),
{
    let src = crate::organize::cloud_path(remote, trip, person);
    let ghost sv = src@;
    let mut a: Vec<String> = Vec::new();
    a.push("copy".to_string());
    a.push("--transfers".to_string());
    a.push("4".to_string());
    a.push("--checkers".to_string());
    a.push("8".to_string());
    a.push("--retries".to_string());
    a.push("5".to_string());
    a.push("--low-level-retries".to_string());
    a.push("20".to_string());
    a.push(src);
    a.push(dst.to_string());
    proof {
        let av = crate::text::views(a@);
        assert(av[9] == sv);
        assert(av =~= pull_args_spec(remote@, trip@, person@, dst@));
    }
    a
}

} // verus!
