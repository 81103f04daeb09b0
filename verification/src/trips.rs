//! Local trips: `.reel` metadata, share state, pipeline state, and provenance.
//! Walking the library and reading files is the caller's part; these decide what
//! the files say.
use crate::model::{Share, TripState};
use crate::paths::{component_strings, component_strs, strip_dir, strip_dir_spec};
use crate::text::{
    chars_of, free_of, has_prefix, join_with, lex_lt, lines_of, lines_spec, push_joined, push_str,
    slice_string, sort_strings, sorted_views, split_spec, starts_with, str_eq, strip_cr, views,
};
use crate::timeline::key_value;
use vstd::prelude::*;

verus! {

/// Read a `key=value` from a trip's `.reel` text: the rest of the first line that
/// starts with `key=`.
pub fn meta_value(text: &str, key: &str) -> (r: Option<String>)
    ensures
        match r {
            Some(v) => key_value(lines_spec(text@), key@) == Some(v@),
            None => key_value(lines_spec(text@), key@) is None,
        },
{
    let v = chars_of(text);
    let lines = lines_of(v.as_slice());
    let ghost ls = lines_spec(text@);
    let mut pre = String::new();
    push_str(&mut pre, key);
    pre.push('=');
    let mut i: usize = 0;
    proof {
        assert(ls.skip(0) =~= ls);
    }
    while i < lines.len()
        invariant
            i <= lines@.len(),
            lines@.len() == ls.len(),
            forall|k: int| 0 <= k < lines@.len() ==> #[trigger] lines@[k]@ == ls[k],
            pre@ == key@ + seq!['='],
            ls == lines_spec(text@),
            key_value(ls, key@) == key_value(ls.skip(i as int), key@),
        decreases lines@.len() - i,
    {
        proof {
            assert(ls.skip(i as int)[0] == ls[i as int]);
            assert(ls.skip(i as int).drop_first() =~= ls.skip(i + 1));
        }
        let lc = chars_of(lines[i].as_str());
        if starts_with(lc.as_slice(), pre.as_str()) {
            let k = pre.as_str().unicode_len();
            proof {
                assert(lc@ == ls[i as int]);
                assert(lc@.subrange(k as int, lc@.len() as int) =~= lc@.skip(key@.len() as int + 1));
                assert(has_prefix(ls.skip(i as int)[0], key@ + seq!['=']));
                assert(key_value(ls.skip(i as int), key@) == Some(ls[i as int].skip(key@.len() as int + 1)));
            }
            return Some(slice_string(lc.as_slice(), k, lc.len()));
        }
        i = i + 1;
    }
    proof {
        assert(ls.skip(i as int) =~= Seq::<Seq<char>>::empty());
    }
    None
}

/// The lines of a `.reel` after setting `key` to `value`: the first line for the
/// key replaced, or the setting appended; a missing or empty marker starts as
/// `reel project`.
pub open spec fn set_lines(lines: Seq<Seq<char>>, key: Seq<char>, value: Seq<char>) -> Seq<Seq<char>> {
    let base = if lines.len() == 0 { seq!["reel project"@] } else { lines };
    let row = key + seq!['='] + value;
    let i = first_keyed(base, key);
    if i < base.len() { base.update(i, row) } else { base.push(row) }
}

/// Index of the first line starting with `key=` (the length when none does).
pub open spec fn first_keyed(lines: Seq<Seq<char>>, key: Seq<char>) -> int
    decreases lines.len(),
{
    if lines.len() == 0 {
        0
    } else if has_prefix(lines[0], key + seq!['=']) {
        0
    } else {
        1 + first_keyed(lines.drop_first(), key)
    }
}

/// The `.reel` text with `key` set to `value`, every other line left intact.
/// Matches the script's `trip_meta_set` so the CLI and GUI read each other's
/// metadata.
pub open spec fn set_meta_spec(text: Option<Seq<char>>, key: Seq<char>, value: Seq<char>) -> Seq<char> {
    let lines = match text {
        Some(t) => lines_spec(t),
        None => Seq::empty(),
    };
    join_with(set_lines(lines, key, value), '\n') + seq!['\n']
}

proof fn lemma_first_keyed(lines: Seq<Seq<char>>, key: Seq<char>, i: int)
    requires
        0 <= i <= lines.len(),
        forall|j: int| 0 <= j < i ==> !has_prefix(#[trigger] lines[j], key + seq!['=']),
        i == lines.len() || has_prefix(lines[i], key + seq!['=']),
    ensures
        first_keyed(lines, key) == i,
    decreases lines.len(),
{
    if lines.len() > 0 && i > 0 {
        assert forall|j: int| 0 <= j < i - 1 implies !has_prefix(#[trigger] lines.drop_first()[j], key + seq!['=']) by {
            assert(lines.drop_first()[j] == lines[j + 1]);
        }
        lemma_first_keyed(lines.drop_first(), key, i - 1);
    }
}

/// Write `key=value` into a trip's `.reel` text (`None` when there is no marker
/// yet), replacing that key's line or appending one.
pub fn set_meta_text(text: Option<&str>, key: &str, value: &str) -> (t: String)
    ensures
        t@ == set_meta_spec(crate::media::opt_str(text), key@, value@),
{
    let mut lines: Vec<String> = match text {
        Some(t) => {
            let v = chars_of(t);
            lines_of(v.as_slice())
        },
        None => Vec::new(),
    };
    let ghost given = views(lines@);
    proof {
        match text {
            Some(t) => {
                assert(given =~= lines_spec(t@));
            },
            None => {
                assert(given =~= Seq::<Seq<char>>::empty());
            },
        }
    }
    if lines.len() == 0 {
        lines.push("reel project".to_string());
    }
    let ghost base = views(lines@);
    proof {
        if given.len() == 0 {
            assert(base =~= seq!["reel project"@]);
        } else {
            assert(base =~= given);
        }
    }
    let mut pre = String::new();
    push_str(&mut pre, key);
    pre.push('=');
    let mut row = pre.clone();
    push_str(&mut row, value);
    let mut i: usize = 0;
    while i < lines.len() && !starts_with(chars_of(lines[i].as_str()).as_slice(), pre.as_str())
        invariant
            i <= lines@.len(),
            base == views(lines@),
            pre@ == key@ + seq!['='],
            forall|j: int| 0 <= j < i ==> !has_prefix(#[trigger] base[j], key@ + seq!['=']),
        decreases lines@.len() - i,
    {
        i = i + 1;
    }
    proof {
        lemma_first_keyed(base, key@, i as int);
    }
    if i < lines.len() {
        lines.set(i, row);
        proof {
            assert(views(lines@) =~= base.update(i as int, key@ + seq!['='] + value@));
        }
    } else {
        lines.push(row);
        proof {
            assert(views(lines@) =~= base.push(key@ + seq!['='] + value@));
        }
    }
    let mut body = String::new();
    push_joined(&mut body, &lines, '\n');
    body.push('\n');
    body
}

/// Share state from the `.reel` `share=` value. `Unknown` unless explicitly
/// recorded, so the UI never claims footage is safe without proof.
pub open spec fn share_spec(v: Option<Seq<char>>) -> Share {
    match v {
        Some(s) => if s == "shared"@ || s == "verified"@ || s == "done"@ || s == "yes"@ {
            Share::Shared
        } else if s == "local"@ || s == "no"@ || s == "pending"@ {
            Share::Local
        } else {
            Share::Unknown
        },
        None => Share::Unknown,
    }
}

pub fn share_of(v: Option<&str>) -> (s: Share)
    ensures
        s == share_spec(crate::media::opt_str(v)),
{
    match v {
        Some(x) => if str_eq(x, "shared") || str_eq(x, "verified") || str_eq(x, "done") || str_eq(x, "yes") {
            Share::Shared
        } else if str_eq(x, "local") || str_eq(x, "no") || str_eq(x, "pending") {
            Share::Local
        } else {
            Share::Unknown
        },
        None => Share::Unknown,
    }
}

/// Whether a trip's `archived=` marker says it is archived: the value `1`.
pub fn archived_of(v: Option<&str>) -> (b: bool)
    ensures
        b == (crate::media::opt_str(v) == Some("1"@)),
{
    match v {
        Some(x) => str_eq(x, "1"),
        None => false,
    }
}

/// The person a master belongs to: the first path segment under the trip dir
/// (`<trip>/<person>/<camera>/file`); `None` when it is not under the trip.
pub open spec fn person_spec(master: Seq<char>, trip: Seq<char>) -> Option<Seq<char>> {
    match strip_dir_spec(master, trip) {
        Some(rel) => if component_strs(rel).len() > 0 { Some(component_strs(rel)[0]) } else { None },
        None => None,
    }
}

pub fn person_of(master: &str, trip: &str) -> (r: Option<String>)
    ensures
        match r {
            Some(p) => person_spec(master@, trip@) == Some(p@),
            None => person_spec(master@, trip@) is None,
        },
{
    match strip_dir(master, trip) {
        Some(rel) => {
            let c = component_strings(rel.as_str());
            if c.len() > 0 {
                proof {
                    assert(views(c@)[0] == c@[0]@);
                }
                Some(c[0].clone())
            } else {
                None
            }
        },
        None => None,
    }
}

/// How many marks a `marks.tsv` holds: its non-empty lines that are not `#`
/// comments.
pub open spec fn mark_count(lines: Seq<Seq<char>>) -> nat
    decreases lines.len(),
{
    if lines.len() == 0 {
        0
    } else {
        mark_count(lines.drop_last()) + if lines.last().len() > 0 && lines.last()[0] != '#' {
            1nat
        } else {
            0nat
        }
    }
}

pub fn count_marks(text: &str) -> (n: usize)
    ensures
        n == mark_count(lines_spec(text@)),
{
    let v = chars_of(text);
    let lines = lines_of(v.as_slice());
    let ghost ls = lines_spec(text@);
    let mut n: usize = 0;
    let mut i: usize = 0;
    while i < lines.len()
        invariant
            i <= lines@.len(),
            lines@.len() == ls.len(),
            forall|k: int| 0 <= k < lines@.len() ==> #[trigger] lines@[k]@ == ls[k],
            n == mark_count(ls.take(i as int)),
            n <= i,
        decreases lines@.len() - i,
    {
        proof {
            assert(ls.take(i + 1).drop_last() =~= ls.take(i as int));
            assert(ls.take(i + 1).last() == ls[i as int]);
        }
        let lc = chars_of(lines[i].as_str());
        if lc.len() > 0 && lc[0] != '#' {
            n = n + 1;
        }
        i = i + 1;
    }
    proof {
        assert(ls.take(i as int) =~= ls);
    }
    n
}

/// How far a trip has got. Archived is an intent, not an inference: with no raw
/// on disk, a trip reads as archived when its marker says so or cut clips remain
/// (a library archived before the marker existed); footage on disk overrides a
/// stale marker. Cutting is an export and never advances a trip.
pub open spec fn state_spec(masters: nat, marks: nat, clips: nat, archived: bool) -> TripState {
    if masters == 0 {
        if archived || clips > 0 { TripState::Archived } else { TripState::Empty }
    } else if marks > 0 {
        TripState::Marked
    } else {
        TripState::Imported
    }
}

/// Footage on disk decides: a trip with any master is Marked when it has marks
/// and Imported otherwise, never Archived or Empty, whatever its archived marker
/// and its cut clips say; flipping the marker never changes such a trip's state.
/// A trip with no master is never Imported or Marked.
pub proof fn lemma_footage_overrides_marker(masters: nat, marks: nat, clips: nat, archived: bool)
    ensures
        masters > 0 ==> state_spec(masters, marks, clips, archived) != TripState::Archived,
        masters > 0 ==> state_spec(masters, marks, clips, archived) != TripState::Empty,
        masters > 0 ==> (state_spec(masters, marks, clips, archived) == TripState::Marked <==> marks > 0),
        masters > 0 ==> state_spec(masters, marks, clips, archived) == state_spec(masters, marks, 0, !archived),
        masters == 0 ==> state_spec(masters, marks, clips, archived) != TripState::Marked
            && state_spec(masters, marks, clips, archived) != TripState::Imported,
{
}

pub fn derive_state(masters: usize, marks: usize, clips: usize, archived: bool) -> (s: TripState)
    ensures
        s == state_spec(masters as nat, marks as nat, clips as nat, archived),
        masters > 0 ==> s != TripState::Archived && s != TripState::Empty && (s == TripState::Marked <==> marks > 0),
        masters == 0 ==> s != TripState::Marked && s != TripState::Imported,
{
    if masters == 0 {
        if archived || clips > 0 {
            TripState::Archived
        } else {
            TripState::Empty
        }
    } else if marks > 0 {
        TripState::Marked
    } else {
        TripState::Imported
    }
}

/// How many of a trip's masters are yours, given each master's person.
pub open spec fn mine_count(persons: Seq<Option<String>>, me: Seq<char>) -> nat
    decreases persons.len(),
{
    if persons.len() == 0 {
        0
    } else {
        mine_count(persons.drop_last(), me) + if persons.last() matches Some(p) && p@ == me {
            1nat
        } else {
            0nat
        }
    }
}

/// `o` names the person `p`.
pub open spec fn names_person(o: Option<String>, p: Seq<char>) -> bool {
    o matches Some(q) && q@ == p
}

/// Someone other than you has footage among the masters.
pub open spec fn is_contributor(persons: Seq<Option<String>>, me: Seq<char>, p: Seq<char>) -> bool {
    p != me && exists|i: int| 0 <= i < persons.len() && #[trigger] names_person(persons[i], p)
}

/// Provenance from each master's person: how many are yours, and who else
/// contributed (each once, sorted).
pub fn provenance(me: &str, persons: &Vec<Option<String>>) -> (r: (usize, Vec<String>))
    ensures
        r.0 == mine_count(persons@, me@),
        sorted_views(views(r.1@)),
        views(r.1@).no_duplicates(),
        forall|p: Seq<char>| #[trigger] views(r.1@).contains(p) == is_contributor(persons@, me@, p),
{
    let mut mine: usize = 0;
    let mut others: Vec<String> = Vec::new();
    let mut i: usize = 0;
    while i < persons.len()
        invariant
            i <= persons@.len(),
            mine == mine_count(persons@.take(i as int), me@),
            mine <= i,
            views(others@).no_duplicates(),
            forall|p: Seq<char>| #[trigger] views(others@).contains(p) == is_contributor(persons@.take(i as int), me@, p),
        decreases persons@.len() - i,
    {
        let ghost pre = persons@.take(i as int);
        let ghost next = persons@.take(i + 1);
        proof {
            assert(next.drop_last() =~= pre);
            assert(next.last() == persons@[i as int]);
        }
        match &persons[i] {
            Some(p) => {
                if str_eq(p.as_str(), me) {
                    mine = mine + 1;
                    proof {
                        assert forall|q: Seq<char>| #[trigger] views(others@).contains(q) == is_contributor(next, me@, q) by {
                            if is_contributor(next, me@, q) {
                                let j = choose|j: int| 0 <= j < next.len() && #[trigger] names_person(next[j], q);
                                if j < i {
                                    assert(pre[j] == next[j]);
                                }
                            }
                            if is_contributor(pre, me@, q) {
                                let j = choose|j: int| 0 <= j < pre.len() && #[trigger] names_person(pre[j], q);
                                assert(next[j] == pre[j]);
                            }
                        }
                    }
                } else {
                    let mut seen = false;
                    let mut k: usize = 0;
                    while k < others.len()
                        invariant
                            k <= others@.len(),
                            seen == exists|j: int| 0 <= j < k && others@[j]@ == p@,
                        decreases others@.len() - k,
                    {
                        if str_eq(others[k].as_str(), p.as_str()) {
                            seen = true;
                        }
                        k = k + 1;
                    }
                    let ghost before = others@;
                    if !seen {
                        others.push(p.clone());
                        proof {
                            assert(views(others@) =~= views(before).push(p@));
                            assert(!views(before).contains(p@)) by {
                                if views(before).contains(p@) {
                                    let j = choose|j: int| 0 <= j < views(before).len() && views(before)[j] == p@;
                                    assert(before[j]@ == p@);
                                }
                            }
                        }
                    } else {
                        proof {
                            let j = choose|j: int| 0 <= j < k && others@[j]@ == p@;
                            assert(views(others@)[j] == p@);
                        }
                    }
                    proof {
                        assert forall|q: Seq<char>| #[trigger] views(others@).contains(q) == is_contributor(next, me@, q) by {
                            if is_contributor(next, me@, q) {
                                let j = choose|j: int| 0 <= j < next.len() && #[trigger] names_person(next[j], q);
                                if j < i {
                                    assert(pre[j] == next[j]);
                                    assert(is_contributor(pre, me@, q));
                                    assert(views(before).contains(q));
                                    let a = choose|a: int| 0 <= a < views(before).len() && views(before)[a] == q;
                                    assert(views(others@)[a] == q);
                                } else {
                                    if !seen {
                                        assert(views(others@)[views(others@).len() - 1] == q);
                                    }
                                }
                            }
                            if views(others@).contains(q) && q != p@ {
                                let a = choose|a: int| 0 <= a < views(others@).len() && views(others@)[a] == q;
                                if !seen && a == views(others@).len() - 1 {
                                    assert(views(others@)[a] == p@);
                                }
                                assert(a < views(before).len());
                                assert(views(before)[a] == q);
                                assert(views(before).contains(q));
                                assert(is_contributor(pre, me@, q));
                                let j = choose|j: int| 0 <= j < pre.len() && #[trigger] names_person(pre[j], q);
                                assert(next[j] == pre[j]);
                            }
                            if q == p@ {
                                assert(names_person(next[i as int], q));
                            }
                        }
                    }
                }
            },
            None => {
                proof {
                    assert forall|q: Seq<char>| #[trigger] views(others@).contains(q) == is_contributor(next, me@, q) by {
                        if is_contributor(next, me@, q) {
                            let j = choose|j: int| 0 <= j < next.len() && #[trigger] names_person(next[j], q);
                            assert(j < i);
                            assert(pre[j] == next[j]);
                        }
                        if is_contributor(pre, me@, q) {
                            let j = choose|j: int| 0 <= j < pre.len() && #[trigger] names_person(pre[j], q);
                            assert(next[j] == pre[j]);
                        }
                    }
                }
            },
        }
        i = i + 1;
    }
    proof {
        assert(persons@.take(i as int) =~= persons@);
    }
    let sorted = sort_strings(&others);
    proof {
        let a = views(others@);
        let b = views(sorted@);
        assert forall|q: Seq<char>| #[trigger] b.contains(q) == a.contains(q) by {
            vstd::seq_lib::to_multiset_contains(a, q);
            vstd::seq_lib::to_multiset_contains(b, q);
        }
        a.lemma_multiset_has_no_duplicates();
        assert(b.to_multiset() == a.to_multiset());
        b.lemma_multiset_has_no_duplicates_conv();
    }
    (mine, sorted)
}

} // verus!

verus! {

proof fn lemma_key_value_at(lines: Seq<Seq<char>>, key: Seq<char>, j: int)
    requires
        0 <= j < lines.len(),
        forall|t: int| 0 <= t < j ==> !has_prefix(#[trigger] lines[t], key + seq!['=']),
        has_prefix(lines[j], key + seq!['=']),
    ensures
        key_value(lines, key) == Some(lines[j].skip(key.len() as int + 1)),
    decreases j,
{
    if j > 0 {
        assert forall|t: int| 0 <= t < j - 1 implies !has_prefix(#[trigger] lines.drop_first()[t], key + seq!['=']) by {
            assert(lines.drop_first()[t] == lines[t + 1]);
        }
        assert(!has_prefix(lines[0], key + seq!['=']));
        lemma_key_value_at(lines.drop_first(), key, j - 1);
    }
}

proof fn lemma_key_value_same(a: Seq<Seq<char>>, b: Seq<Seq<char>>, key: Seq<char>)
    requires
        a.len() == b.len(),
        forall|t: int| 0 <= t < a.len() ==> has_prefix(#[trigger] a[t], key + seq!['=']) == has_prefix(b[t], key + seq!['=']),
        forall|t: int| 0 <= t < a.len() && has_prefix(#[trigger] a[t], key + seq!['=']) ==> a[t] == b[t],
    ensures
        key_value(a, key) == key_value(b, key),
    decreases a.len(),
{
    if a.len() > 0 {
        assert(has_prefix(a[0], key + seq!['=']) == has_prefix(b[0], key + seq!['=']));
        lemma_key_value_same(a.drop_first(), b.drop_first(), key);
        assert forall|t: int| 0 <= t < a.len() - 1 implies has_prefix(#[trigger] a.drop_first()[t], key + seq!['='])
            == has_prefix(b.drop_first()[t], key + seq!['=']) by {
            assert(a.drop_first()[t] == a[t + 1]);
            assert(b.drop_first()[t] == b[t + 1]);
        }
    }
}

proof fn lemma_key_value_push(a: Seq<Seq<char>>, row: Seq<char>, key: Seq<char>)
    requires
        !has_prefix(row, key + seq!['=']),
    ensures
        key_value(a.push(row), key) == key_value(a, key),
    decreases a.len(),
{
    if a.len() > 0 {
        assert(a.push(row).drop_first() =~= a.drop_first().push(row));
        assert(a.push(row)[0] == a[0]);
        lemma_key_value_push(a.drop_first(), row, key);
    } else {
        assert(a.push(row).drop_first() =~= Seq::<Seq<char>>::empty());
        assert(a.push(row)[0] == row);
        assert(key_value(a.push(row), key) == key_value(a.push(row).drop_first(), key));
    }
}

/// A line for `key` never reads as one for a different key, when keys hold no `=`.
proof fn lemma_keys_apart(line: Seq<char>, key: Seq<char>, other: Seq<char>)
    requires
        has_prefix(line, key + seq!['=']),
        free_of(key, '='),
        free_of(other, '='),
        other != key,
    ensures
        !has_prefix(line, other + seq!['=']),
{
    if has_prefix(line, other + seq!['=']) {
        let kp = key + seq!['='];
        let op = other + seq!['='];
        if other.len() < key.len() {
            assert(line[other.len() as int] == op[other.len() as int]);
            assert(line[other.len() as int] == kp[other.len() as int]);
            assert(kp[other.len() as int] == key[other.len() as int]);
        } else if other.len() > key.len() {
            assert(line[key.len() as int] == kp[key.len() as int]);
            assert(line[key.len() as int] == op[key.len() as int]);
            assert(op[key.len() as int] == other[key.len() as int]);
        } else {
            assert forall|t: int| 0 <= t < key.len() implies key[t] == other[t] by {
                assert(line[t] == kp[t]);
                assert(line[t] == op[t]);
            }
            assert(key =~= other);
        }
    }
}

proof fn lemma_split_pieces_free(s: Seq<char>, c: char, d: char)
    requires
        free_of(s, d),
    ensures
        forall|i: int| 0 <= i < split_spec(s, c).len() ==> free_of(#[trigger] split_spec(s, c)[i], c) && free_of(
            split_spec(s, c)[i],
            d,
        ),
    decreases s.len(),
{
    crate::text::lemma_idx_of_bounds(s, c);
    let i = crate::text::idx_of(s, c);
    if i < s.len() {
        let rest = s.skip(i + 1);
        assert forall|k: int| 0 <= k < rest.len() implies rest[k] != d by {
            assert(rest[k] == s[i + 1 + k]);
        }
        lemma_split_pieces_free(rest, c, d);
        let sp = split_spec(s, c);
        assert(sp == seq![s.take(i)] + split_spec(rest, c));
        assert forall|j: int| 0 <= j < sp.len() implies free_of(#[trigger] sp[j], c) && free_of(sp[j], d) by {
            if j > 0 {
                assert(sp[j] == split_spec(rest, c)[j - 1]);
            }
        }
    } else {
        assert(split_spec(s, c) == seq![s]);
    }
}

/// Setting a `.reel` key and reading it back gives the value set, and every other
/// key reads as before — the marker's other lines are left intact. (Keys hold no
/// `=`; nothing holds a line break or a carriage return.)
pub proof fn lemma_meta_set_get(text: Option<Seq<char>>, key: Seq<char>, value: Seq<char>, other: Seq<char>)
    requires
        text matches Some(t) ==> free_of(t, '\r'),
        free_of(key, '='),
        free_of(key, '\n'),
        free_of(key, '\r'),
        free_of(value, '\n'),
        free_of(value, '\r'),
        free_of(other, '='),
    ensures
        key_value(lines_spec(set_meta_spec(text, key, value)), key) == Some(value),
        other != key ==> key_value(lines_spec(set_meta_spec(text, key, value)), other) == key_value(
            match text {
                Some(t) => lines_spec(t),
                None => Seq::empty(),
            },
            other,
        ),
{
    reveal_strlit("reel project");
    let lines = match text {
        Some(t) => lines_spec(t),
        None => Seq::<Seq<char>>::empty(),
    };
    // The given lines hold no line break or carriage return.
    assert forall|j: int| 0 <= j < lines.len() implies free_of(#[trigger] lines[j], '\n') && free_of(lines[j], '\r') by {
        if let Some(t) = text {
            lemma_split_pieces_free(t, '\n', '\r');
            crate::text::lemma_split_nonempty(t, '\n');
            let parts = split_spec(t, '\n');
            let n = parts.len();
            if j < n - 1 {
                assert(lines[j] == strip_cr(parts[j]));
                assert(free_of(parts[j], '\r'));
                assert(strip_cr(parts[j]) == parts[j]);
            } else {
                assert(lines[j] == parts[n - 1]);
            }
        }
    }
    let base = if lines.len() == 0 { seq!["reel project"@] } else { lines };
    assert forall|j: int| 0 <= j < base.len() implies free_of(#[trigger] base[j], '\n') && free_of(base[j], '\r') by {
        if lines.len() == 0 {
            assert(base[j] == "reel project"@);
        }
    }
    let row = key + seq!['='] + value;
    assert(free_of(row, '\n') && free_of(row, '\r'));
    assert(has_prefix(row, key + seq!['='])) by {
        assert(row.take((key + seq!['=']).len() as int) =~= key + seq!['=']);
    }
    assert(row.skip(key.len() as int + 1) =~= value);
    crate::trips::lemma_first_keyed_bounds(base, key);
    let i = first_keyed(base, key);
    let out = set_lines(lines, key, value);
    assert(out.len() >= 1);
    assert forall|j: int| 0 <= j < out.len() implies free_of(#[trigger] out[j], '\n') && free_of(out[j], '\r') by {
        if j != i {
            assert(out[j] == base[j]);
        }
    }
    // Written and read back, the lines are the same lines.
    let parts = out.push(Seq::empty());
    crate::text::lemma_join_push(out, Seq::empty(), '\n');
    assert(join_with(parts, '\n') =~= join_with(out, '\n') + seq!['\n']);
    assert forall|j: int| 0 <= j < parts.len() implies crate::text::free_of(#[trigger] parts[j], '\n') by {
        if j < out.len() {
            assert(parts[j] == out[j]);
        }
    }
    crate::text::lemma_split_join(parts, '\n');
    assert forall|j: int| 0 <= j < out.len() implies strip_cr(#[trigger] out[j]) == out[j] by {
        assert(free_of(out[j], '\r'));
        if out[j].len() > 0 {
            assert(out[j].last() == out[j][out[j].len() - 1]);
        }
    }
    assert(parts.take(parts.len() - 1) =~= out);
    assert(lines_spec(set_meta_spec(text, key, value)) =~= out);
    // The key reads as the value.
    if i < base.len() {
        assert forall|t: int| 0 <= t < i implies !has_prefix(#[trigger] out[t], key + seq!['=']) by {
            assert(out[t] == base[t]);
        }
        lemma_key_value_at(out, key, i);
    } else {
        assert forall|t: int| 0 <= t < base.len() implies !has_prefix(#[trigger] out[t], key + seq!['=']) by {
            assert(out[t] == base[t]);
        }
        lemma_key_value_at(out, key, base.len() as int);
    }
    // Every other key reads as before.
    if other != key {
        lemma_keys_apart(row, key, other);
        if i < base.len() {
            lemma_keys_apart(base[i], key, other);
            assert forall|t: int| 0 <= t < base.len() implies has_prefix(#[trigger] base[t], other + seq!['='])
                == has_prefix(out[t], other + seq!['=']) by {
                if t != i {
                    assert(out[t] == base[t]);
                }
            }
            assert forall|t: int| 0 <= t < base.len() && has_prefix(#[trigger] base[t], other + seq!['=']) implies base[t]
                == out[t] by {
                if t != i {
                    assert(out[t] == base[t]);
                }
            }
            lemma_key_value_same(base, out, other);
        } else {
            lemma_key_value_push(base, row, other);
        }
        if lines.len() == 0 {
            assert(!has_prefix("reel project"@, other + seq!['='])) by {
                if has_prefix("reel project"@, other + seq!['=']) {
                    let p = other + seq!['='];
                    assert("reel project"@[other.len() as int] == p[other.len() as int]);
                }
            }
            assert(key_value(base, other) == key_value(base.drop_first(), other));
            assert(base.drop_first() =~= Seq::<Seq<char>>::empty());
        }
    }
}

pub proof fn lemma_first_keyed_bounds(lines: Seq<Seq<char>>, key: Seq<char>)
    ensures
        0 <= first_keyed(lines, key) <= lines.len(),
        forall|t: int| 0 <= t < first_keyed(lines, key) ==> !has_prefix(#[trigger] lines[t], key + seq!['=']),
        first_keyed(lines, key) < lines.len() ==> has_prefix(lines[first_keyed(lines, key)], key + seq!['=']),
    decreases lines.len(),
{
    if lines.len() > 0 && !has_prefix(lines[0], key + seq!['=']) {
        lemma_first_keyed_bounds(lines.drop_first(), key);
        assert forall|t: int| 0 <= t < first_keyed(lines, key) implies !has_prefix(#[trigger] lines[t], key + seq!['=']) by {
            if t > 0 {
                assert(lines[t] == lines.drop_first()[t - 1]);
            }
        }
    }
}

} // verus!

verus! {

/// The cover clip of a trip is the first master over 1 MiB (a real clip, not a
/// stub), else the first master; `sizes` are the masters' sizes in order, `None`
/// when unreadable. `big` is what makes a master a real clip: over 1 MiB.
pub open spec fn big(size: Option<u64>) -> bool {
    size matches Some(n) && n > 1_048_576
}

pub fn cover_pick(sizes: &[Option<u64>]) -> (r: Option<usize>)
    ensures
        match r {
            None => sizes@.len() == 0,
            Some(i) => i < sizes@.len() && ((big(sizes@[i as int]) && forall|j: int| 0 <= j < i ==> !big(
                #[trigger] sizes@[j],
            )) || (i == 0 && forall|j: int| 0 <= j < sizes@.len() ==> !big(#[trigger] sizes@[j]))),
        },
{
    let mut i: usize = 0;
    while i < sizes.len()
        invariant
            i <= sizes@.len(),
            forall|j: int| 0 <= j < i ==> !big(#[trigger] sizes@[j]),
        decreases sizes@.len() - i,
    {
        let is_big = match sizes[i] {
            Some(n) => n > 1_048_576,
            None => false,
        };
        if is_big {
            return Some(i);
        }
        i = i + 1;
    }
    if sizes.len() > 0 {
        Some(0)
    } else {
        None
    }
}

/// A capture time as the dashboard shows it: only a real (positive) one.
pub fn known_time(t: Option<i64>) -> (r: Option<i64>)
    ensures
        r == (match t {
            Some(x) => if x > 0 { Some(x) } else { None },
            None => None,
        }),
{
    match t {
        Some(x) => if x > 0 { Some(x) } else { None },
        None => None,
    }
}

/// How many of the files in `clips/` are cut clips (`mp4`, any case).
pub open spec fn cuts_count(files: Seq<Seq<char>>) -> nat
    decreases files.len(),
{
    if files.len() == 0 {
        0
    } else {
        cuts_count(files.drop_last()) + if crate::edit::is_cut_spec(files.last()) { 1nat } else { 0nat }
    }
}

pub fn count_cuts(files: &[String]) -> (n: usize)
    ensures
        n == cuts_count(views(files@)),
{
    let mut n: usize = 0;
    let mut i: usize = 0;
    while i < files.len()
        invariant
            i <= files@.len(),
            n == cuts_count(views(files@).take(i as int)),
            n <= i,
        decreases files@.len() - i,
    {
        proof {
            assert(views(files@).take(i + 1).drop_last() =~= views(files@).take(i as int));
        }
        if crate::edit::is_cut(files[i].as_str()) {
            n = n + 1;
        }
        i = i + 1;
    }
    proof {
        assert(views(files@).take(i as int) =~= views(files@));
    }
    n
}

/// The share state of each trip folder, by name; `values` are the folders'
/// `(name, share= value)`.
pub fn trip_shares(values: &[(String, Option<String>)]) -> (r: Vec<(String, Share)>)
    ensures
        r@.len() == values@.len(),
        forall|i: int|
            0 <= i < values@.len() ==> (#[trigger] r@[i]).0@ == values@[i].0@ && r@[i].1 == share_spec(
                crate::organize::opt_view(values@[i].1),
            ),
{
    let mut r: Vec<(String, Share)> = Vec::new();
    let mut i: usize = 0;
    while i < values.len()
        invariant
            i <= values@.len(),
            r@.len() == i,
            forall|j: int|
                0 <= j < i ==> (#[trigger] r@[j]).0@ == values@[j].0@ && r@[j].1 == share_spec(
                    crate::organize::opt_view(values@[j].1),
                ),
        decreases values@.len() - i,
    {
        let v = match &values[i].1 {
            Some(s) => Some(s.as_str()),
            None => None,
        };
        r.push((values[i].0.clone(), share_of(v)));
        i = i + 1;
    }
    r
}

} // verus!
