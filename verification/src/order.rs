//! Ordering lists for people to read: a stable sort by a text key, and the
//! lower-cased text that names and display names are ordered by.
use crate::text::{chars_of, lemma_lex_irreflexive, lemma_lex_total, lemma_lex_transitive, lex_lt, lex_order};
use vstd::prelude::*;

verus! {

/// What `str::to_lowercase` makes of a text: its characters mapped to lower case
/// by the Unicode tables of std.
pub uninterp spec fn lowercase_of(s: Seq<char>) -> Seq<char>;

/// `str::to_lowercase`. The contract claims only that the result is
/// `lowercase_of` the text.
#[verifier::external_body]
pub(crate) fn to_lowercase(s: &str) -> (r: String)
    ensures
        r@ == lowercase_of(s@),
{
    s.to_lowercase()
}

/// Where an item with key `k` goes among `t`: before the first item whose key
/// is greater, after all the others.
pub open spec fn first_greater<V>(t: Seq<(Seq<char>, V)>, k: Seq<char>) -> int
    decreases t.len(),
{
    if t.len() == 0 {
        0
    } else if lex_lt(k, t[0].0) {
        0
    } else {
        1 + first_greater(t.drop_first(), k)
    }
}

/// `s` in the order of its keys, items with equal keys in the order they came:
/// each item in turn goes after every earlier item whose key is not greater. This
/// is what a stable sort comparing the keys gives.
pub open spec fn stable_sort<V>(s: Seq<(Seq<char>, V)>) -> Seq<(Seq<char>, V)>
    decreases s.len(),
{
    if s.len() == 0 {
        Seq::empty()
    } else {
        let t = stable_sort(s.drop_last());
        t.insert(first_greater(t, s.last().0), s.last())
    }
}

/// No item's key is below an earlier one's.
pub open spec fn key_sorted<V>(t: Seq<(Seq<char>, V)>) -> bool {
    forall|i: int, j: int| 0 <= i < j < t.len() ==> !lex_lt(#[trigger] t[j].0, #[trigger] t[i].0)
}

proof fn lemma_first_greater<V>(t: Seq<(Seq<char>, V)>, k: Seq<char>)
    ensures
        0 <= first_greater(t, k) <= t.len(),
        forall|q: int| 0 <= q < first_greater(t, k) ==> !lex_lt(k, #[trigger] t[q].0),
        first_greater(t, k) < t.len() ==> lex_lt(k, t[first_greater(t, k)].0),
    decreases t.len(),
{
    if t.len() > 0 && !lex_lt(k, t[0].0) {
        lemma_first_greater(t.drop_first(), k);
        assert forall|q: int| 0 <= q < first_greater(t, k) implies !lex_lt(k, #[trigger] t[q].0) by {
            if q > 0 {
                assert(t[q] == t.drop_first()[q - 1]);
            }
        }
    }
}

/// The position found by scanning: the first item whose key is greater.
proof fn lemma_first_greater_at<V>(t: Seq<(Seq<char>, V)>, k: Seq<char>, p: int)
    requires
        0 <= p <= t.len(),
        forall|q: int| 0 <= q < p ==> !lex_lt(k, #[trigger] t[q].0),
        p < t.len() ==> lex_lt(k, t[p].0),
    ensures
        first_greater(t, k) == p,
{
    lemma_first_greater(t, k);
    let g = first_greater(t, k);
    if g < p {
        assert(!lex_lt(k, t[g].0));
    } else if p < g {
        assert(!lex_lt(k, t[p].0));
    }
}

proof fn lemma_lex_asym(a: Seq<char>, b: Seq<char>)
    requires
        lex_lt(a, b),
    ensures
        !lex_lt(b, a),
{
    if lex_lt(b, a) {
        lemma_lex_transitive(a, b, a);
        lemma_lex_irreflexive(a);
    }
}

/// The stable sort keeps every item, and puts the keys in order.
pub proof fn lemma_stable_sort<V>(s: Seq<(Seq<char>, V)>)
    ensures
        stable_sort(s).len() == s.len(),
        stable_sort(s).to_multiset() == s.to_multiset(),
        key_sorted(stable_sort(s)),
    decreases s.len(),
{
    broadcast use vstd::seq_lib::to_multiset_build, vstd::seq_lib::to_multiset_insert;

    if s.len() > 0 {
        let t = stable_sort(s.drop_last());
        lemma_stable_sort(s.drop_last());
        let x = s.last();
        let p = first_greater(t, x.0);
        lemma_first_greater(t, x.0);
        let r = t.insert(p, x);
        assert(s =~= s.drop_last().push(x));
        vstd::seq_lib::to_multiset_insert(t, p, x);
        vstd::seq_lib::to_multiset_build(s.drop_last(), x);
        assert(stable_sort(s) == r);
        assert(r.to_multiset() =~= s.to_multiset());
        assert forall|i: int, j: int| 0 <= i < j < r.len() implies !lex_lt(#[trigger] r[j].0, #[trigger] r[i].0) by {
            if j < p {
                assert(r[i] == t[i] && r[j] == t[j]);
            } else if j == p {
                assert(r[j] == x && r[i] == t[i]);
            } else if i == p {
                assert(r[i] == x);
                assert(r[j] == t[j - 1]);
                // x's key is below t[p]'s, which is not above t[j - 1]'s.
                assert(lex_lt(x.0, t[p].0));
                if j - 1 == p {
                    lemma_lex_asym(x.0, t[p].0);
                } else {
                    assert(!lex_lt(t[j - 1].0, t[p].0));
                    if t[j - 1].0 != t[p].0 {
                        lemma_lex_total(t[j - 1].0, t[p].0);
                        lemma_lex_transitive(x.0, t[p].0, t[j - 1].0);
                    }
                    lemma_lex_asym(x.0, t[j - 1].0);
                }
            } else if i < p {
                assert(r[i] == t[i] && r[j] == t[j - 1]);
            } else {
                assert(r[i] == t[i - 1] && r[j] == t[j - 1]);
            }
        }
    } else {
        assert(s =~= Seq::<(Seq<char>, V)>::empty());
        assert(stable_sort(s) =~= s);
    }
}

/// Items `(key, value)` seen through `f`.
pub open spec fn keyed_view<T, V>(s: Seq<(String, T)>, f: spec_fn(T) -> V) -> Seq<(Seq<char>, V)> {
    s.map_values(|p: (String, T)| (p.0@, f(p.1)))
}

/// Sorts `v` stably by its text keys; `f` is how a caller views the items.
pub(crate) fn sort_keyed<T, V>(v: Vec<(String, T)>, Ghost(f): Ghost<spec_fn(T) -> V>) -> (r: Vec<(String, T)>)
    ensures
        keyed_view(r@, f) == stable_sort(keyed_view(v@, f)),
{
    let ghost sv = keyed_view(v@, f);
    let n = v.len();
    let mut rest = v;
    let mut r: Vec<(String, T)> = Vec::new();
    let mut i: usize = 0;
    while rest.len() > 0
        invariant
            i + rest@.len() == sv.len(),
            sv.len() <= usize::MAX,
            keyed_view(rest@, f) == sv.skip(i as int),
            keyed_view(r@, f) == stable_sort(sv.take(i as int)),
        decreases rest@.len(),
    {
        let ghost old_rest = rest@;
        let x = rest.remove(0);
        let ghost xv = (x.0@, f(x.1));
        proof {
            assert(rest@ =~= old_rest.drop_first());
            assert(keyed_view(old_rest, f)[0] == sv.skip(i as int)[0]);
            assert forall|q: int| 0 <= q < rest@.len() implies #[trigger] keyed_view(rest@, f)[q] == sv.skip(i + 1)[q] by {
                assert(keyed_view(old_rest, f)[q + 1] == sv.skip(i as int)[q + 1]);
            }
            assert(keyed_view(rest@, f) =~= sv.skip(i + 1));
            assert(sv[i as int] == xv) by {
                assert(sv.skip(i as int)[0] == sv[i as int]);
            }
            assert(sv.take(i + 1).drop_last() =~= sv.take(i as int));
        }
        let ghost t = keyed_view(r@, f);
        let kc = chars_of(x.0.as_str());
        let mut p: usize = 0;
        while p < r.len()
            invariant
                p <= r@.len(),
                t == keyed_view(r@, f),
                kc@ == xv.0,
                forall|q: int| 0 <= q < p ==> !lex_lt(xv.0, #[trigger] t[q].0),
            ensures
                p <= r@.len(),
                forall|q: int| 0 <= q < p ==> !lex_lt(xv.0, #[trigger] t[q].0),
                p < r@.len() ==> lex_lt(xv.0, t[p as int].0),
            decreases r@.len() - p,
        {
            let rc = chars_of(r[p].0.as_str());
            proof {
                assert(t[p as int].0 == r@[p as int].0@);
            }
            if lex_order(kc.as_slice(), rc.as_slice()) == -1 {
                break;
            }
            p = p + 1;
        }
        proof {
            lemma_first_greater_at(t, xv.0, p as int);
        }
        r.insert(p, x);
        i = i + 1;
        proof {
            assert(keyed_view(r@, f) =~= t.insert(p as int, xv));
        }
    }
    proof {
        assert(sv.take(i as int) =~= sv);
    }
    r
}

/// The values of keyed items seen through `f`.
pub open spec fn values_view<T, V>(s: Seq<(String, T)>, f: spec_fn(T) -> V) -> Seq<V> {
    s.map_values(|p: (String, T)| f(p.1))
}

/// Items seen through `f`.
pub open spec fn items_view<T, V>(s: Seq<T>, f: spec_fn(T) -> V) -> Seq<V> {
    s.map_values(|t: T| f(t))
}

/// The values of sorted items, keys dropped.
pub(crate) fn values_of<T, V>(v: Vec<(String, T)>, Ghost(f): Ghost<spec_fn(T) -> V>) -> (r: Vec<T>)
    ensures
        items_view(r@, f) == values_view(v@, f),
{
    let ghost sv = values_view(v@, f);
    let n = v.len();
    let mut rest = v;
    let mut r: Vec<T> = Vec::new();
    let mut i: usize = 0;
    while rest.len() > 0
        invariant
            i + rest@.len() == sv.len(),
            sv.len() <= usize::MAX,
            values_view(rest@, f) == sv.skip(i as int),
            items_view(r@, f) == sv.take(i as int),
        decreases rest@.len(),
    {
        let ghost old_rest = rest@;
        let x = rest.remove(0);
        proof {
            assert(rest@ =~= old_rest.drop_first());
            assert(values_view(old_rest, f)[0] == sv.skip(i as int)[0]);
            assert forall|q: int| 0 <= q < rest@.len() implies #[trigger] values_view(rest@, f)[q] == sv.skip(i + 1)[q] by {
                assert(values_view(old_rest, f)[q + 1] == sv.skip(i as int)[q + 1]);
            }
            assert(values_view(rest@, f) =~= sv.skip(i + 1));
            assert(sv.skip(i as int)[0] == sv[i as int]);
            assert(f(x.1) == sv[i as int]);
            assert(x == old_rest[0]);
        }
        let ghost r0 = r@;
        let ghost xt = x.1;
        r.push(x.1);
        proof {
            assert(items_view(r0, f).len() == r0.len());
            assert(sv.take(i as int).len() == i);
            assert(r0.len() == i);
            assert(r@ == r0.push(xt));
            assert(r@[i as int] == xt);
            assert(items_view(r@, f)[i as int] == f(xt));
            assert(items_view(r0, f) =~= sv.take(i as int));
        }
        i = i + 1;
        proof {
            assert(items_view(r@, f) =~= sv.take(i as int));
        }
    }
    proof {
        assert(sv.take(i as int) =~= sv);
    }
    r
}

/// The values of `s` sorted stably by `key`.
pub open spec fn sorted_by<V>(s: Seq<V>, key: spec_fn(V) -> Seq<char>) -> Seq<V> {
    stable_sort(s.map_values(|v: V| (key(v), v))).map_values(|q: (Seq<char>, V)| q.1)
}

/// Sorting by a key keeps exactly the values there were (each as often: a list
/// without repeats stays without repeats), and puts their keys in order.
pub proof fn lemma_sorted_by<V>(s: Seq<V>, key: spec_fn(V) -> Seq<char>)
    ensures
        sorted_by(s, key).len() == s.len(),
        forall|v: V| sorted_by(s, key).contains(v) <==> s.contains(v),
        s.no_duplicates() ==> sorted_by(s, key).no_duplicates(),
        forall|a: int, b: int|
            0 <= a < b < s.len() ==> !lex_lt(key(#[trigger] sorted_by(s, key)[b]), key(#[trigger] sorted_by(s, key)[a])),
{
    broadcast use vstd::seq_lib::to_multiset_contains;

    let ks = s.map_values(|v: V| (key(v), v));
    let sk = stable_sort(ks);
    lemma_stable_sort(ks);
    let t = sorted_by(s, key);
    assert(t == sk.map_values(|q: (Seq<char>, V)| q.1));
    assert forall|i: int| 0 <= i < sk.len() implies #[trigger] sk[i] == (key(sk[i].1), sk[i].1) && s.contains(sk[i].1) by {
        assert(sk.contains(sk[i]));
        vstd::seq_lib::to_multiset_contains(sk, sk[i]);
        vstd::seq_lib::to_multiset_contains(ks, sk[i]);
        let j = choose|j: int| 0 <= j < ks.len() && ks[j] == sk[i];
        assert(ks[j] == (key(s[j]), s[j]));
    }
    assert forall|v: V| t.contains(v) <==> s.contains(v) by {
        if t.contains(v) {
            let i = choose|i: int| 0 <= i < t.len() && t[i] == v;
            assert(sk[i].1 == v);
        }
        if s.contains(v) {
            let j = choose|j: int| 0 <= j < s.len() && s[j] == v;
            assert(ks.contains(ks[j]));
            vstd::seq_lib::to_multiset_contains(ks, ks[j]);
            vstd::seq_lib::to_multiset_contains(sk, ks[j]);
            let i = choose|i: int| 0 <= i < sk.len() && sk[i] == ks[j];
            assert(t[i] == v);
        }
    }
    if s.no_duplicates() {
        assert(ks.no_duplicates()) by {
            assert forall|i: int, j: int| 0 <= i < ks.len() && 0 <= j < ks.len() && i != j implies ks[i] != ks[j] by {
                assert(s[i] != s[j]);
            }
        }
        ks.lemma_multiset_has_no_duplicates();
        sk.lemma_multiset_has_no_duplicates_conv();
        assert forall|a: int, b: int| 0 <= a < t.len() && 0 <= b < t.len() && a != b implies t[a] != t[b] by {
            if t[a] == t[b] {
                assert(sk[a] == (key(sk[a].1), sk[a].1));
                assert(sk[b] == (key(sk[b].1), sk[b].1));
                assert(sk[a] == sk[b]);
            }
        }
    }
    assert forall|a: int, b: int| 0 <= a < b < s.len() implies !lex_lt(key(#[trigger] t[b]), key(#[trigger] t[a])) by {
        assert(sk[a] == (key(sk[a].1), sk[a].1));
        assert(sk[b] == (key(sk[b].1), sk[b].1));
        assert(!lex_lt(sk[b].0, sk[a].0));
    }
}

} // verus!
