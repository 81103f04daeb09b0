//! Cloud sync: compute a trip's drift from the shared cloud.
//!
//! A clip's identity across the three sets is its cloud-relative path
//! `person/camera/base` plus byte size:
//!   - **L** — local masters now,
//!   - **B** — the baseline: clips this machine considers correctly synced,
//!   - **R** — the live (or cached) cloud listing.
//!
//! Status is set arithmetic over (L, B, R). A delete drops the clip from B while an
//! archive leaves B alone, so an archived clip is `L✗ B✓ R✓` → cloud-only (in
//! sync) and an offline-deleted one is `L✗ B✗ R✓` → a zombie to clean. Deriving
//! deletion from B (intent), never from local absence, keeps the two apart.
use crate::model::{SyncBrief, SyncItem, TripSync};
use crate::store::{count_trip, keys_of, op_trip, op_view, strictly_sorted, FileSet, Pending, PendingOp};
use crate::media::{has_ext_spec, is_capture, photo_exts, video_exts};
use crate::paths::{component_strings, component_strs, strip_dir, strip_dir_spec};
use crate::text::{chars_of, first_seg, first_segment, last_seg, last_segment, lex_lt, replace_all, replace_char, str_eq, lemma_lex_transitive};
use vstd::prelude::*;

verus! {

/// The drift bucket a clip falls in.
#[derive(Clone, Copy, PartialEq, Eq, Debug, Structural)]
pub enum Bucket {
    /// Yours, present locally, missing from the cloud → upload.
    ToPush,
    /// In the cloud, not local, someone else's → download.
    ToPull,
    /// Yours, removed locally, still in the cloud → owed cleanup.
    DeletedLocal,
    /// Someone else's, removed from the cloud, still local → orphan.
    DeletedUpstream,
    /// In the cloud and intended, but not on this machine → re-downloadable.
    CloudOnly,
    /// Present both sides at different sizes.
    Conflict,
    /// Nothing to report.
    Settled,
}

/// Look a key up in a map, as an `Option`.
pub open spec fn lookup(m: Map<Seq<char>, u64>, k: Seq<char>) -> Option<u64> {
    if m.contains_key(k) {
        Some(m[k])
    } else {
        None
    }
}

/// The bucket of one clip, and the size its row reports, from its presence and
/// size in L, B and R and whether it is yours.
pub open spec fn bucket_of(mine: bool, l: Option<u64>, b: Option<u64>, r: Option<u64>) -> (Bucket, u64) {
    match (l, b, r) {
        (Some(ls), Some(_), Some(rs)) => if ls == rs { (Bucket::Settled, 0) } else { (Bucket::Conflict, ls) },
        (Some(ls), Some(_), None) => if mine { (Bucket::ToPush, ls) } else { (Bucket::DeletedUpstream, ls) },
        (Some(ls), None, Some(rs)) => if ls == rs { (Bucket::Settled, 0) } else { (Bucket::Conflict, ls) },
        (Some(ls), None, None) => if mine { (Bucket::ToPush, ls) } else { (Bucket::Settled, 0) },
        (None, Some(bs), Some(_)) => (Bucket::CloudOnly, bs),
        (None, Some(_), None) => (Bucket::Settled, 0),
        (None, None, Some(rs)) => if mine { (Bucket::DeletedLocal, rs) } else { (Bucket::ToPull, rs) },
        (None, None, None) => (Bucket::Settled, 0),
    }
}

/// The baseline refresh a comparison implies for one clip: the size to record when
/// both sides agree and the baseline is missing or stale.
pub open spec fn b_update_of(l: Option<u64>, b: Option<u64>, r: Option<u64>) -> Option<u64> {
    match (l, b, r) {
        (Some(ls), Some(bs), Some(rs)) => if ls == rs && bs != ls { Some(ls) } else { None },
        (Some(ls), None, Some(rs)) => if ls == rs { Some(ls) } else { None },
        _ => None,
    }
}

/// Intended but gone both places — the delete completed, so the baseline forgets it.
pub open spec fn b_remove_of(l: Option<u64>, b: Option<u64>, r: Option<u64>) -> bool {
    l is None && b is Some && r is None
}

/// Is `k` a key of L, B or R?
pub open spec fn in_union(l: Map<Seq<char>, u64>, b: Map<Seq<char>, u64>, r: Map<Seq<char>, u64>, k: Seq<char>) -> bool {
    l.contains_key(k) || b.contains_key(k) || r.contains_key(k)
}

/// Is this rel yours (its owner segment is `user`)?
pub open spec fn is_mine(user: Seq<char>, rel: Seq<char>) -> bool {
    first_seg(rel) == user
}

/// The bucket a key lands in, after skipping keys whose cloud copy is mid-move.
pub open spec fn key_bucket(
    user: Seq<char>,
    l: Map<Seq<char>, u64>,
    b: Map<Seq<char>, u64>,
    r: Map<Seq<char>, u64>,
    skip: Map<Seq<char>, u64>,
    k: Seq<char>,
) -> (Bucket, u64) {
    if skip.contains_key(k) {
        (Bucket::Settled, 0)
    } else {
        bucket_of(is_mine(user, k), lookup(l, k), lookup(b, k), lookup(r, k))
    }
}

/// Whether `it` is the row for `rel` with `size`, for a user named `user`.
pub open spec fn item_is(it: SyncItem, user: Seq<char>, rel: Seq<char>, size: u64) -> bool {
    &&& it.rel@ == rel
    &&& it.person@ == first_seg(rel)
    &&& it.name@ == last_seg(rel)
    &&& it.bytes == size
    &&& it.mine == is_mine(user, rel)
}

/// `items` is exactly the rows of bucket `t`: sorted by rel, one per clip of that
/// bucket among the keys of L ∪ B ∪ R, each carrying the bucket's size.
pub open spec fn is_bucket_list(
    items: Seq<SyncItem>,
    t: Bucket,
    user: Seq<char>,
    l: Map<Seq<char>, u64>,
    b: Map<Seq<char>, u64>,
    r: Map<Seq<char>, u64>,
    skip: Map<Seq<char>, u64>,
) -> bool {
    &&& forall|i: int, j: int| 0 <= i < j < items.len() ==> lex_lt(#[trigger] items[i].rel@, #[trigger] items[j].rel@)
    &&& forall|i: int| 0 <= i < items.len() ==> {
        let k = #[trigger] items[i].rel@;
        &&& in_union(l, b, r, k)
        &&& key_bucket(user, l, b, r, skip, k).0 == t
        &&& item_is(items[i], user, k, key_bucket(user, l, b, r, skip, k).1)
    }
    &&& forall|k: Seq<char>| #[trigger] in_union(l, b, r, k) && key_bucket(user, l, b, r, skip, k).0 == t
        ==> exists|i: int| 0 <= i < items.len() && items[i].rel@ == k
}

/// The buckets a (L, B, R) comparison sorts clips into, plus the baseline edits
/// the comparison implies (backfills and orphan-drops).
pub struct Diff {
    pub to_push: Vec<SyncItem>,
    pub to_pull: Vec<SyncItem>,
    pub deleted_local: Vec<SyncItem>,
    pub deleted_upstream: Vec<SyncItem>,
    pub cloud_only: Vec<SyncItem>,
    pub conflicts: Vec<SyncItem>,
    pub b_updates: Vec<(String, u64)>,
    pub b_removes: Vec<String>,
}

/// Build one row: person and basename are read off the rel.
pub fn item(rel: &str, size: u64, user: &str) -> (it: SyncItem)
    ensures
        item_is(it, user@, rel@, size),
{
    let person = first_segment(rel);
    let mine = str_eq(person.as_str(), user);
    SyncItem {
        rel: rel.to_owned(),
        person,
        name: last_segment(rel),
        bytes: size,
        mine,
    }
}

/// Add every key of `from` to `acc` (with size 0), giving a key union.
pub fn add_keys(acc: &mut FileSet, from: &FileSet)
    requires
        old(acc).wf(),
        from.wf(),
    ensures
        final(acc).wf(),
        final(acc)@.dom() == old(acc)@.dom().union(from@.dom()),
{
    let entries = from.entries_vec();
    let mut i: usize = 0;
    while i < entries.len()
        invariant
            acc.wf(),
            entries@ == from.entries(),
            i <= entries@.len(),
            forall|k: Seq<char>| #[trigger] acc@.contains_key(k) <==> (old(acc)@.contains_key(k)
                || exists|j: int| 0 <= j < i && from.keys()[j] == k),
        decreases entries@.len() - i,
    {
        acc.insert(entries[i].0.as_str(), 0);
        proof {
            assert forall|k: Seq<char>| #[trigger] acc@.contains_key(k) <==> (old(acc)@.contains_key(k)
                || exists|j: int| 0 <= j < i + 1 && from.keys()[j] == k) by {
                if k == from.keys()[i as int] {
                    assert(from.keys()[i as int] == k);
                }
            }
        }
        i = i + 1;
    }
    proof {
        assert(acc@.dom() =~= old(acc)@.dom().union(from@.dom()));
    }
}

/// One classified key: its rel, bucket, row size, baseline refresh and drop.
pub struct Tagged {
    pub rel: String,
    pub bucket: Bucket,
    pub size: u64,
    pub update: Option<u64>,
    pub drop: bool,
}

/// The rows of `tagged` in bucket `t`, in order. `src[a]` is the entry row `a`
/// came from.
fn select(tagged: &Vec<Tagged>, t: Bucket, user: &str) -> (res: (Vec<SyncItem>, Ghost<Seq<int>>))
    ensures
        res.1@.len() == res.0@.len(),
        forall|a: int, b: int| 0 <= a < b < res.1@.len() ==> res.1@[a] < res.1@[b],
        forall|a: int| 0 <= a < res.1@.len() ==> {
            let j = #[trigger] res.1@[a];
            &&& 0 <= j < tagged@.len()
            &&& tagged@[j].bucket == t
            &&& item_is(res.0@[a], user@, tagged@[j].rel@, tagged@[j].size)
        },
        forall|j: int| 0 <= j < tagged@.len() && (#[trigger] tagged@[j]).bucket == t
            ==> exists|a: int| 0 <= a < res.1@.len() && res.1@[a] == j,
{
    let mut out: Vec<SyncItem> = Vec::new();
    let ghost mut src: Seq<int> = Seq::empty();
    let mut j: usize = 0;
    while j < tagged.len()
        invariant
            j <= tagged@.len(),
            src.len() == out@.len(),
            forall|a: int, b: int| 0 <= a < b < src.len() ==> src[a] < src[b],
            forall|a: int| 0 <= a < src.len() ==> {
                let k = #[trigger] src[a];
                &&& 0 <= k < j
                &&& tagged@[k].bucket == t
                &&& item_is(out@[a], user@, tagged@[k].rel@, tagged@[k].size)
            },
            forall|k: int| 0 <= k < j && (#[trigger] tagged@[k]).bucket == t
                ==> exists|a: int| 0 <= a < src.len() && src[a] == k,
        decreases tagged@.len() - j,
    {
        if tagged[j].bucket == t {
            let it = item(tagged[j].rel.as_str(), tagged[j].size, user);
            out.push(it);
            proof {
                let old_src = src;
                src = src.push(j as int);
                assert forall|k: int| 0 <= k < j + 1 && (#[trigger] tagged@[k]).bucket == t
                    implies exists|a: int| 0 <= a < src.len() && src[a] == k by {
                    if k == j {
                        assert(src[src.len() - 1] == k);
                    } else {
                        let a = choose|a: int| 0 <= a < old_src.len() && old_src[a] == k;
                        assert(src[a] == k);
                    }
                }
            }
        }
        j = j + 1;
    }
    (out, Ghost(src))
}

/// The baseline refresh for a key after the skip set is applied.
pub open spec fn key_update(
    l: Map<Seq<char>, u64>,
    b: Map<Seq<char>, u64>,
    r: Map<Seq<char>, u64>,
    skip: Map<Seq<char>, u64>,
    k: Seq<char>,
) -> Option<u64> {
    if skip.contains_key(k) { None } else { b_update_of(lookup(l, k), lookup(b, k), lookup(r, k)) }
}

/// Whether a key's baseline row is dropped, after the skip set is applied.
pub open spec fn key_drop(
    l: Map<Seq<char>, u64>,
    b: Map<Seq<char>, u64>,
    r: Map<Seq<char>, u64>,
    skip: Map<Seq<char>, u64>,
    k: Seq<char>,
) -> bool {
    !skip.contains_key(k) && b_remove_of(lookup(l, k), lookup(b, k), lookup(r, k))
}

/// `ups` is exactly the baseline refreshes, sorted by rel.
pub open spec fn is_update_list(
    ups: Seq<(String, u64)>,
    l: Map<Seq<char>, u64>,
    b: Map<Seq<char>, u64>,
    r: Map<Seq<char>, u64>,
    skip: Map<Seq<char>, u64>,
) -> bool {
    &&& forall|i: int, j: int| 0 <= i < j < ups.len() ==> lex_lt(#[trigger] ups[i].0@, #[trigger] ups[j].0@)
    &&& forall|i: int| 0 <= i < ups.len() ==> in_union(l, b, r, #[trigger] ups[i].0@)
        && key_update(l, b, r, skip, ups[i].0@) == Some(ups[i].1)
    &&& forall|k: Seq<char>| #[trigger] in_union(l, b, r, k) && key_update(l, b, r, skip, k) is Some
        ==> exists|i: int| 0 <= i < ups.len() && ups[i].0@ == k
}

/// `rms` is exactly the baseline drops, sorted by rel.
pub open spec fn is_drop_list(
    rms: Seq<String>,
    l: Map<Seq<char>, u64>,
    b: Map<Seq<char>, u64>,
    r: Map<Seq<char>, u64>,
    skip: Map<Seq<char>, u64>,
) -> bool {
    &&& forall|i: int, j: int| 0 <= i < j < rms.len() ==> lex_lt(#[trigger] rms[i]@, #[trigger] rms[j]@)
    &&& forall|i: int| 0 <= i < rms.len() ==> in_union(l, b, r, #[trigger] rms[i]@) && key_drop(l, b, r, skip, rms[i]@)
    &&& forall|k: Seq<char>| #[trigger] in_union(l, b, r, k) && key_drop(l, b, r, skip, k)
        ==> exists|i: int| 0 <= i < rms.len() && rms[i]@ == k
}

/// `d` is the classification of every clip across L, B and R.
pub open spec fn is_diff(
    d: Diff,
    user: Seq<char>,
    l: Map<Seq<char>, u64>,
    b: Map<Seq<char>, u64>,
    r: Map<Seq<char>, u64>,
    skip: Map<Seq<char>, u64>,
) -> bool {
    &&& is_bucket_list(d.to_push@, Bucket::ToPush, user, l, b, r, skip)
    &&& is_bucket_list(d.to_pull@, Bucket::ToPull, user, l, b, r, skip)
    &&& is_bucket_list(d.deleted_local@, Bucket::DeletedLocal, user, l, b, r, skip)
    &&& is_bucket_list(d.deleted_upstream@, Bucket::DeletedUpstream, user, l, b, r, skip)
    &&& is_bucket_list(d.cloud_only@, Bucket::CloudOnly, user, l, b, r, skip)
    &&& is_bucket_list(d.conflicts@, Bucket::Conflict, user, l, b, r, skip)
    &&& is_update_list(d.b_updates@, l, b, r, skip)
    &&& is_drop_list(d.b_removes@, l, b, r, skip)
}

/// What the classification loop establishes about each tagged key.
pub open spec fn tagged_ok(
    tagged: Seq<Tagged>,
    keys: Seq<Seq<char>>,
    user: Seq<char>,
    l: Map<Seq<char>, u64>,
    b: Map<Seq<char>, u64>,
    r: Map<Seq<char>, u64>,
    skip: Map<Seq<char>, u64>,
) -> bool {
    forall|j: int| 0 <= j < tagged.len() ==> {
        let k = keys[j];
        &&& (#[trigger] tagged[j]).rel@ == k
        &&& tagged[j].bucket == key_bucket(user, l, b, r, skip, k).0
        &&& tagged[j].size == key_bucket(user, l, b, r, skip, k).1
        &&& tagged[j].update == key_update(l, b, r, skip, k)
        &&& tagged[j].drop == key_drop(l, b, r, skip, k)
    }
}

proof fn lemma_bucket_list(
    out: Seq<SyncItem>,
    src: Seq<int>,
    tagged: Seq<Tagged>,
    all: FileSet,
    t: Bucket,
    user: Seq<char>,
    l: Map<Seq<char>, u64>,
    b: Map<Seq<char>, u64>,
    r: Map<Seq<char>, u64>,
    skip: Map<Seq<char>, u64>,
)
    requires
        all.wf(),
        all@.dom() == l.dom().union(b.dom()).union(r.dom()),
        tagged.len() == all.keys().len(),
        tagged_ok(tagged, all.keys(), user, l, b, r, skip),
        src.len() == out.len(),
        forall|a: int, c: int| 0 <= a < c < src.len() ==> src[a] < src[c],
        forall|a: int| 0 <= a < src.len() ==> {
            let j = #[trigger] src[a];
            &&& 0 <= j < tagged.len()
            &&& tagged[j].bucket == t
            &&& item_is(out[a], user, tagged[j].rel@, tagged[j].size)
        },
        forall|j: int| 0 <= j < tagged.len() && (#[trigger] tagged[j]).bucket == t
            ==> exists|a: int| 0 <= a < src.len() && src[a] == j,
    ensures
        is_bucket_list(out, t, user, l, b, r, skip),
{
    let keys = all.keys();
    assert forall|a: int| 0 <= a < out.len() implies (keys[src[a]] == #[trigger] out[a].rel@) by {
        let j = src[a];
        assert(tagged[j].rel@ == keys[j]);
    }
    assert forall|a: int, c: int| 0 <= a < c < out.len() implies lex_lt(#[trigger] out[a].rel@, #[trigger] out[c].rel@) by {
        assert(keys[src[a]] == out[a].rel@);
        assert(keys[src[c]] == out[c].rel@);
    }
    assert forall|a: int| 0 <= a < out.len() implies {
        let k = #[trigger] out[a].rel@;
        &&& in_union(l, b, r, k)
        &&& key_bucket(user, l, b, r, skip, k).0 == t
        &&& item_is(out[a], user, k, key_bucket(user, l, b, r, skip, k).1)
    } by {
        let j = src[a];
        assert(tagged[j].rel@ == keys[j]);
        assert(keys.contains(keys[j]));
        assert(all@.contains_key(keys[j]));
    }
    assert forall|k: Seq<char>|
        #[trigger] in_union(l, b, r, k) && key_bucket(user, l, b, r, skip, k).0 == t
        implies exists|a: int| 0 <= a < out.len() && out[a].rel@ == k by {
        assert(all@.contains_key(k));
        let j = choose|j: int| 0 <= j < keys.len() && keys[j] == k;
        assert(tagged[j].bucket == t);
        let a = choose|a: int| 0 <= a < src.len() && src[a] == j;
        assert(tagged[j].rel@ == k);
    }
}

/// The baseline refreshes among `tagged`, in order.
fn select_updates(tagged: &Vec<Tagged>) -> (res: (Vec<(String, u64)>, Ghost<Seq<int>>))
    ensures
        res.1@.len() == res.0@.len(),
        forall|a: int, b: int| 0 <= a < b < res.1@.len() ==> res.1@[a] < res.1@[b],
        forall|a: int| 0 <= a < res.1@.len() ==> {
            let j = #[trigger] res.1@[a];
            &&& 0 <= j < tagged@.len()
            &&& tagged@[j].update == Some(res.0@[a].1)
            &&& res.0@[a].0@ == tagged@[j].rel@
        },
        forall|j: int| 0 <= j < tagged@.len() && (#[trigger] tagged@[j]).update is Some
            ==> exists|a: int| 0 <= a < res.1@.len() && res.1@[a] == j,
{
    let mut out: Vec<(String, u64)> = Vec::new();
    let ghost mut src: Seq<int> = Seq::empty();
    let mut j: usize = 0;
    while j < tagged.len()
        invariant
            j <= tagged@.len(),
            src.len() == out@.len(),
            forall|a: int, b: int| 0 <= a < b < src.len() ==> src[a] < src[b],
            forall|a: int| 0 <= a < src.len() ==> {
                let k = #[trigger] src[a];
                &&& 0 <= k < j
                &&& tagged@[k].update == Some(out@[a].1)
                &&& out@[a].0@ == tagged@[k].rel@
            },
            forall|k: int| 0 <= k < j && (#[trigger] tagged@[k]).update is Some
                ==> exists|a: int| 0 <= a < src.len() && src[a] == k,
        decreases tagged@.len() - j,
    {
        match tagged[j].update {
            Some(size) => {
                out.push((tagged[j].rel.clone(), size));
                proof {
                    let old_src = src;
                    src = src.push(j as int);
                    assert forall|k: int| 0 <= k < j + 1 && (#[trigger] tagged@[k]).update is Some
                        implies exists|a: int| 0 <= a < src.len() && src[a] == k by {
                        if k == j {
                            assert(src[src.len() - 1] == k);
                        } else {
                            let a = choose|a: int| 0 <= a < old_src.len() && old_src[a] == k;
                            assert(src[a] == k);
                        }
                    }
                }
            },
            None => {},
        }
        j = j + 1;
    }
    (out, Ghost(src))
}

/// The baseline drops among `tagged`, in order.
fn select_drops(tagged: &Vec<Tagged>) -> (res: (Vec<String>, Ghost<Seq<int>>))
    ensures
        res.1@.len() == res.0@.len(),
        forall|a: int, b: int| 0 <= a < b < res.1@.len() ==> res.1@[a] < res.1@[b],
        forall|a: int| 0 <= a < res.1@.len() ==> {
            let j = #[trigger] res.1@[a];
            &&& 0 <= j < tagged@.len()
            &&& tagged@[j].drop
            &&& res.0@[a]@ == tagged@[j].rel@
        },
        forall|j: int| 0 <= j < tagged@.len() && (#[trigger] tagged@[j]).drop
            ==> exists|a: int| 0 <= a < res.1@.len() && res.1@[a] == j,
{
    let mut out: Vec<String> = Vec::new();
    let ghost mut src: Seq<int> = Seq::empty();
    let mut j: usize = 0;
    while j < tagged.len()
        invariant
            j <= tagged@.len(),
            src.len() == out@.len(),
            forall|a: int, b: int| 0 <= a < b < src.len() ==> src[a] < src[b],
            forall|a: int| 0 <= a < src.len() ==> {
                let k = #[trigger] src[a];
                &&& 0 <= k < j
                &&& tagged@[k].drop
                &&& out@[a]@ == tagged@[k].rel@
            },
            forall|k: int| 0 <= k < j && (#[trigger] tagged@[k]).drop
                ==> exists|a: int| 0 <= a < src.len() && src[a] == k,
        decreases tagged@.len() - j,
    {
        if tagged[j].drop {
            out.push(tagged[j].rel.clone());
            proof {
                let old_src = src;
                src = src.push(j as int);
                assert forall|k: int| 0 <= k < j + 1 && (#[trigger] tagged@[k]).drop
                    implies exists|a: int| 0 <= a < src.len() && src[a] == k by {
                    if k == j {
                        assert(src[src.len() - 1] == k);
                    } else {
                        let a = choose|a: int| 0 <= a < old_src.len() && old_src[a] == k;
                        assert(src[a] == k);
                    }
                }
            }
        }
        j = j + 1;
    }
    (out, Ghost(src))
}

/// `bucket_of`, computed.
fn bucket_exec(mine: bool, l: Option<u64>, b: Option<u64>, r: Option<u64>) -> (res: (Bucket, u64))
    ensures
        res == bucket_of(mine, l, b, r),
{
    match (l, b, r) {
        (Some(x), Some(_), Some(y)) => if x == y { (Bucket::Settled, 0) } else { (Bucket::Conflict, x) },
        (Some(x), Some(_), None) => if mine { (Bucket::ToPush, x) } else { (Bucket::DeletedUpstream, x) },
        (Some(x), None, Some(y)) => if x == y { (Bucket::Settled, 0) } else { (Bucket::Conflict, x) },
        (Some(x), None, None) => if mine { (Bucket::ToPush, x) } else { (Bucket::Settled, 0) },
        (None, Some(x), Some(_)) => (Bucket::CloudOnly, x),
        (None, Some(_), None) => (Bucket::Settled, 0),
        (None, None, Some(y)) => if mine { (Bucket::DeletedLocal, y) } else { (Bucket::ToPull, y) },
        (None, None, None) => (Bucket::Settled, 0),
    }
}

/// `b_update_of`, computed.
fn update_exec(l: Option<u64>, b: Option<u64>, r: Option<u64>) -> (res: Option<u64>)
    ensures
        res == b_update_of(l, b, r),
{
    match (l, b, r) {
        (Some(x), Some(y), Some(z)) => if x == z && y != x { Some(x) } else { None },
        (Some(x), None, Some(z)) => if x == z { Some(x) } else { None },
        _ => None,
    }
}

/// Classify one key.
fn tag_one(rel: &String, user: &str, l: &FileSet, b: &FileSet, r: &FileSet, skip: &FileSet) -> (t: Tagged)
    requires
        l.wf(),
        b.wf(),
        r.wf(),
        skip.wf(),
    ensures
        t.rel@ == rel@,
        t.bucket == key_bucket(user@, l@, b@, r@, skip@, rel@).0,
        t.size == key_bucket(user@, l@, b@, r@, skip@, rel@).1,
        t.update == key_update(l@, b@, r@, skip@, rel@),
        t.drop == key_drop(l@, b@, r@, skip@, rel@),
{
    let ls = l.get(rel.as_str());
    let bs = b.get(rel.as_str());
    let rs = r.get(rel.as_str());
    let skipped = skip.contains(rel.as_str());
    let person = first_segment(rel.as_str());
    let mine = str_eq(person.as_str(), user);
    let (bucket, size) = if skipped { (Bucket::Settled, 0u64) } else { bucket_exec(mine, ls, bs, rs) };
    let update = if skipped { None } else { update_exec(ls, bs, rs) };
    let drop = !skipped && ls.is_none() && bs.is_some() && rs.is_none();
    Tagged { rel: rel.clone(), bucket, size, update, drop }
}

/// Classify every key of `all`, in order.
fn tag_keys(all: &FileSet, user: &str, l: &FileSet, b: &FileSet, r: &FileSet, skip: &FileSet) -> (tagged: Vec<Tagged>)
    requires
        all.wf(),
        l.wf(),
        b.wf(),
        r.wf(),
        skip.wf(),
    ensures
        tagged@.len() == all.keys().len(),
        tagged_ok(tagged@, all.keys(), user@, l@, b@, r@, skip@),
{
    let entries = all.entries_vec();
    let mut tagged: Vec<Tagged> = Vec::new();
    let mut i: usize = 0;
    while i < entries.len()
        invariant
            entries@ == all.entries(),
            l.wf(),
            b.wf(),
            r.wf(),
            skip.wf(),
            i <= entries@.len(),
            tagged@.len() == i,
            tagged_ok(tagged@, all.keys(), user@, l@, b@, r@, skip@),
        decreases entries@.len() - i,
    {
        let t = tag_one(&entries[i].0, user, l, b, r, skip);
        let ghost old_tagged = tagged@;
        tagged.push(t);
        proof {
            assert forall|j: int| 0 <= j < tagged@.len() implies {
                let k = all.keys()[j];
                &&& (#[trigger] tagged@[j]).rel@ == k
                &&& tagged@[j].bucket == key_bucket(user@, l@, b@, r@, skip@, k).0
                &&& tagged@[j].size == key_bucket(user@, l@, b@, r@, skip@, k).1
                &&& tagged@[j].update == key_update(l@, b@, r@, skip@, k)
                &&& tagged@[j].drop == key_drop(l@, b@, r@, skip@, k)
            } by {
                if j < i {
                    assert(tagged@[j] == old_tagged[j]);
                }
            }
        }
        i = i + 1;
    }
    tagged
}

proof fn lemma_update_list(
    ups: Seq<(String, u64)>,
    src: Seq<int>,
    tagged: Seq<Tagged>,
    all: FileSet,
    user: Seq<char>,
    l: Map<Seq<char>, u64>,
    b: Map<Seq<char>, u64>,
    r: Map<Seq<char>, u64>,
    skip: Map<Seq<char>, u64>,
)
    requires
        all.wf(),
        all@.dom() == l.dom().union(b.dom()).union(r.dom()),
        tagged.len() == all.keys().len(),
        tagged_ok(tagged, all.keys(), user, l, b, r, skip),
        src.len() == ups.len(),
        forall|a: int, c: int| 0 <= a < c < src.len() ==> src[a] < src[c],
        forall|a: int| 0 <= a < src.len() ==> {
            let j = #[trigger] src[a];
            &&& 0 <= j < tagged.len()
            &&& tagged[j].update == Some(ups[a].1)
            &&& ups[a].0@ == tagged[j].rel@
        },
        forall|j: int| 0 <= j < tagged.len() && (#[trigger] tagged[j]).update is Some
            ==> exists|a: int| 0 <= a < src.len() && src[a] == j,
    ensures
        is_update_list(ups, l, b, r, skip),
{
    let keys = all.keys();
    assert forall|a: int, c: int| 0 <= a < c < ups.len() implies lex_lt(#[trigger] ups[a].0@, #[trigger] ups[c].0@) by {
        assert(tagged[src[a]].rel@ == keys[src[a]]);
        assert(tagged[src[c]].rel@ == keys[src[c]]);
    }
    assert forall|a: int| 0 <= a < ups.len() implies in_union(l, b, r, #[trigger] ups[a].0@)
        && key_update(l, b, r, skip, ups[a].0@) == Some(ups[a].1) by {
        let j = src[a];
        assert(tagged[j].rel@ == keys[j]);
        assert(keys.contains(keys[j]));
        assert(all@.contains_key(keys[j]));
    }
    assert forall|k: Seq<char>| #[trigger] in_union(l, b, r, k) && key_update(l, b, r, skip, k) is Some
        implies exists|a: int| 0 <= a < ups.len() && ups[a].0@ == k by {
        assert(all@.contains_key(k));
        let j = choose|j: int| 0 <= j < keys.len() && keys[j] == k;
        assert(tagged[j].rel@ == k);
        let a = choose|a: int| 0 <= a < src.len() && src[a] == j;
    }
}

proof fn lemma_drop_list(
    rms: Seq<String>,
    src: Seq<int>,
    tagged: Seq<Tagged>,
    all: FileSet,
    user: Seq<char>,
    l: Map<Seq<char>, u64>,
    b: Map<Seq<char>, u64>,
    r: Map<Seq<char>, u64>,
    skip: Map<Seq<char>, u64>,
)
    requires
        all.wf(),
        all@.dom() == l.dom().union(b.dom()).union(r.dom()),
        tagged.len() == all.keys().len(),
        tagged_ok(tagged, all.keys(), user, l, b, r, skip),
        src.len() == rms.len(),
        forall|a: int, c: int| 0 <= a < c < src.len() ==> src[a] < src[c],
        forall|a: int| 0 <= a < src.len() ==> {
            let j = #[trigger] src[a];
            &&& 0 <= j < tagged.len()
            &&& tagged[j].drop
            &&& rms[a]@ == tagged[j].rel@
        },
        forall|j: int| 0 <= j < tagged.len() && (#[trigger] tagged[j]).drop
            ==> exists|a: int| 0 <= a < src.len() && src[a] == j,
    ensures
        is_drop_list(rms, l, b, r, skip),
{
    let keys = all.keys();
    assert forall|a: int, c: int| 0 <= a < c < rms.len() implies lex_lt(#[trigger] rms[a]@, #[trigger] rms[c]@) by {
        assert(tagged[src[a]].rel@ == keys[src[a]]);
        assert(tagged[src[c]].rel@ == keys[src[c]]);
    }
    assert forall|a: int| 0 <= a < rms.len() implies in_union(l, b, r, #[trigger] rms[a]@)
        && key_drop(l, b, r, skip, rms[a]@) by {
        let j = src[a];
        assert(tagged[j].rel@ == keys[j]);
        assert(keys.contains(keys[j]));
        assert(all@.contains_key(keys[j]));
    }
    assert forall|k: Seq<char>| #[trigger] in_union(l, b, r, k) && key_drop(l, b, r, skip, k)
        implies exists|a: int| 0 <= a < rms.len() && rms[a]@ == k by {
        assert(all@.contains_key(k));
        let j = choose|j: int| 0 <= j < keys.len() && keys[j] == k;
        assert(tagged[j].rel@ == k);
        let a = choose|a: int| 0 <= a < src.len() && src[a] == j;
    }
}

/// Sort every clip across L, B and R into a bucket. `skip` holds rels whose cloud
/// copy is mid-move (a queued move), so they aren't misread as push/zombie.
/// A clip that is not yours, still here and in the baseline but gone from the
/// cloud, is one its owner removed: it is listed among the deleted-upstream
/// orphans with its local size, and in no other bucket. (A clip whose cloud copy
/// is mid-move, in `skip`, is left out.)
pub proof fn lemma_friend_removed_is_orphan(
    d: Diff,
    user: Seq<char>,
    l: Map<Seq<char>, u64>,
    b: Map<Seq<char>, u64>,
    r: Map<Seq<char>, u64>,
    skip: Map<Seq<char>, u64>,
    k: Seq<char>,
)
    requires
        is_diff(d, user, l, b, r, skip),
        !skip.contains_key(k),
        first_seg(k) != user,
        l.contains_key(k),
        b.contains_key(k),
        !r.contains_key(k),
    ensures
        exists|i: int|
            0 <= i < d.deleted_upstream@.len() && (#[trigger] d.deleted_upstream@[i]).rel@ == k
                && d.deleted_upstream@[i].bytes == l[k] && !d.deleted_upstream@[i].mine,
        forall|i: int| 0 <= i < d.to_push@.len() ==> (#[trigger] d.to_push@[i]).rel@ != k,
        forall|i: int| 0 <= i < d.conflicts@.len() ==> (#[trigger] d.conflicts@[i]).rel@ != k,
        forall|i: int| 0 <= i < d.cloud_only@.len() ==> (#[trigger] d.cloud_only@[i]).rel@ != k,
        forall|i: int| 0 <= i < d.to_pull@.len() ==> (#[trigger] d.to_pull@[i]).rel@ != k,
        forall|i: int| 0 <= i < d.deleted_local@.len() ==> (#[trigger] d.deleted_local@[i]).rel@ != k,
{
    assert(in_union(l, b, r, k));
    assert(key_bucket(user, l, b, r, skip, k) == (Bucket::DeletedUpstream, l[k]));
    let i = choose|i: int| 0 <= i < d.deleted_upstream@.len() && d.deleted_upstream@[i].rel@ == k;
    assert(item_is(d.deleted_upstream@[i], user, k, l[k]));
}

/// Where clips land, case by case (clips mid-move, in `skip`, left out): a clip of
/// yours here but not in the cloud is to push, with its local size; someone
/// else's clip in the cloud, never here and not in the baseline, is to pull, with
/// its cloud size; a clip here and in the cloud at different sizes is a conflict,
/// with its local size; and one here and in the cloud at the same size is in no
/// bucket at all.
pub proof fn lemma_bucket_cases(
    d: Diff,
    user: Seq<char>,
    l: Map<Seq<char>, u64>,
    b: Map<Seq<char>, u64>,
    r: Map<Seq<char>, u64>,
    skip: Map<Seq<char>, u64>,
    k: Seq<char>,
)
    requires
        is_diff(d, user, l, b, r, skip),
        !skip.contains_key(k),
    ensures
        first_seg(k) == user && l.contains_key(k) && !r.contains_key(k) ==> exists|i: int|
            0 <= i < d.to_push@.len() && (#[trigger] d.to_push@[i]).rel@ == k && d.to_push@[i].bytes == l[k],
        first_seg(k) != user && !l.contains_key(k) && !b.contains_key(k) && r.contains_key(k) ==> exists|i: int|
            0 <= i < d.to_pull@.len() && (#[trigger] d.to_pull@[i]).rel@ == k && d.to_pull@[i].bytes == r[k],
        l.contains_key(k) && r.contains_key(k) && l[k] != r[k] ==> exists|i: int|
            0 <= i < d.conflicts@.len() && (#[trigger] d.conflicts@[i]).rel@ == k && d.conflicts@[i].bytes == l[k],
        l.contains_key(k) && r.contains_key(k) && l[k] == r[k] ==> {
            &&& forall|i: int| 0 <= i < d.to_push@.len() ==> (#[trigger] d.to_push@[i]).rel@ != k
            &&& forall|i: int| 0 <= i < d.to_pull@.len() ==> (#[trigger] d.to_pull@[i]).rel@ != k
            &&& forall|i: int| 0 <= i < d.deleted_local@.len() ==> (#[trigger] d.deleted_local@[i]).rel@ != k
            &&& forall|i: int| 0 <= i < d.deleted_upstream@.len() ==> (#[trigger] d.deleted_upstream@[i]).rel@ != k
            &&& forall|i: int| 0 <= i < d.cloud_only@.len() ==> (#[trigger] d.cloud_only@[i]).rel@ != k
            &&& forall|i: int| 0 <= i < d.conflicts@.len() ==> (#[trigger] d.conflicts@[i]).rel@ != k
        },
{
    if first_seg(k) == user && l.contains_key(k) && !r.contains_key(k) {
        assert(in_union(l, b, r, k));
        assert(key_bucket(user, l, b, r, skip, k) == (Bucket::ToPush, l[k]));
        let i = choose|i: int| 0 <= i < d.to_push@.len() && d.to_push@[i].rel@ == k;
        assert(item_is(d.to_push@[i], user, k, l[k]));
    }
    if first_seg(k) != user && !l.contains_key(k) && !b.contains_key(k) && r.contains_key(k) {
        assert(in_union(l, b, r, k));
        assert(key_bucket(user, l, b, r, skip, k) == (Bucket::ToPull, r[k]));
        let i = choose|i: int| 0 <= i < d.to_pull@.len() && d.to_pull@[i].rel@ == k;
        assert(item_is(d.to_pull@[i], user, k, r[k]));
    }
    if l.contains_key(k) && r.contains_key(k) && l[k] != r[k] {
        assert(in_union(l, b, r, k));
        assert(key_bucket(user, l, b, r, skip, k) == (Bucket::Conflict, l[k]));
        let i = choose|i: int| 0 <= i < d.conflicts@.len() && d.conflicts@[i].rel@ == k;
        assert(item_is(d.conflicts@[i], user, k, l[k]));
    }
    if l.contains_key(k) && r.contains_key(k) && l[k] == r[k] {
        assert(key_bucket(user, l, b, r, skip, k).0 == Bucket::Settled);
    }
}

pub fn classify(user: &str, l: &FileSet, b: &FileSet, r: &FileSet, skip: &FileSet) -> (d: Diff)
    requires
        l.wf(),
        b.wf(),
        r.wf(),
        skip.wf(),
    ensures
        is_diff(d, user@, l@, b@, r@, skip@),
{
    let mut all = FileSet::new();
    add_keys(&mut all, l);
    add_keys(&mut all, b);
    add_keys(&mut all, r);
    assert(all@.dom() =~= l@.dom().union(b@.dom()).union(r@.dom()));
    let tagged = tag_keys(&all, user, l, b, r, skip);
    let (to_push, Ghost(s1)) = select(&tagged, Bucket::ToPush, user);
    let (to_pull, Ghost(s2)) = select(&tagged, Bucket::ToPull, user);
    let (deleted_local, Ghost(s3)) = select(&tagged, Bucket::DeletedLocal, user);
    let (deleted_upstream, Ghost(s4)) = select(&tagged, Bucket::DeletedUpstream, user);
    let (cloud_only, Ghost(s5)) = select(&tagged, Bucket::CloudOnly, user);
    let (conflicts, Ghost(s6)) = select(&tagged, Bucket::Conflict, user);
    let (b_updates, Ghost(s7)) = select_updates(&tagged);
    let (b_removes, Ghost(s8)) = select_drops(&tagged);
    proof {
        lemma_bucket_list(to_push@, s1, tagged@, all, Bucket::ToPush, user@, l@, b@, r@, skip@);
        lemma_bucket_list(to_pull@, s2, tagged@, all, Bucket::ToPull, user@, l@, b@, r@, skip@);
        lemma_bucket_list(deleted_local@, s3, tagged@, all, Bucket::DeletedLocal, user@, l@, b@, r@, skip@);
        lemma_bucket_list(deleted_upstream@, s4, tagged@, all, Bucket::DeletedUpstream, user@, l@, b@, r@, skip@);
        lemma_bucket_list(cloud_only@, s5, tagged@, all, Bucket::CloudOnly, user@, l@, b@, r@, skip@);
        lemma_bucket_list(conflicts@, s6, tagged@, all, Bucket::Conflict, user@, l@, b@, r@, skip@);
        lemma_update_list(b_updates@, s7, tagged@, all, user@, l@, b@, r@, skip@);
        lemma_drop_list(b_removes@, s8, tagged@, all, user@, l@, b@, r@, skip@);
    }
    Diff { to_push, to_pull, deleted_local, deleted_upstream, cloud_only, conflicts, b_updates, b_removes }
}

/// The rels of `trip`'s queued moves: their cloud copy is mid-move.
pub open spec fn move_skip(rows: Seq<(i64, PendingOp)>, trip: Seq<char>) -> Map<Seq<char>, u64> {
    Map::new(
        |k: Seq<char>| exists|i: int| 0 <= i < rows.len() && is_move_to(#[trigger] rows[i].1, trip, k),
        |k: Seq<char>| 0u64,
    )
}

/// `op` moves `rel` into `trip`.
pub open spec fn is_move_to(op: PendingOp, trip: Seq<char>, rel: Seq<char>) -> bool {
    match op {
        PendingOp::Move { to, rel: r, .. } => to@ == trip && r@ == rel,
        _ => false,
    }
}

/// A queued rename into `trip`, or a queued purge of it.
pub open spec fn migrates(op: PendingOp, trip: Seq<char>) -> bool {
    match op {
        PendingOp::Rename { new, .. } => new@ == trip,
        PendingOp::Purge { trip: t } => t@ == trip,
        _ => false,
    }
}

pub open spec fn is_migrating_spec(rows: Seq<(i64, PendingOp)>, trip: Seq<char>) -> bool {
    exists|i: int| 0 <= i < rows.len() && migrates(#[trigger] rows[i].1, trip)
}

/// Rels of this trip's queued moves, to skip while classifying.
pub fn pending_move_rels(pending: &Pending, trip: &str) -> (s: FileSet)
    ensures
        s.wf(),
        s@ == move_skip(pending.rows@, trip@),
{
    let mut s = FileSet::new();
    let mut i: usize = 0;
    while i < pending.rows.len()
        invariant
            s.wf(),
            i <= pending.rows@.len(),
            forall|k: Seq<char>| #[trigger] s@.contains_key(k) <==> exists|j: int| 0 <= j < i && is_move_to(#[trigger] pending.rows@[j].1, trip@, k),
            forall|k: Seq<char>| s@.contains_key(k) ==> s@[k] == 0,
        decreases pending.rows@.len() - i,
    {
        match &pending.rows[i].1 {
            PendingOp::Move { to, rel, .. } => {
                if str_eq(to.as_str(), trip) {
                    s.insert(rel.as_str(), 0);
                }
            },
            _ => {},
        }
        proof {
            assert forall|k: Seq<char>| #[trigger] s@.contains_key(k) <==> exists|j: int| 0 <= j < i + 1 && is_move_to(#[trigger] pending.rows@[j].1, trip@, k) by {
                if is_move_to(pending.rows@[i as int].1, trip@, k) {
                    assert(s@.contains_key(k));
                }
            }
        }
        i = i + 1;
    }
    proof { assert(s@ =~= move_skip(pending.rows@, trip@)); }
    s
}

/// A trip whose footage is being relocated in the cloud by a queued rename or
/// whole-trip purge — its clips are up there under the old name until the op
/// replays, so sync must not offer to re-upload or pull them meanwhile.
pub fn is_migrating(pending: &Pending, trip: &str) -> (b: bool)
    ensures
        b == is_migrating_spec(pending.rows@, trip@),
{
    let mut i: usize = 0;
    while i < pending.rows.len()
        invariant
            i <= pending.rows@.len(),
            forall|j: int| 0 <= j < i ==> !migrates(#[trigger] pending.rows@[j].1, trip@),
        decreases pending.rows@.len() - i,
    {
        let hit = match &pending.rows[i].1 {
            PendingOp::Rename { new, .. } => str_eq(new.as_str(), trip),
            PendingOp::Purge { trip: t } => str_eq(t.as_str(), trip),
            _ => false,
        };
        if hit {
            return true;
        }
        i = i + 1;
    }
    false
}

/// A local clip counts as "to share" without the network: yours, and not recorded
/// in the baseline at its current size.
pub open spec fn tier1_key(user: Seq<char>, l: Map<Seq<char>, u64>, b: Map<Seq<char>, u64>, k: Seq<char>) -> bool {
    l.contains_key(k) && is_mine(user, k) && lookup(b, k) != Some(l[k])
}

/// `items` is exactly the network-free "to share" rows: sorted, one per tier-1 key.
pub open spec fn is_tier1_list(items: Seq<SyncItem>, user: Seq<char>, l: Map<Seq<char>, u64>, b: Map<Seq<char>, u64>) -> bool {
    &&& forall|i: int, j: int| 0 <= i < j < items.len() ==> lex_lt(#[trigger] items[i].rel@, #[trigger] items[j].rel@)
    &&& forall|i: int| 0 <= i < items.len() ==> tier1_key(user, l, b, #[trigger] items[i].rel@)
        && item_is(items[i], user, items[i].rel@, l[items[i].rel@])
    &&& forall|k: Seq<char>| #[trigger] tier1_key(user, l, b, k) ==> exists|i: int| 0 <= i < items.len() && items[i].rel@ == k
}

/// Your local masters not yet in the baseline — the network-free "to share" set.
/// With no baseline at all, a trip whose `.reel` records it shared reads as fully
/// shared (footage shared before the baseline existed).
pub fn tier1_to_push(user: &str, l: &FileSet, b: &FileSet, base_exists: bool, shared_flag: bool) -> (items: Vec<SyncItem>)
    requires
        l.wf(),
        b.wf(),
    ensures
        !base_exists && shared_flag ==> items@.len() == 0,
        !(!base_exists && shared_flag) ==> is_tier1_list(items@, user@, l@, b@),
{
    let mut out: Vec<SyncItem> = Vec::new();
    if !base_exists && shared_flag {
        return out;
    }
    let entries = l.entries_vec();
    let ghost mut src: Seq<int> = Seq::empty();
    let mut i: usize = 0;
    while i < entries.len()
        invariant
            entries@ == l.entries(),
            l.wf(),
            b.wf(),
            i <= entries@.len(),
            src.len() == out@.len(),
            forall|a: int, c: int| 0 <= a < c < src.len() ==> src[a] < src[c],
            forall|a: int| 0 <= a < src.len() ==> {
                let j = #[trigger] src[a];
                &&& 0 <= j < i
                &&& out@[a].rel@ == l.keys()[j]
                &&& tier1_key(user@, l@, b@, l.keys()[j])
                &&& item_is(out@[a], user@, l.keys()[j], l@[l.keys()[j]])
            },
            forall|j: int| 0 <= j < i && tier1_key(user@, l@, b@, #[trigger] l.keys()[j])
                ==> exists|a: int| 0 <= a < src.len() && src[a] == j,
        decreases entries@.len() - i,
    {
        let rel = entries[i].0.as_str();
        let size = entries[i].1;
        proof { l.lemma_view_at(i as int); }
        let person = first_segment(rel);
        let mine = str_eq(person.as_str(), user);
        if mine && b.get(rel) != Some(size) {
            let it = item(rel, size, user);
            out.push(it);
            proof {
                let old_src = src;
                src = src.push(i as int);
                assert forall|j: int| 0 <= j < i + 1 && tier1_key(user@, l@, b@, #[trigger] l.keys()[j])
                    implies exists|a: int| 0 <= a < src.len() && src[a] == j by {
                    if j == i {
                        assert(src[src.len() - 1] == j);
                    } else {
                        let a = choose|a: int| 0 <= a < old_src.len() && old_src[a] == j;
                        assert(src[a] == j);
                    }
                }
            }
        }
        i = i + 1;
    }
    proof {
        let keys = l.keys();
        assert forall|a: int, c: int| 0 <= a < c < out@.len() implies lex_lt(#[trigger] out@[a].rel@, #[trigger] out@[c].rel@) by {
            assert(out@[a].rel@ == keys[src[a]]);
            assert(out@[c].rel@ == keys[src[c]]);
        }
        assert forall|a: int| 0 <= a < out@.len() implies tier1_key(user@, l@, b@, #[trigger] out@[a].rel@)
            && item_is(out@[a], user@, out@[a].rel@, l@[out@[a].rel@]) by {
            assert(out@[a].rel@ == keys[src[a]]);
        }
        assert forall|k: Seq<char>| #[trigger] tier1_key(user@, l@, b@, k) implies exists|a: int| 0 <= a < out@.len() && out@[a].rel@ == k by {
            let j = choose|j: int| 0 <= j < keys.len() && keys[j] == k;
            let a = choose|a: int| 0 <= a < src.len() && src[a] == j;
        }
    }
    out
}

/// The cloud listing a status is computed against.
pub enum CloudView {
    /// Fetched live just now (at `now`).
    Live { files: FileSet, now: i64 },
    /// The cached listing: `checked` is when it was fetched (`None` = never), and
    /// `offline` says a refresh was asked for but the remote was unreachable.
    Cached { checked: Option<i64>, files: FileSet, offline: bool },
}

impl CloudView {
    pub open spec fn wf(&self) -> bool {
        match self {
            CloudView::Live { files, .. } => files.wf(),
            CloudView::Cached { files, .. } => files.wf(),
        }
    }

    /// The listing R, when one is known.
    pub open spec fn r(&self) -> Option<Map<Seq<char>, u64>> {
        match self {
            CloudView::Live { files, .. } => Some(files@),
            CloudView::Cached { checked, files, .. } => if checked is Some { Some(files@) } else { None },
        }
    }

    pub open spec fn live(&self) -> bool {
        self is Live
    }
}

/// On the first live look at a trip with no baseline file, the clips already
/// synced — present both sides, plus your own cloud footage — are adopted.
pub open spec fn adopt_map(l: Map<Seq<char>, u64>, r: Map<Seq<char>, u64>, user: Seq<char>) -> Map<Seq<char>, u64> {
    Map::new(|k: Seq<char>| r.contains_key(k) && (l.contains_key(k) || is_mine(user, k)), |k: Seq<char>| r[k])
}

/// The baseline a comparison runs against.
pub open spec fn effective_base(
    b: Map<Seq<char>, u64>,
    l: Map<Seq<char>, u64>,
    cloud: CloudView,
    user: Seq<char>,
    base_existed: bool,
) -> Map<Seq<char>, u64> {
    if cloud.live() && !base_existed {
        b.union_prefer_right(adopt_map(l, cloud.r().unwrap(), user))
    } else {
        b
    }
}

/// The baseline refreshes as a map.
pub open spec fn update_map(
    l: Map<Seq<char>, u64>,
    b: Map<Seq<char>, u64>,
    r: Map<Seq<char>, u64>,
    skip: Map<Seq<char>, u64>,
) -> Map<Seq<char>, u64> {
    Map::new(|k: Seq<char>| in_union(l, b, r, k) && key_update(l, b, r, skip, k) is Some,
        |k: Seq<char>| key_update(l, b, r, skip, k).unwrap())
}

/// A trip's sync status, plus the baseline edits a live comparison implies.
pub struct SyncOutcome {
    pub status: TripSync,
    /// Rows to record in the baseline (adoptions and refreshes).
    pub base_adds: FileSet,
    /// Rows to drop from the baseline (deletes that completed).
    pub base_drops: FileSet,
}

/// The rows of `r` that a first live look adopts.
fn adopt(l: &FileSet, r: &FileSet, user: &str) -> (a: FileSet)
    requires
        l.wf(),
        r.wf(),
    ensures
        a.wf(),
        a@ == adopt_map(l@, r@, user@),
{
    let mut a = FileSet::new();
    let entries = r.entries_vec();
    let mut i: usize = 0;
    while i < entries.len()
        invariant
            entries@ == r.entries(),
            a.wf(),
            l.wf(),
            r.wf(),
            i <= entries@.len(),
            forall|k: Seq<char>| #[trigger] a@.contains_key(k) <==> (exists|j: int| 0 <= j < i && r.keys()[j] == k)
                && (l@.contains_key(k) || is_mine(user@, k)),
            forall|k: Seq<char>| #[trigger] a@.contains_key(k) ==> a@[k] == r@[k],
        decreases entries@.len() - i,
    {
        let rel = entries[i].0.as_str();
        proof { r.lemma_view_at(i as int); }
        let person = first_segment(rel);
        if l.contains(rel) || str_eq(person.as_str(), user) {
            a.insert(rel, entries[i].1);
        }
        proof {
            assert forall|k: Seq<char>| #[trigger] a@.contains_key(k) <==> (exists|j: int| 0 <= j < i + 1 && r.keys()[j] == k)
                && (l@.contains_key(k) || is_mine(user@, k)) by {
                if k == r.keys()[i as int] {
                    assert(r.keys()[i as int] == k);
                }
            }
        }
        i = i + 1;
    }
    proof {
        assert forall|k: Seq<char>| #[trigger] a@.contains_key(k) <==> adopt_map(l@, r@, user@).contains_key(k) by {
            if r@.contains_key(k) {
                let j = choose|j: int| 0 <= j < r.keys().len() && r.keys()[j] == k;
                assert(r.keys()[j] == k);
            }
        }
        assert(a@ =~= adopt_map(l@, r@, user@));
    }
    a
}

/// Record every refresh of `ups` in `acc`.
fn insert_updates(
    acc: &mut FileSet,
    ups: &Vec<(String, u64)>,
    Ghost(l): Ghost<Map<Seq<char>, u64>>,
    Ghost(b): Ghost<Map<Seq<char>, u64>>,
    Ghost(r): Ghost<Map<Seq<char>, u64>>,
    Ghost(skip): Ghost<Map<Seq<char>, u64>>,
)
    requires
        old(acc).wf(),
        is_update_list(ups@, l, b, r, skip),
    ensures
        final(acc).wf(),
        final(acc)@ == old(acc)@.union_prefer_right(update_map(l, b, r, skip)),
{
    let mut i: usize = 0;
    while i < ups.len()
        invariant
            acc.wf(),
            i <= ups@.len(),
            is_update_list(ups@, l, b, r, skip),
            forall|k: Seq<char>| #[trigger] acc@.contains_key(k) <==> (old(acc)@.contains_key(k)
                || exists|j: int| 0 <= j < i && ups@[j].0@ == k),
            forall|k: Seq<char>| #[trigger] acc@.contains_key(k) ==> acc@[k] == (if exists|j: int| 0 <= j < i && ups@[j].0@ == k {
                key_update(l, b, r, skip, k).unwrap()
            } else {
                old(acc)@[k]
            }),
        decreases ups@.len() - i,
    {
        let ghost prev = acc@;
        acc.insert(ups[i].0.as_str(), ups[i].1);
        proof {
            let k0 = ups@[i as int].0@;
            assert(key_update(l, b, r, skip, k0) == Some(ups@[i as int].1));
            assert forall|k: Seq<char>| #[trigger] acc@.contains_key(k) <==> (old(acc)@.contains_key(k)
                || exists|j: int| 0 <= j < i + 1 && ups@[j].0@ == k) by {
                if k == k0 {
                    assert(ups@[i as int].0@ == k);
                }
            }
            assert forall|k: Seq<char>| #[trigger] acc@.contains_key(k) implies acc@[k] == (if exists|j: int| 0 <= j < i + 1 && ups@[j].0@ == k {
                key_update(l, b, r, skip, k).unwrap()
            } else {
                old(acc)@[k]
            }) by {
                if k == k0 {
                    assert(ups@[i as int].0@ == k);
                } else {
                    if exists|j: int| 0 <= j < i + 1 && ups@[j].0@ == k {
                        let j = choose|j: int| 0 <= j < i + 1 && ups@[j].0@ == k;
                        assert(j < i);
                    }
                }
            }
        }
        i = i + 1;
    }
    proof {
        let um = update_map(l, b, r, skip);
        assert forall|k: Seq<char>| (exists|j: int| 0 <= j < ups@.len() && ups@[j].0@ == k) <==> #[trigger] um.contains_key(k) by {
            if exists|j: int| 0 <= j < ups@.len() && ups@[j].0@ == k {
                let j = choose|j: int| 0 <= j < ups@.len() && ups@[j].0@ == k;
                assert(in_union(l, b, r, ups@[j].0@));
            }
            if um.contains_key(k) {
                assert(in_union(l, b, r, k));
            }
        }
        assert(acc@ =~= old(acc)@.union_prefer_right(um));
    }
}

/// Record every drop of `rms` in `acc`.
fn insert_drops(
    acc: &mut FileSet,
    rms: &Vec<String>,
    Ghost(l): Ghost<Map<Seq<char>, u64>>,
    Ghost(b): Ghost<Map<Seq<char>, u64>>,
    Ghost(r): Ghost<Map<Seq<char>, u64>>,
    Ghost(skip): Ghost<Map<Seq<char>, u64>>,
)
    requires
        old(acc).wf(),
        old(acc)@.dom().len() == 0,
        old(acc)@.dom().finite(),
        is_drop_list(rms@, l, b, r, skip),
    ensures
        final(acc).wf(),
        final(acc)@.dom() == Set::new(|k: Seq<char>| in_union(l, b, r, k) && key_drop(l, b, r, skip, k)),
{
    proof { old(acc)@.dom().lemma_len0_is_empty(); }
    let mut i: usize = 0;
    while i < rms.len()
        invariant
            acc.wf(),
            i <= rms@.len(),
            is_drop_list(rms@, l, b, r, skip),
            forall|k: Seq<char>| #[trigger] acc@.contains_key(k) <==> exists|j: int| 0 <= j < i && rms@[j]@ == k,
        decreases rms@.len() - i,
    {
        acc.insert(rms[i].as_str(), 0);
        proof {
            assert forall|k: Seq<char>| #[trigger] acc@.contains_key(k) <==> exists|j: int| 0 <= j < i + 1 && rms@[j]@ == k by {
                if k == rms@[i as int]@ {
                    assert(rms@[i as int]@ == k);
                }
            }
        }
        i = i + 1;
    }
    proof {
        let want = Set::new(|k: Seq<char>| in_union(l, b, r, k) && key_drop(l, b, r, skip, k));
        assert forall|k: Seq<char>| acc@.dom().contains(k) <==> #[trigger] want.contains(k) by {
            if acc@.contains_key(k) {
                let j = choose|j: int| 0 <= j < rms@.len() && rms@[j]@ == k;
                assert(in_union(l, b, r, rms@[j]@));
            }
            if want.contains(k) {
                assert(in_union(l, b, r, k));
            }
        }
        assert(acc@.dom() =~= want);
    }
}

/// Everything a status computation owes its result, for the effective baseline `eb`
/// and the listing `r` (when known).
pub open spec fn status_lists_ok(
    ts: TripSync,
    user: Seq<char>,
    l: Map<Seq<char>, u64>,
    b: Map<Seq<char>, u64>,
    eb: Map<Seq<char>, u64>,
    r: Option<Map<Seq<char>, u64>>,
    skip: Map<Seq<char>, u64>,
    migrating: bool,
    base_existed: bool,
    shared_flag: bool,
) -> bool {
    match r {
        Some(r) => {
            &&& if migrating {
                &&& ts.to_push@.len() == 0
                &&& ts.to_pull@.len() == 0
                &&& ts.deleted_local@.len() == 0
                &&& ts.conflicts@.len() == 0
            } else {
                &&& is_bucket_list(ts.to_push@, Bucket::ToPush, user, l, eb, r, skip)
                &&& is_bucket_list(ts.to_pull@, Bucket::ToPull, user, l, eb, r, skip)
                &&& is_bucket_list(ts.deleted_local@, Bucket::DeletedLocal, user, l, eb, r, skip)
                &&& is_bucket_list(ts.conflicts@, Bucket::Conflict, user, l, eb, r, skip)
            }
            &&& is_bucket_list(ts.deleted_upstream@, Bucket::DeletedUpstream, user, l, eb, r, skip)
            &&& is_bucket_list(ts.cloud_only@, Bucket::CloudOnly, user, l, eb, r, skip)
        },
        None => {
            &&& if migrating || (!base_existed && shared_flag) {
                ts.to_push@.len() == 0
            } else {
                is_tier1_list(ts.to_push@, user, l, b)
            }
            &&& ts.to_pull@.len() == 0
            &&& ts.deleted_local@.len() == 0
            &&& ts.deleted_upstream@.len() == 0
            &&& ts.cloud_only@.len() == 0
            &&& ts.conflicts@.len() == 0
        },
    }
}

/// Compute a trip's sync status from its local set `l`, stored baseline `b`
/// (`base_existed` says whether a baseline file was ever written), the `.reel`
/// share flag, the owed-op queue and the cloud listing. With a live listing the
/// result also carries the baseline edits to persist: first-run adoptions,
/// refreshes of stale rows, and drops of deletes that completed.
pub fn sync_status(
    user: &str,
    trip: &str,
    l: &FileSet,
    b: &FileSet,
    base_existed: bool,
    shared_flag: bool,
    pending: &Pending,
    cloud: &CloudView,
) -> (out: SyncOutcome)
    requires
        l.wf(),
        b.wf(),
        cloud.wf(),
    ensures
        out.status.trip@ == trip@,
        out.status.pending == count_trip(pending.rows@, trip@),
        out.status.offline == (match cloud { CloudView::Cached { offline, .. } => *offline, CloudView::Live { .. } => false }),
        out.status.last_cloud_check == (match cloud { CloudView::Cached { checked, .. } => *checked, CloudView::Live { now, .. } => Some(*now) }),
        status_lists_ok(
            out.status,
            user@,
            l@,
            b@,
            effective_base(b@, l@, *cloud, user@, base_existed),
            cloud.r(),
            move_skip(pending.rows@, trip@),
            is_migrating_spec(pending.rows@, trip@),
            base_existed,
            shared_flag,
        ),
        out.status.in_sync == (out.status.to_push@.len() == 0 && out.status.to_pull@.len() == 0
            && out.status.deleted_local@.len() == 0 && out.status.conflicts@.len() == 0
            && out.status.pending == 0),
        out.base_adds.wf(),
        out.base_drops.wf(),
        cloud.live() ==> out.base_adds@ == (if base_existed { Map::empty() } else { adopt_map(l@, cloud.r().unwrap(), user@) })
            .union_prefer_right(update_map(l@, effective_base(b@, l@, *cloud, user@, base_existed), cloud.r().unwrap(), move_skip(pending.rows@, trip@))),
        cloud.live() ==> out.base_drops@.dom() == Set::new(|k: Seq<char>|
            in_union(l@, effective_base(b@, l@, *cloud, user@, base_existed), cloud.r().unwrap(), k)
            && key_drop(l@, effective_base(b@, l@, *cloud, user@, base_existed), cloud.r().unwrap(), move_skip(pending.rows@, trip@), k)),
        !cloud.live() ==> out.base_adds@.len() == 0 && out.base_drops@.len() == 0,
{
    let skip = pending_move_rels(pending, trip);
    let migrating = is_migrating(pending, trip);
    let pending_n = pending.count_for(trip);
    let mut base_adds = FileSet::new();
    let mut base_drops = FileSet::new();
    let (r, last_check, offline, live): (Option<&FileSet>, Option<i64>, bool, bool) = match cloud {
        CloudView::Live { files, now } => (Some(files), Some(*now), false, true),
        CloudView::Cached { checked, files, offline } => {
            if checked.is_some() { (Some(files), *checked, *offline, false) } else { (None, *checked, *offline, false) }
        },
    };
    let mut eb = b.duplicate();
    if live && !base_existed {
        let fetched = r.unwrap();
        let a = adopt(l, fetched, user);
        let entries = a.entries_vec();
        let mut i: usize = 0;
        while i < entries.len()
            invariant
                entries@ == a.entries(),
                a.wf(),
                eb.wf(),
                base_adds.wf(),
                i <= entries@.len(),
                forall|k: Seq<char>| #[trigger] eb@.contains_key(k) <==> (b@.contains_key(k) || exists|j: int| 0 <= j < i && a.keys()[j] == k),
                forall|k: Seq<char>| #[trigger] eb@.contains_key(k) ==> eb@[k] == (if exists|j: int| 0 <= j < i && a.keys()[j] == k { a@[k] } else { b@[k] }),
                forall|k: Seq<char>| #[trigger] base_adds@.contains_key(k) <==> exists|j: int| 0 <= j < i && a.keys()[j] == k,
                forall|k: Seq<char>| #[trigger] base_adds@.contains_key(k) ==> base_adds@[k] == a@[k],
            decreases entries@.len() - i,
        {
            proof { a.lemma_view_at(i as int); }
            eb.insert(entries[i].0.as_str(), entries[i].1);
            base_adds.insert(entries[i].0.as_str(), entries[i].1);
            proof {
                let k0 = a.keys()[i as int];
                assert forall|k: Seq<char>| #[trigger] eb@.contains_key(k) <==> (b@.contains_key(k) || exists|j: int| 0 <= j < i + 1 && a.keys()[j] == k) by {
                    if k == k0 { assert(a.keys()[i as int] == k); }
                }
                assert forall|k: Seq<char>| #[trigger] eb@.contains_key(k) implies eb@[k] == (if exists|j: int| 0 <= j < i + 1 && a.keys()[j] == k { a@[k] } else { b@[k] }) by {
                    if k == k0 { assert(a.keys()[i as int] == k); }
                    else if exists|j: int| 0 <= j < i + 1 && a.keys()[j] == k {
                        let j = choose|j: int| 0 <= j < i + 1 && a.keys()[j] == k;
                        assert(j != i);
                    }
                }
                assert forall|k: Seq<char>| #[trigger] base_adds@.contains_key(k) <==> exists|j: int| 0 <= j < i + 1 && a.keys()[j] == k by {
                    if k == k0 { assert(a.keys()[i as int] == k); }
                }
            }
            i = i + 1;
        }
        proof {
            assert forall|k: Seq<char>| a@.contains_key(k) <==> exists|j: int| 0 <= j < a.keys().len() && #[trigger] a.keys()[j] == k by {
                if a@.contains_key(k) {
                    let j = choose|j: int| 0 <= j < a.keys().len() && a.keys()[j] == k;
                    assert(a.keys()[j] == k);
                }
            }
            assert(eb@ =~= b@.union_prefer_right(adopt_map(l@, cloud.r().unwrap(), user@)));
            assert(base_adds@ =~= adopt_map(l@, cloud.r().unwrap(), user@));
        }
    }
    proof {
        if !(live && !base_existed) {
            assert(base_adds@ =~= Map::<Seq<char>, u64>::empty().union_prefer_right(Map::empty()));
        }
        assert(eb@ == effective_base(b@, l@, *cloud, user@, base_existed));
    }
    let mut ts = TripSync {
        trip: trip.to_owned(),
        to_push: Vec::new(),
        to_pull: Vec::new(),
        deleted_local: Vec::new(),
        deleted_upstream: Vec::new(),
        cloud_only: Vec::new(),
        conflicts: Vec::new(),
        pending: pending_n,
        last_cloud_check: last_check,
        offline,
        in_sync: false,
    };
    match r {
        Some(rs) => {
            let d = classify(user, l, &eb, rs, &skip);
            if live {
                let ghost pre = base_adds@;
                insert_updates(&mut base_adds, &d.b_updates, Ghost(l@), Ghost(eb@), Ghost(rs@), Ghost(skip@));
                insert_drops(&mut base_drops, &d.b_removes, Ghost(l@), Ghost(eb@), Ghost(rs@), Ghost(skip@));
                proof {
                    if base_existed {
                        assert(pre =~= Map::<Seq<char>, u64>::empty());
                    }
                }
            }
            if !migrating {
                ts.to_push = d.to_push;
                ts.to_pull = d.to_pull;
                ts.deleted_local = d.deleted_local;
                ts.conflicts = d.conflicts;
            }
            ts.deleted_upstream = d.deleted_upstream;
            ts.cloud_only = d.cloud_only;
        },
        None => {
            if !migrating {
                ts.to_push = tier1_to_push(user, l, b, base_existed, shared_flag);
            }
        },
    }
    ts.in_sync = ts.to_push.len() == 0 && ts.to_pull.len() == 0 && ts.deleted_local.len() == 0
        && ts.conflicts.len() == 0 && ts.pending == 0;
    proof {
        if !live {
            assert(base_adds@ =~= Map::<Seq<char>, u64>::empty());
            assert(base_drops@ =~= Map::<Seq<char>, u64>::empty());
        }
    }
    SyncOutcome { status: ts, base_adds, base_drops }
}

/// The clips that land in bucket `t`.
pub open spec fn bucket_set(
    t: Bucket,
    user: Seq<char>,
    l: Map<Seq<char>, u64>,
    b: Map<Seq<char>, u64>,
    r: Map<Seq<char>, u64>,
    skip: Map<Seq<char>, u64>,
) -> Set<Seq<char>> {
    Set::new(|k: Seq<char>| in_union(l, b, r, k) && key_bucket(user, l, b, r, skip, k).0 == t)
}

/// How many clips land in bucket `t`.
pub open spec fn bucket_count(
    t: Bucket,
    user: Seq<char>,
    l: Map<Seq<char>, u64>,
    b: Map<Seq<char>, u64>,
    r: Map<Seq<char>, u64>,
    skip: Map<Seq<char>, u64>,
) -> nat {
    bucket_set(t, user, l, b, r, skip).len()
}

/// How many clips are "to share" without the network.
pub open spec fn tier1_count(user: Seq<char>, l: Map<Seq<char>, u64>, b: Map<Seq<char>, u64>, base_exists: bool, shared_flag: bool) -> nat {
    if !base_exists && shared_flag {
        0
    } else {
        tier1_set(user, l, b).len()
    }
}

/// The clips that are "to share" without the network.
pub open spec fn tier1_set(user: Seq<char>, l: Map<Seq<char>, u64>, b: Map<Seq<char>, u64>) -> Set<Seq<char>> {
    Set::new(|k: Seq<char>| tier1_key(user, l, b, k))
}

/// Baseline rows not present locally: archived raw, or pulled clips you cleared.
pub open spec fn base_only_count(l: Map<Seq<char>, u64>, b: Map<Seq<char>, u64>) -> nat {
    base_only_set(l, b).len()
}

pub open spec fn base_only_set(l: Map<Seq<char>, u64>, b: Map<Seq<char>, u64>) -> Set<Seq<char>> {
    Set::new(|k: Seq<char>| b.contains_key(k) && !l.contains_key(k))
}

/// A strictly sorted run of keys that enumerates `s` has exactly `s.len()` keys.
pub proof fn lemma_sorted_enumeration_len(ks: Seq<Seq<char>>, s: Set<Seq<char>>)
    requires
        strictly_sorted(ks),
        forall|k: Seq<char>| #[trigger] s.contains(k) <==> ks.contains(k),
    ensures
        ks.len() == s.len(),
        s.finite(),
{
    assert forall|i: int, j: int| 0 <= i < ks.len() && 0 <= j < ks.len() && i != j implies ks[i] != ks[j] by {
        if ks[i] == ks[j] {
            crate::text::lemma_lex_irreflexive(ks[i]);
        }
    }
    assert(ks.no_duplicates());
    assert(ks.to_set() =~= s);
    ks.unique_seq_to_set();
}

/// The rel of each row.
pub open spec fn rels_of(items: Seq<SyncItem>) -> Seq<Seq<char>> {
    items.map_values(|it: SyncItem| it.rel@)
}

proof fn lemma_bucket_len(
    items: Seq<SyncItem>,
    t: Bucket,
    user: Seq<char>,
    l: Map<Seq<char>, u64>,
    b: Map<Seq<char>, u64>,
    r: Map<Seq<char>, u64>,
    skip: Map<Seq<char>, u64>,
)
    requires
        is_bucket_list(items, t, user, l, b, r, skip),
    ensures
        items.len() == bucket_count(t, user, l, b, r, skip),
{
    let ks = rels_of(items);
    let s = bucket_set(t, user, l, b, r, skip);
    assert(ks.len() == items.len());
    assert forall|i: int, j: int| 0 <= i < j < ks.len() implies lex_lt(#[trigger] ks[i], #[trigger] ks[j]) by {
        assert(ks[i] == items[i].rel@);
        assert(ks[j] == items[j].rel@);
    }
    assert forall|k: Seq<char>| #[trigger] s.contains(k) <==> ks.contains(k) by {
        if s.contains(k) {
            let i = choose|i: int| 0 <= i < items.len() && items[i].rel@ == k;
            assert(ks[i] == k);
        }
        if ks.contains(k) {
            let i = choose|i: int| 0 <= i < ks.len() && ks[i] == k;
            assert(items[i].rel@ == k);
        }
    }
    lemma_sorted_enumeration_len(ks, s);
}

proof fn lemma_tier1_len(items: Seq<SyncItem>, user: Seq<char>, l: Map<Seq<char>, u64>, b: Map<Seq<char>, u64>)
    requires
        is_tier1_list(items, user, l, b),
    ensures
        items.len() == tier1_set(user, l, b).len(),
{
    let ks = rels_of(items);
    let s = tier1_set(user, l, b);
    assert(ks.len() == items.len());
    assert forall|i: int, j: int| 0 <= i < j < ks.len() implies lex_lt(#[trigger] ks[i], #[trigger] ks[j]) by {
        assert(ks[i] == items[i].rel@);
        assert(ks[j] == items[j].rel@);
    }
    assert forall|k: Seq<char>| #[trigger] s.contains(k) <==> ks.contains(k) by {
        if s.contains(k) {
            let i = choose|i: int| 0 <= i < items.len() && items[i].rel@ == k;
            assert(ks[i] == k);
        }
        if ks.contains(k) {
            let i = choose|i: int| 0 <= i < ks.len() && ks[i] == k;
            assert(items[i].rel@ == k);
        }
    }
    lemma_sorted_enumeration_len(ks, s);
}

/// Baseline rows you don't have locally.
fn base_only(l: &FileSet, b: &FileSet) -> (n: usize)
    requires
        l.wf(),
        b.wf(),
    ensures
        n == base_only_count(l@, b@),
{
    let mut acc = FileSet::new();
    let entries = b.entries_vec();
    let mut i: usize = 0;
    while i < entries.len()
        invariant
            entries@ == b.entries(),
            acc.wf(),
            l.wf(),
            b.wf(),
            i <= entries@.len(),
            forall|k: Seq<char>| #[trigger] acc@.contains_key(k) <==> (exists|j: int| 0 <= j < i && b.keys()[j] == k) && !l@.contains_key(k),
        decreases entries@.len() - i,
    {
        if !l.contains(entries[i].0.as_str()) {
            acc.insert(entries[i].0.as_str(), 0);
        }
        proof {
            assert forall|k: Seq<char>| #[trigger] acc@.contains_key(k) <==> (exists|j: int| 0 <= j < i + 1 && b.keys()[j] == k) && !l@.contains_key(k) by {
                if k == b.keys()[i as int] {
                    assert(b.keys()[i as int] == k);
                }
            }
        }
        i = i + 1;
    }
    proof {
        acc.lemma_len();
        let s = base_only_set(l@, b@);
        assert forall|k: Seq<char>| acc@.dom().contains(k) <==> #[trigger] s.contains(k) by {
            if b@.contains_key(k) {
                let j = choose|j: int| 0 <= j < b.keys().len() && b.keys()[j] == k;
                assert(b.keys()[j] == k);
            }
        }
        assert(acc@.dom() =~= s);
    }
    acc.len()
}

/// Compact status for the dashboard card — the network-free "to share" count
/// always, plus the cloud-side buckets from the cached listing when one exists.
/// Without a cached listing, baseline rows you don't have locally count as
/// cloud-only (archived raw), so an archived trip reads right before any refresh.
pub fn brief(
    user: &str,
    trip: &str,
    l: &FileSet,
    b: &FileSet,
    base_exists: bool,
    shared_flag: bool,
    pending: &Pending,
    cache_checked: Option<i64>,
    cache: &FileSet,
) -> (s: SyncBrief)
    requires
        l.wf(),
        b.wf(),
        cache.wf(),
    ensures
        ({
            let migrating = is_migrating_spec(pending.rows@, trip@);
            let skip = move_skip(pending.rows@, trip@);
            &&& s.to_push == (if migrating { 0 } else { tier1_count(user@, l@, b@, base_exists, shared_flag) })
            &&& s.to_pull == (if !migrating && cache_checked is Some { bucket_count(Bucket::ToPull, user@, l@, b@, cache@, skip) } else { 0 })
            &&& s.deleted_local == (if !migrating && cache_checked is Some { bucket_count(Bucket::DeletedLocal, user@, l@, b@, cache@, skip) } else { 0 })
            &&& s.deleted_upstream == (if !migrating && cache_checked is Some { bucket_count(Bucket::DeletedUpstream, user@, l@, b@, cache@, skip) } else { 0 })
            &&& s.conflicts == (if !migrating && cache_checked is Some { bucket_count(Bucket::Conflict, user@, l@, b@, cache@, skip) } else { 0 })
            &&& s.cloud_only == (if migrating { 0 } else if cache_checked is Some { bucket_count(Bucket::CloudOnly, user@, l@, b@, cache@, skip) } else { base_only_count(l@, b@) })
            &&& s.pending == count_trip(pending.rows@, trip@)
            &&& s.last_cloud_check == cache_checked
            &&& s.in_sync == (s.to_push == 0 && s.to_pull == 0 && s.deleted_local == 0 && s.conflicts == 0 && s.pending == 0)
        }),
{
    let skip = pending_move_rels(pending, trip);
    let migrating = is_migrating(pending, trip);
    let to_push = if migrating {
        0
    } else {
        let t = tier1_to_push(user, l, b, base_exists, shared_flag);
        proof {
            if !(!base_exists && shared_flag) {
                lemma_tier1_len(t@, user@, l@, b@);
            }
        }
        t.len()
    };
    let mut to_pull: usize = 0;
    let mut deleted_local: usize = 0;
    let mut deleted_upstream: usize = 0;
    let mut conflicts: usize = 0;
    let mut cloud_only: usize = 0;
    if !migrating && cache_checked.is_some() {
        let d = classify(user, l, b, cache, &skip);
        proof {
            lemma_bucket_len(d.to_pull@, Bucket::ToPull, user@, l@, b@, cache@, skip@);
            lemma_bucket_len(d.deleted_local@, Bucket::DeletedLocal, user@, l@, b@, cache@, skip@);
            lemma_bucket_len(d.deleted_upstream@, Bucket::DeletedUpstream, user@, l@, b@, cache@, skip@);
            lemma_bucket_len(d.conflicts@, Bucket::Conflict, user@, l@, b@, cache@, skip@);
            lemma_bucket_len(d.cloud_only@, Bucket::CloudOnly, user@, l@, b@, cache@, skip@);
        }
        to_pull = d.to_pull.len();
        deleted_local = d.deleted_local.len();
        deleted_upstream = d.deleted_upstream.len();
        conflicts = d.conflicts.len();
        cloud_only = d.cloud_only.len();
    } else if !migrating {
        cloud_only = base_only(l, b);
    }
    let pending_n = pending.count_for(trip);
    SyncBrief {
        to_push,
        to_pull,
        deleted_local,
        deleted_upstream,
        cloud_only,
        conflicts,
        pending: pending_n,
        last_cloud_check: cache_checked,
        in_sync: to_push == 0 && to_pull == 0 && deleted_local == 0 && conflicts == 0 && pending_n == 0,
    }
}

} // verus!

verus! {

/// Archiving frees the raw locally but keeps the clip in the baseline, so an
/// archived clip — gone locally, intended, still in the cloud — reads as
/// cloud-only (re-downloadable), never as a deletion owed nor as a download.
pub proof fn lemma_archived_is_cloud_only(mine: bool, b: u64, r: u64)
    ensures
        bucket_of(mine, None, Some(b), Some(r)).0 == Bucket::CloudOnly,
{
}

/// A delete drops the clip from the baseline, so your clip deleted while offline —
/// gone locally and from the baseline but still in the cloud — reads as owed
/// cleanup, never as something to pull back down.
pub proof fn lemma_offline_delete_is_owed_cleanup(r: u64)
    ensures
        bucket_of(true, None, None, Some(r)).0 == Bucket::DeletedLocal,
{
}

/// Deletion is read from the baseline (intent), never from local absence: a clip
/// reads as deleted locally exactly when it is yours, absent locally, absent from
/// the baseline and present in the cloud; and a clip the baseline still holds is
/// never a download.
pub proof fn lemma_deletion_from_intent(mine: bool, l: Option<u64>, b: Option<u64>, r: Option<u64>)
    ensures
        (bucket_of(mine, l, b, r).0 == Bucket::DeletedLocal) == (mine && l is None && b is None && r is Some),
        b is Some ==> bucket_of(mine, l, b, r).0 != Bucket::ToPull,
        bucket_of(mine, l, b, r).0 == Bucket::ToPull ==> !mine,
{
}

/// A clip present locally and in the cloud at the same size is settled, whatever
/// the baseline says; and the comparison only ever asks the baseline to record
/// such an agreed size.
pub proof fn lemma_agreement_settles(mine: bool, s: u64, b: Option<u64>)
    ensures
        bucket_of(mine, Some(s), b, Some(s)).0 == Bucket::Settled,
        forall|l: Option<u64>, bb: Option<u64>, r: Option<u64>|
            #[trigger] b_update_of(l, bb, r) matches Some(x) ==> l == Some(x) && r == Some(x),
{
}

/// The cloud-relative path of a master under a trip (`person/…/base`), or `None`
/// when it does not sit under the trip or sits loose in its root with no owner
/// folder. Backslashes become `/` so it matches rclone's listing.
pub open spec fn rel_of_spec(master: Seq<char>, trip_dir: Seq<char>) -> Option<Seq<char>> {
    match strip_dir_spec(master, trip_dir) {
        Some(rel) => if component_strs(rel).len() < 2 {
            None
        } else {
            Some(replace_char(rel, '\\', "/"@))
        },
        None => None,
    }
}

pub fn rel_of(master: &str, trip_dir: &str) -> (r: Option<String>)
    ensures
        match r {
            Some(x) => rel_of_spec(master@, trip_dir@) == Some(x@),
            None => rel_of_spec(master@, trip_dir@) is None,
        },
{
    let rel = match strip_dir(master, trip_dir) {
        Some(r) => r,
        None => {
            return None;
        },
    };
    let comps = component_strings(rel.as_str());
    if comps.len() < 2 {
        return None;
    }
    let rc = chars_of(rel.as_str());
    Some(replace_all(rc.as_slice(), '\\', "/"))
}

/// The set the masters `(path, size)` of a trip give: each one with a
/// cloud-relative path, later entries for the same path replacing earlier ones.
pub open spec fn local_map(masters: Seq<(String, u64)>, trip_dir: Seq<char>) -> Map<Seq<char>, u64>
    decreases masters.len(),
{
    if masters.len() == 0 {
        Map::empty()
    } else {
        let m = local_map(masters.drop_last(), trip_dir);
        match rel_of_spec(masters.last().0@, trip_dir) {
            Some(rel) => m.insert(rel, masters.last().1),
            None => m,
        }
    }
}

/// Build the local set from an already-walked master list, with each master's
/// size as read from disk.
pub fn local_set_from(masters: &[(String, u64)], trip_dir: &str) -> (s: FileSet)
    ensures
        s.wf(),
        s@ == local_map(masters@, trip_dir@),
{
    let mut s = FileSet::new();
    let mut i: usize = 0;
    while i < masters.len()
        invariant
            i <= masters@.len(),
            s.wf(),
            s@ == local_map(masters@.take(i as int), trip_dir@),
        decreases masters@.len() - i,
    {
        proof {
            assert(masters@.take(i + 1).drop_last() =~= masters@.take(i as int));
            assert(masters@.take(i + 1).last() == masters@[i as int]);
        }
        match rel_of(masters[i].0.as_str(), trip_dir) {
            Some(rel) => {
                s.insert(rel.as_str(), masters[i].1);
            },
            None => {},
        }
        i = i + 1;
    }
    proof {
        assert(masters@.take(i as int) =~= masters@);
    }
    s
}

/// The cloud set a listing `(Path, Size)` gives: captures only, backslashes as
/// `/`, later entries for the same path replacing earlier ones.
pub open spec fn cloud_map(entries: Seq<(String, u64)>) -> Map<Seq<char>, u64>
    decreases entries.len(),
{
    if entries.len() == 0 {
        Map::empty()
    } else {
        let m = cloud_map(entries.drop_last());
        let p = entries.last().0@;
        if p.len() == 0 || !(has_ext_spec(p, video_exts()) || has_ext_spec(p, photo_exts())) {
            m
        } else {
            m.insert(replace_char(p, '\\', "/"@), entries.last().1)
        }
    }
}

/// The live cloud listing for a trip as rel → size (captures only), from the
/// listing's `(Path, Size)` entries.
pub fn cloud_set_from(entries: &[(String, u64)]) -> (s: FileSet)
    ensures
        s.wf(),
        s@ == cloud_map(entries@),
{
    let mut s = FileSet::new();
    let mut i: usize = 0;
    while i < entries.len()
        invariant
            i <= entries@.len(),
            s.wf(),
            s@ == cloud_map(entries@.take(i as int)),
        decreases entries@.len() - i,
    {
        proof {
            assert(entries@.take(i + 1).drop_last() =~= entries@.take(i as int));
            assert(entries@.take(i + 1).last() == entries@[i as int]);
        }
        let p = entries[i].0.as_str();
        let pc = chars_of(p);
        if pc.len() > 0 && is_capture(p) {
            let rel = replace_all(pc.as_slice(), '\\', "/");
            s.insert(rel.as_str(), entries[i].1);
        }
        i = i + 1;
    }
    proof {
        assert(entries@.take(i as int) =~= entries@);
    }
    s
}

/// A `.reel` share value that records the footage as in the cloud.
pub open spec fn shared_value(v: Option<Seq<char>>) -> bool {
    match v {
        Some(s) => s == "shared"@ || s == "verified"@ || s == "done"@ || s == "yes"@,
        None => false,
    }
}

pub fn is_shared_value(v: Option<&str>) -> (b: bool)
    ensures
        b == shared_value(crate::media::opt_str(v)),
{
    match v {
        Some(s) => str_eq(s, "shared") || str_eq(s, "verified") || str_eq(s, "done") || str_eq(s, "yes"),
        None => false,
    }
}

/// Whether your footage in a trip is provably in the cloud: with a baseline, every
/// one of your local masters is in it at the same size; without one, you have no
/// footage there or the trip's share flag says so.
pub open spec fn in_cloud_spec(mine: Map<Seq<char>, u64>, base: Option<Map<Seq<char>, u64>>, shared_flag: bool) -> bool {
    match base {
        Some(b) => forall|k: Seq<char>| #[trigger] mine.contains_key(k) ==> b.contains_key(k) && b[k] == mine[k],
        None => mine.dom().len() == 0 || shared_flag,
    }
}

/// Per-trip "is your footage here provably in the cloud?" — no network, so a card
/// scan can gate "safe to clear" truthfully. A post-share import (L grows past B)
/// flips the trip out; trips with no baseline yet fall back to the share flag.
pub fn trip_in_cloud(mine: &FileSet, base: Option<&FileSet>, shared_flag: bool) -> (b: bool)
    requires
        mine.wf(),
        base matches Some(x) ==> x.wf(),
    ensures
        b == in_cloud_spec(mine@, match base {
            Some(x) => Some(x@),
            None => None,
        }, shared_flag),
{
    match base {
        Some(bs) => {
            let files = mine.entries_vec();
            let mut i: usize = 0;
            while i < files.len()
                invariant
                    mine.wf(),
                    bs.wf(),
                    base == Some(bs),
                    files@ == mine.entries(),
                    i <= files@.len(),
                    forall|j: int| 0 <= j < i ==> bs@.contains_key(#[trigger] mine.keys()[j]) && bs@[mine.keys()[j]]
                        == mine@[mine.keys()[j]],
                decreases files@.len() - i,
            {
                proof {
                    mine.lemma_view_at(i as int);
                }
                let ghost k = mine.keys()[i as int];
                proof {
                    assert(files@[i as int].0@ == k);
                    assert(mine@.contains_key(k));
                }
                match bs.get(files[i].0.as_str()) {
                    Some(sz) => {
                        if sz != files[i].1 {
                            proof {
                                assert(bs@[k] != mine@[k]);
                                assert(!in_cloud_spec(mine@, Some(bs@), shared_flag));
                            }
                            return false;
                        }
                    },
                    None => {
                        proof {
                            assert(!bs@.contains_key(k));
                            assert(!in_cloud_spec(mine@, Some(bs@), shared_flag));
                        }
                        return false;
                    },
                }
                i = i + 1;
            }
            proof {
                assert forall|k: Seq<char>| #[trigger] mine@.contains_key(k) implies bs@.contains_key(k) && bs@[k]
                    == mine@[k] by {
                    let j = choose|j: int| 0 <= j < mine.keys().len() && mine.keys()[j] == k;
                }
            }
            true
        },
        None => {
            proof {
                mine.lemma_len();
            }
            mine.is_empty() || shared_flag
        },
    }
}

} // verus!

verus! {

/// The cloud call that replays an owed op.
#[derive(Clone, Debug)]
pub enum CloudCall {
    /// Move `from` to `to` in the cloud.
    MovePath { from: String, to: String },
    /// Purge everything under `path`.
    PurgePath { path: String },
}

/// Replay an owed op against `remote` for `user`: a clip move moves that clip; a
/// rename moves your subtree of the old trip to the new one; a purge removes your
/// subtree of the deleted trip.
pub fn replay_call(remote: &str, user: &str, op: &PendingOp) -> (c: CloudCall)
    ensures
        match *op {
            PendingOp::Move { from, to, rel } => c matches CloudCall::MovePath { from: f, to: t } && f@
                == crate::organize::cloud_path_spec(remote@, from@, rel@) && t@ == crate::organize::cloud_path_spec(
                remote@,
                to@,
                rel@,
            ),
            PendingOp::Rename { old, new } => c matches CloudCall::MovePath { from: f, to: t } && f@
                == crate::organize::cloud_path_spec(remote@, old@, user@) && t@ == crate::organize::cloud_path_spec(
                remote@,
                new@,
                user@,
            ),
            PendingOp::Purge { trip } => c matches CloudCall::PurgePath { path } && path@
                == crate::organize::cloud_path_spec(remote@, trip@, user@),
        },
{
    match op {
        PendingOp::Move { from, to, rel } => CloudCall::MovePath {
            from: crate::organize::cloud_path(remote, from.as_str(), rel.as_str()),
            to: crate::organize::cloud_path(remote, to.as_str(), rel.as_str()),
        },
        PendingOp::Rename { old, new } => CloudCall::MovePath {
            from: crate::organize::cloud_path(remote, old.as_str(), user),
            to: crate::organize::cloud_path(remote, new.as_str(), user),
        },
        PendingOp::Purge { trip } => CloudCall::PurgePath { path: crate::organize::cloud_path(remote, trip.as_str(), user) },
    }
}

/// Whether `ops` holds an op the same as `op`.
pub open spec fn op_in(ops: Seq<PendingOp>, op: PendingOp) -> bool {
    exists|k: int| 0 <= k < ops.len() && op_view(#[trigger] ops[k]) == op_view(op)
}

/// The queue rows left once the ops that landed are dropped.
pub open spec fn rows_left(rows: Seq<(i64, PendingOp)>, applied: Seq<PendingOp>) -> Seq<(i64, PendingOp)>
    decreases rows.len(),
{
    if rows.len() == 0 {
        Seq::empty()
    } else {
        let before = rows_left(rows.drop_last(), applied);
        if op_in(applied, rows.last().1) {
            before
        } else {
            before.push(rows.last())
        }
    }
}

fn holds_op(ops: &[PendingOp], op: &PendingOp) -> (b: bool)
    ensures
        b == op_in(ops@, *op),
{
    let mut k: usize = 0;
    while k < ops.len()
        invariant
            k <= ops@.len(),
            forall|j: int| 0 <= j < k ==> op_view(#[trigger] ops@[j]) != op_view(*op),
        decreases ops@.len() - k,
    {
        if ops[k].same(op) {
            return true;
        }
        k = k + 1;
    }
    false
}

fn dup_op(op: &PendingOp) -> (c: PendingOp)
    ensures
        op_view(c) == op_view(*op),
        op_trip(c) == op_trip(*op),
{
    match op {
        PendingOp::Move { from, to, rel } => PendingOp::Move { from: from.clone(), to: to.clone(), rel: rel.clone() },
        PendingOp::Rename { old, new } => PendingOp::Rename { old: old.clone(), new: new.clone() },
        PendingOp::Purge { trip } => PendingOp::Purge { trip: trip.clone() },
    }
}

/// Drop from the queue only the ops that landed. Replay is a network call, so an
/// op another command queued meanwhile must survive.
pub fn drop_applied(pending: &mut Pending, applied: &[PendingOp])
    ensures
        final(pending).rows@.map_values(|r: (i64, PendingOp)| (r.0, op_view(r.1))) == rows_left(
            old(pending).rows@,
            applied@,
        ).map_values(|r: (i64, PendingOp)| (r.0, op_view(r.1))),
{
    let ghost before = pending.rows@;
    let mut kept: Vec<(i64, PendingOp)> = Vec::new();
    let mut i: usize = 0;
    while i < pending.rows.len()
        invariant
            i <= pending.rows@.len(),
            before == pending.rows@,
            kept@.map_values(|r: (i64, PendingOp)| (r.0, op_view(r.1))) == rows_left(before.take(i as int), applied@).map_values(
                |r: (i64, PendingOp)| (r.0, op_view(r.1)),
            ),
        decreases pending.rows@.len() - i,
    {
        proof {
            assert(before.take(i + 1).drop_last() =~= before.take(i as int));
            assert(before.take(i + 1).last() == before[i as int]);
        }
        if !holds_op(applied, &pending.rows[i].1) {
            let ghost k0 = kept@;
            let row = (pending.rows[i].0, dup_op(&pending.rows[i].1));
            kept.push(row);
            proof {
                assert(kept@.map_values(|r: (i64, PendingOp)| (r.0, op_view(r.1))) =~= k0.map_values(
                    |r: (i64, PendingOp)| (r.0, op_view(r.1)),
                ).push((before[i as int].0, op_view(before[i as int].1))));
                assert(rows_left(before.take(i + 1), applied@).map_values(|r: (i64, PendingOp)| (r.0, op_view(r.1)))
                    =~= rows_left(before.take(i as int), applied@).map_values(|r: (i64, PendingOp)| (r.0, op_view(r.1))).push(
                    (before[i as int].0, op_view(before[i as int].1)),
                ));
            }
        }
        i = i + 1;
    }
    proof {
        assert(before.take(i as int) =~= before);
    }
    pending.rows = kept;
}

/// The ops of the queue that are about `trip`, in queue order.
pub open spec fn ops_about(rows: Seq<(i64, PendingOp)>, trip: Seq<char>) -> Seq<(int, Seq<char>, Seq<char>, Seq<char>)>
    decreases rows.len(),
{
    if rows.len() == 0 {
        Seq::empty()
    } else {
        let before = ops_about(rows.drop_last(), trip);
        if op_trip(rows.last().1) == trip {
            before.push(op_view(rows.last().1))
        } else {
            before
        }
    }
}

/// The owed ops a per-trip reconcile replays first: those about the trip (so a
/// queued rename runs before a push that would upload under the new name).
pub fn ops_for(pending: &Pending, trip: &str) -> (r: Vec<PendingOp>)
    ensures
        r@.map_values(|o: PendingOp| op_view(o)) == ops_about(pending.rows@, trip@),
{
    let mut r: Vec<PendingOp> = Vec::new();
    let mut i: usize = 0;
    while i < pending.rows.len()
        invariant
            i <= pending.rows@.len(),
            r@.map_values(|o: PendingOp| op_view(o)) == ops_about(pending.rows@.take(i as int), trip@),
        decreases pending.rows@.len() - i,
    {
        proof {
            assert(pending.rows@.take(i + 1).drop_last() =~= pending.rows@.take(i as int));
            assert(pending.rows@.take(i + 1).last() == pending.rows@[i as int]);
        }
        if str_eq(pending.rows[i].1.trip(), trip) {
            let ghost r0 = r@;
            r.push(dup_op(&pending.rows[i].1));
            proof {
                assert(r@.map_values(|o: PendingOp| op_view(o)) =~= r0.map_values(|o: PendingOp| op_view(o)).push(
                    op_view(pending.rows@[i as int].1),
                ));
            }
        }
        i = i + 1;
    }
    proof {
        assert(pending.rows@.take(i as int) =~= pending.rows@);
    }
    r
}

proof fn lemma_push_set(s: Seq<Seq<char>>, x: Seq<char>)
    ensures
        s.push(x).to_set() == s.to_set().insert(x),
{
    assert forall|a: Seq<char>| s.push(x).contains(a) <==> (s.contains(a) || a == x) by {
        if s.contains(a) {
            let k = choose|k: int| 0 <= k < s.len() && s[k] == a;
            assert(s.push(x)[k] == a);
        }
        if a == x {
            assert(s.push(x)[s.len() as int] == x);
        }
        if s.push(x).contains(a) {
            let k = choose|k: int| 0 <= k < s.push(x).len() && s.push(x)[k] == a;
            if k < s.len() {
                assert(s[k] == a);
            }
        }
    }
    assert forall|a: Seq<char>| s.push(x).to_set().contains(a) <==> s.to_set().insert(x).contains(a) by {
        assert(s.push(x).contains(a) <==> (s.contains(a) || a == x));
    }
    assert(s.push(x).to_set() =~= s.to_set().insert(x));
}

/// The people a pull leg fetches: each owner of something to pull, once, in
/// name order.
pub fn pull_people(to_pull: &[SyncItem]) -> (r: Vec<String>)
    ensures
        forall|a: int, b: int| 0 <= a < b < r@.len() ==> lex_lt((#[trigger] r@[a])@, (#[trigger] r@[b])@),
        crate::text::views(r@).to_set() == to_pull@.map_values(|t: SyncItem| t.person@).to_set(),
{
    let mut persons: Vec<String> = Vec::new();
    let mut i: usize = 0;
    while i < to_pull.len()
        invariant
            i <= to_pull@.len(),
            crate::text::views(persons@) == to_pull@.take(i as int).map_values(|t: SyncItem| t.person@),
        decreases to_pull@.len() - i,
    {
        let ghost p0 = persons@;
        persons.push(to_pull[i].person.clone());
        proof {
            assert(to_pull@.take(i + 1) =~= to_pull@.take(i as int).push(to_pull@[i as int]));
            assert(crate::text::views(persons@) =~= crate::text::views(p0).push(to_pull@[i as int].person@));
            assert(crate::text::views(persons@) =~= to_pull@.take(i + 1).map_values(|t: SyncItem| t.person@));
        }
        i = i + 1;
    }
    proof {
        assert(to_pull@.take(i as int) =~= to_pull@);
    }
    let sorted = crate::text::sort_strings(&persons);
    let ghost sv = crate::text::views(sorted@);
    let ghost pv = crate::text::views(persons@);
    proof {
        assert forall|x: Seq<char>| sv.contains(x) <==> pv.contains(x) by {
            vstd::seq_lib::to_multiset_contains(sv, x);
            vstd::seq_lib::to_multiset_contains(pv, x);
        }
        assert(sv.to_set() =~= pv.to_set());
    }
    let mut r: Vec<String> = Vec::new();
    let mut i: usize = 0;
    while i < sorted.len()
        invariant
            i <= sorted@.len(),
            sv == crate::text::views(sorted@),
            crate::text::sorted_views(sv),
            forall|a: int, b: int| 0 <= a < b < r@.len() ==> lex_lt((#[trigger] r@[a])@, (#[trigger] r@[b])@),
            crate::text::views(r@).to_set() == sv.take(i as int).to_set(),
            r@.len() <= i,
            i > 0 ==> r@.len() > 0 && r@[r@.len() - 1]@ == sv[i - 1],
        decreases sorted@.len() - i,
    {
        let ghost before = r@;
        proof {
            assert(sv.take(i + 1) =~= sv.take(i as int).push(sv[i as int]));
        }
        if r.len() == 0 || !str_eq(r[r.len() - 1].as_str(), sorted[i].as_str()) {
            proof {
                if before.len() > 0 {
                    assert(i > 0);
                    assert(!lex_lt(sv[i as int], sv[i - 1]));
                    crate::text::lemma_lex_total(sv[i - 1], sv[i as int]);
                    assert forall|a: int| 0 <= a < before.len() implies lex_lt((#[trigger] before[a])@, sv[i as int]) by {
                        if a < before.len() - 1 {
                            assert(lex_lt(before[a]@, before[before.len() - 1]@));
                            lemma_lex_transitive(before[a]@, sv[i - 1], sv[i as int]);
                        }
                    }
                }
            }
            r.push(sorted[i].clone());
            proof {
                assert(crate::text::views(r@) =~= crate::text::views(before).push(sv[i as int]));
                lemma_push_set(crate::text::views(before), sv[i as int]);
                lemma_push_set(sv.take(i as int), sv[i as int]);
            }
        } else {
            proof {
                assert(crate::text::views(before).contains(sv[i as int])) by {
                    assert(crate::text::views(before)[before.len() - 1] == sv[i as int]);
                }
                lemma_push_set(sv.take(i as int), sv[i as int]);
                assert(crate::text::views(before).to_set().contains(sv[i as int]));
                assert(crate::text::views(r@).to_set() =~= sv.take(i + 1).to_set());
            }
        }
        i = i + 1;
    }
    proof {
        assert(sv.take(i as int) =~= sv);
    }
    r
}

/// Which legs of a reconcile run: a push only when something is to push, a pull
/// when chosen, a restore only when something is cloud-only, and the cloud
/// cleanup only when something was deleted here.
pub fn legs(actions: crate::model::SyncActions, status: &TripSync) -> (l: crate::model::SyncActions)
    ensures
        l.push == (actions.push && status.to_push@.len() > 0),
        l.pull == actions.pull,
        l.restore_cloud == (actions.restore_cloud && status.cloud_only@.len() > 0),
        l.push_deletions == (actions.push_deletions && status.deleted_local@.len() > 0),
{
    crate::model::SyncActions {
        push: actions.push && status.to_push.len() > 0,
        pull: actions.pull,
        restore_cloud: actions.restore_cloud && status.cloud_only.len() > 0,
        push_deletions: actions.push_deletions && status.deleted_local.len() > 0,
    }
}

/// The legs a whole-library sync runs for every trip: additive only, push and
/// pull. Removing cloud footage and refilling disk you freed stay per-trip
/// decisions, so a global sync never deletes or undoes an archive.
pub fn sweep_actions() -> (a: crate::model::SyncActions)
    ensures
        a.push && a.pull && !a.push_deletions && !a.restore_cloud,
{
    crate::model::SyncActions { push: true, pull: true, push_deletions: false, restore_cloud: false }
}

/// A whole-library sync's summary: in sync when nothing was pushed or pulled and
/// nothing is still owed.
pub fn sweep_result(pushed: usize, pulled: usize, replayed: usize, still_pending: usize) -> (r: crate::model::SyncResult)
    ensures
        r.trip@.len() == 0,
        r.pushed == pushed,
        r.pulled == pulled,
        r.restored == 0,
        r.deleted == 0,
        r.replayed == replayed,
        r.still_pending == still_pending,
        r.in_sync == (pushed == 0 && pulled == 0 && still_pending == 0),
{
    crate::model::SyncResult {
        trip: String::new(),
        pushed,
        pulled,
        restored: 0,
        deleted: 0,
        replayed,
        still_pending,
        in_sync: pushed == 0 && pulled == 0 && still_pending == 0,
    }
}

} // verus!

verus! {

/// Replaying owed ops drops exactly the ones that landed: every op left in the
/// queue was queued before and did not land, and every op that did not land is
/// still queued.
pub proof fn lemma_replay_drops_only_landed(rows: Seq<(i64, PendingOp)>, applied: Seq<PendingOp>)
    ensures
        forall|i: int|
            0 <= i < rows_left(rows, applied).len() ==> !op_in(applied, (#[trigger] rows_left(rows, applied)[i]).1)
                && rows.contains(rows_left(rows, applied)[i]),
        forall|j: int| 0 <= j < rows.len() && !op_in(applied, rows[j].1) ==> rows_left(rows, applied).contains(#[trigger] rows[j]),
    decreases rows.len(),
{
    if rows.len() > 0 {
        let pre = rows.drop_last();
        lemma_replay_drops_only_landed(pre, applied);
        let k = rows_left(rows, applied);
        let kp = rows_left(pre, applied);
        assert forall|i: int| 0 <= i < k.len() implies !op_in(applied, (#[trigger] k[i]).1) && rows.contains(k[i]) by {
            if i < kp.len() {
                assert(k[i] == kp[i]);
                let w = choose|w: int| 0 <= w < pre.len() && pre[w] == kp[i];
                assert(rows[w] == pre[w]);
            } else {
                assert(rows[rows.len() - 1] == k[i]);
            }
        }
        assert forall|j: int| 0 <= j < rows.len() && !op_in(applied, rows[j].1) implies k.contains(#[trigger] rows[j]) by {
            if j < rows.len() - 1 {
                assert(rows[j] == pre[j]);
                let w = choose|w: int| 0 <= w < kp.len() && kp[w] == pre[j];
                assert(k[w] == kp[w]);
            } else {
                assert(k[k.len() - 1] == rows[j]);
            }
        }
    }
}

} // verus!
