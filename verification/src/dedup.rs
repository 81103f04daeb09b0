//! Global deduplication: which copy of a clip found in several places to keep, and
//! what pruning a redundant copy is allowed to do. Identity is `(basename, byte
//! size)`; a prune re-checks byte identity by content id whenever both copies are
//! local, never removes someone else's footage from the shared cloud, and never
//! runs unless a survivor is provably present.
use crate::ledger::{Ledger, LedgerRow};
use crate::text::{lemma_lex_irreflexive, lemma_lex_total, lemma_lex_transitive, lex_lt};
use crate::model::{DupCopy, DupGroup, DupReport};
use crate::text::{
    chars_of, char_is_digit, find_str, first_at, is_digit, join_with, push_joined, split_at_char,
    split_spec, str_eq, views,
};
use vstd::prelude::*;

verus! {

/// A trip name that starts `YYYY-MM-DD` — reel's default when you don't name a
/// trip, so it's the less-meaningful home for a clip than a named one.
pub open spec fn date_prefixed(t: Seq<char>) -> bool {
    &&& t.len() >= 10
    &&& is_digit(t[0]) && is_digit(t[1]) && is_digit(t[2]) && is_digit(t[3])
    &&& t[4] == '-'
    &&& is_digit(t[5]) && is_digit(t[6])
    &&& t[7] == '-'
    &&& is_digit(t[8]) && is_digit(t[9])
}

pub fn is_date_prefixed(t: &str) -> (b: bool)
    ensures
        b == date_prefixed(t@),
{
    let v = chars_of(t);
    v.len() >= 10 && char_is_digit(v[0]) && char_is_digit(v[1]) && char_is_digit(v[2]) && char_is_digit(v[3])
        && v[4] == '-' && char_is_digit(v[5]) && char_is_digit(v[6]) && v[7] == '-' && char_is_digit(v[8])
        && char_is_digit(v[9])
}

/// A trip name that looks generated rather than given: a date range (`…_to_…`)
/// or a date prefix.
pub open spec fn defaultish(t: Seq<char>) -> bool {
    first_at(t, "_to_"@) >= 0 || date_prefixed(t)
}

pub fn looks_defaultish(t: &str) -> (b: bool)
    ensures
        b == defaultish(t@),
{
    let v = chars_of(t);
    find_str(v.as_slice(), "_to_").is_some() || is_date_prefixed(t)
}

/// Rank a copy as the one to keep: a fully-synced copy (local **and** in the
/// cloud) beats a local-only one beats a cloud-only one, and a named trip beats a
/// default date-range name. Higher wins.
pub open spec fn score_spec(c: DupCopy) -> int {
    (if c.local && c.in_cloud {
        100int
    } else if c.local {
        60int
    } else {
        30int
    }) + (if defaultish(c.trip@) { 0int } else { 10int })
}

pub fn score(c: &DupCopy) -> (s: i32)
    ensures
        s == score_spec(*c),
{
    let sync: i32 = if c.local && c.in_cloud {
        100
    } else if c.local {
        60
    } else {
        30
    };
    let named: i32 = if looks_defaultish(c.trip.as_str()) { 0 } else { 10 };
    sync + named
}

/// Index of the copy to keep by default: the first of the top-scoring copies
/// (`copies` is pre-sorted, so the pick is stable across runs); 0 when there are
/// none.
#[verifier::spinoff_prover]
#[verifier::rlimit(40)]
pub fn pick_canonical(copies: &[DupCopy]) -> (best: usize)
    ensures
        copies@.len() == 0 ==> best == 0,
        copies@.len() > 0 ==> {
            &&& best < copies@.len()
            &&& forall|i: int| 0 <= i < copies@.len() ==> score_spec(#[trigger] copies@[i]) <= score_spec(copies@[best as int])
            &&& forall|i: int| 0 <= i < best ==> score_spec(#[trigger] copies@[i]) < score_spec(copies@[best as int])
        },
{
    let mut best: usize = 0;
    let mut best_score: i32 = i32::MIN;
    let mut i: usize = 0;
    while i < copies.len()
        invariant
            i <= copies@.len(),
            i == 0 ==> best == 0 && best_score == i32::MIN,
            i > 0 ==> best < i && best_score == score_spec(copies@[best as int]),
            forall|j: int| 0 <= j < i ==> score_spec(#[trigger] copies@[j]) <= best_score,
            forall|j: int| 0 <= j < best ==> score_spec(#[trigger] copies@[j]) < best_score,
        decreases copies@.len() - i,
    {
        let s = score(&copies[i]);
        if s > best_score {
            best_score = s;
            best = i;
        }
        i = i + 1;
    }
    best
}

/// What pruning one redundant copy does with its cloud copy.
#[derive(Clone, Copy, PartialEq, Eq, Debug, Structural)]
pub enum CloudPrune {
    /// It has none.
    Nothing,
    /// It is someone else's contribution: theirs to keep.
    KeepTheirs,
    /// Yours, and the remote is reachable: delete it.
    Delete,
    /// Yours, but the remote is unreachable: the cloud side is left undone.
    Unreachable,
}

/// The decision for one copy the user chose to prune.
#[derive(Clone, Copy, PartialEq, Eq, Debug, Structural)]
pub enum PruneStep {
    /// Leave it alone: no survivor is provably present, it is the kept copy
    /// itself, or both are local and their content differs.
    Skip,
    /// Prune it: its local file when there is one on disk, and its cloud copy as
    /// the `CloudPrune` says.
    Prune { local: bool, cloud: CloudPrune },
}

/// What pruning a copy may do. A survivor is provably present when the kept copy's
/// local file exists, or it is in the cloud and the cloud is reachable.
pub open spec fn prune_spec(
    keep_local_ok: bool,
    keep_in_cloud: bool,
    online: bool,
    same_as_keep: bool,
    keep_id: Option<Seq<char>>,
    rm_id: Option<Seq<char>>,
    rm_here: bool,
    rm_in_cloud: bool,
    rm_mine: bool,
) -> PruneStep {
    let canonical_safe = keep_local_ok || (online && keep_in_cloud);
    if !canonical_safe || same_as_keep {
        PruneStep::Skip
    } else if keep_id is Some && rm_id is Some && keep_id != rm_id {
        PruneStep::Skip
    } else {
        PruneStep::Prune {
            local: rm_here,
            cloud: if !rm_in_cloud {
                CloudPrune::Nothing
            } else if !rm_mine {
                CloudPrune::KeepTheirs
            } else if online {
                CloudPrune::Delete
            } else {
                CloudPrune::Unreachable
            },
        }
    }
}

/// Decide how to prune one redundant copy: `rm_here` whether it is on disk under
/// the library, the ids the contents of both copies (when local) hash to.
pub fn prune_step(
    keep_local_ok: bool,
    keep_in_cloud: bool,
    online: bool,
    same_as_keep: bool,
    keep_id: Option<&str>,
    rm_id: Option<&str>,
    rm_here: bool,
    rm_in_cloud: bool,
    rm_mine: bool,
) -> (p: PruneStep)
    ensures
        p == prune_spec(
            keep_local_ok,
            keep_in_cloud,
            online,
            same_as_keep,
            crate::media::opt_str(keep_id),
            crate::media::opt_str(rm_id),
            rm_here,
            rm_in_cloud,
            rm_mine,
        ),
{
    let canonical_safe = keep_local_ok || (online && keep_in_cloud);
    if !canonical_safe || same_as_keep {
        return PruneStep::Skip;
    }
    match (keep_id, rm_id) {
        (Some(k), Some(r)) => {
            if !str_eq(k, r) {
                return PruneStep::Skip;
            }
        },
        _ => {},
    }
    let cloud = if !rm_in_cloud {
        CloudPrune::Nothing
    } else if !rm_mine {
        CloudPrune::KeepTheirs
    } else if online {
        CloudPrune::Delete
    } else {
        CloudPrune::Unreachable
    };
    PruneStep::Prune { local: rm_here, cloud }
}

/// Pruning is safe: nothing is pruned unless a survivor is provably present and
/// the pruned copy is not the survivor itself; two local copies are only ever
/// pruned when their content ids agree; and a cloud copy is deleted only when it
/// is yours and the cloud is reachable.
pub proof fn lemma_prune_is_safe(
    keep_local_ok: bool,
    keep_in_cloud: bool,
    online: bool,
    same_as_keep: bool,
    keep_id: Option<Seq<char>>,
    rm_id: Option<Seq<char>>,
    rm_here: bool,
    rm_in_cloud: bool,
    rm_mine: bool,
)
    ensures
        ({
            let p = prune_spec(
                keep_local_ok,
                keep_in_cloud,
                online,
                same_as_keep,
                keep_id,
                rm_id,
                rm_here,
                rm_in_cloud,
                rm_mine,
            );
            &&& p is Prune ==> (keep_local_ok || (online && keep_in_cloud)) && !same_as_keep
            &&& (p is Prune && keep_id is Some && rm_id is Some) ==> keep_id == rm_id
            &&& p == (PruneStep::Prune { local: rm_here, cloud: CloudPrune::Delete }) ==> (rm_mine && rm_in_cloud
                && online)
        }),
{
}

/// The ledger row for content id `id` pointing at `trip`/`rel` instead: person
/// the first segment of `rel`, base its last, camera the ones between.
pub open spec fn repointed(row: Seq<Seq<char>>, trip: Seq<char>, rel: Seq<char>) -> Seq<Seq<char>> {
    let parts = split_spec(rel, '/');
    let camera = if parts.len() >= 3 { join_with(parts.subrange(1, parts.len() - 1), '/') } else { Seq::empty() };
    row.update(1, trip).update(2, parts[0]).update(3, camera).update(4, parts.last())
}

/// Re-point the first ledger row for `id` at the surviving copy, so a content id
/// whose recorded home was just pruned still resolves to a file that exists.
pub fn repoint_ledger(ledger: &mut Ledger, id: &str, keep_trip: &str, keep_rel: &str)
    ensures
        match first_row_with(old(ledger).rows_view(), id@) {
            Some(i) => final(ledger).rows_view() == old(ledger).rows_view().update(
                i,
                repointed(old(ledger).rows_view()[i], keep_trip@, keep_rel@),
            ),
            None => final(ledger).rows_view() == old(ledger).rows_view(),
        },
{
    let ghost before = ledger.rows_view();
    let mut i: usize = 0;
    while i < ledger.rows.len() && !str_eq(ledger.rows[i].id.as_str(), id)
        invariant
            i <= ledger.rows@.len(),
            before == ledger.rows_view(),
            forall|j: int| 0 <= j < i ==> ledger.rows@[j].id@ != id@,
        decreases ledger.rows@.len() - i,
    {
        i = i + 1;
    }
    proof {
        lemma_first_row_with(before, id@, i as int);
    }
    if i == ledger.rows.len() {
        return;
    }
    let rc = chars_of(keep_rel);
    let parts = split_at_char(rc.as_slice(), '/');
    let ghost pv = views(parts@);
    proof {
        crate::text::lemma_split_nonempty(keep_rel@, '/');
        assert(pv =~= split_spec(keep_rel@, '/'));
    }
    let n = parts.len();
    let camera = if n >= 3 {
        let mut mid: Vec<String> = Vec::new();
        let mut k: usize = 1;
        while k < n - 1
            invariant
                1 <= k <= n - 1,
                n == parts@.len(),
                pv == views(parts@),
                views(mid@) == pv.subrange(1, k as int),
            decreases n - 1 - k,
        {
            let ghost om = mid@;
            mid.push(parts[k].clone());
            proof {
                assert(views(mid@) =~= views(om).push(pv[k as int]));
                assert(pv.subrange(1, k + 1) =~= pv.subrange(1, k as int).push(pv[k as int]));
            }
            k = k + 1;
        }
        let mut c = String::new();
        crate::text::push_joined(&mut c, &mid, '/');
        proof {
            assert(c@ =~= join_with(pv.subrange(1, n - 1), '/'));
        }
        c
    } else {
        String::new()
    };
    let ghost cam = if pv.len() >= 3 { join_with(pv.subrange(1, pv.len() - 1), '/') } else { Seq::<char>::empty() };
    assert(camera@ == cam);
    let old_row = ledger.rows[i].duplicate();
    let row = LedgerRow {
        id: old_row.id,
        trip: keep_trip.to_string(),
        person: parts[0].clone(),
        camera,
        base: parts[n - 1].clone(),
        bytes: old_row.bytes,
        captured: old_row.captured,
        imported_at: old_row.imported_at,
    };
    ledger.rows.set(i, row);
    proof {
        assert(pv[0] == parts@[0]@);
        assert(pv.last() == parts@[n - 1]@);
        assert(old_row.fields() == before[i as int]);
        assert(ledger.rows@[i as int].fields() =~= repointed(before[i as int], keep_trip@, keep_rel@));
        assert(ledger.rows_view() =~= before.update(
            i as int,
            repointed(before[i as int], keep_trip@, keep_rel@),
        ));
    }
}

/// The first row for content id `id`, if any.
pub open spec fn first_row_with(rows: Seq<Seq<Seq<char>>>, id: Seq<char>) -> Option<int>
    decreases rows.len(),
{
    if rows.len() == 0 {
        None
    } else if rows[0][0] == id {
        Some(0)
    } else {
        match first_row_with(rows.drop_first(), id) {
            Some(i) => Some(i + 1),
            None => None,
        }
    }
}

proof fn lemma_first_row_with(rows: Seq<Seq<Seq<char>>>, id: Seq<char>, i: int)
    requires
        0 <= i <= rows.len(),
        forall|j: int| 0 <= j < i ==> (#[trigger] rows[j])[0] != id,
        i == rows.len() || rows[i][0] == id,
    ensures
        first_row_with(rows, id) == if i < rows.len() { Some(i) } else { None::<int> },
    decreases rows.len(),
{
    if rows.len() > 0 && i > 0 {
        assert forall|j: int| 0 <= j < i - 1 implies (#[trigger] rows.drop_first()[j])[0] != id by {
            assert(rows.drop_first()[j] == rows[j + 1]);
        }
        lemma_first_row_with(rows.drop_first(), id, i - 1);
    }
}

} // verus!

verus! {

/// One place a clip was found while scanning: a `(trip, rel)` on disk, in the
/// cloud, or both, with its size and (when on disk) its path.
#[derive(Clone, Debug)]
pub struct ScanLoc {
    pub trip: String,
    pub rel: String,
    pub size: u64,
    pub local: bool,
    pub in_cloud: bool,
    pub path: Option<String>,
}

/// A scanned location as plain values.
pub struct Spot {
    pub trip: Seq<char>,
    pub rel: Seq<char>,
    pub size: u64,
    pub local: bool,
    pub in_cloud: bool,
    pub path: Option<Seq<char>>,
}

pub open spec fn spot(l: ScanLoc) -> Spot {
    Spot {
        trip: l.trip@,
        rel: l.rel@,
        size: l.size,
        local: l.local,
        in_cloud: l.in_cloud,
        path: match l.path {
            Some(p) => Some(p@),
            None => None,
        },
    }
}

pub open spec fn spots(ls: Seq<ScanLoc>) -> Seq<Spot> {
    ls.map_values(|l: ScanLoc| spot(l))
}

/// The last index of the location `(trip, rel)`, or -1.
pub open spec fn spot_index(ls: Seq<Spot>, trip: Seq<char>, rel: Seq<char>) -> int
    decreases ls.len(),
{
    if ls.len() == 0 {
        -1
    } else if ls.last().trip == trip && ls.last().rel == rel {
        ls.len() - 1
    } else {
        spot_index(ls.drop_last(), trip, rel)
    }
}

/// The locations after a master on disk at `(trip, rel)` is seen: it is local,
/// with that size and path.
pub open spec fn with_local(ls: Seq<Spot>, trip: Seq<char>, rel: Seq<char>, size: u64, path: Seq<char>) -> Seq<Spot> {
    let i = spot_index(ls, trip, rel);
    if i >= 0 {
        ls.update(i, Spot { local: true, size, path: Some(path), ..ls[i] })
    } else {
        ls.push(Spot { trip, rel, size, local: true, in_cloud: false, path: Some(path) })
    }
}

/// The locations after a cloud file at `(trip, rel)` is seen: it is in the cloud,
/// taking the cloud's size only when it is not on disk.
pub open spec fn with_cloud(ls: Seq<Spot>, trip: Seq<char>, rel: Seq<char>, size: u64) -> Seq<Spot> {
    let i = spot_index(ls, trip, rel);
    if i >= 0 {
        ls.update(i, Spot { in_cloud: true, size: if ls[i].local { ls[i].size } else { size }, ..ls[i] })
    } else {
        ls.push(Spot { trip, rel, size, local: false, in_cloud: true, path: None })
    }
}

/// A cloud listing path as `(trip, rel)`: backslashes as `/`, captures only, split
/// at the first `/` (a file at the cloud root has no trip and is ignored).
pub open spec fn cloud_key(path: Seq<char>) -> Option<(Seq<char>, Seq<char>)> {
    let p = crate::text::replace_char(path, '\\', "/"@);
    let i = crate::text::idx_of(p, '/');
    if p.len() == 0 || !(crate::media::has_ext_spec(p, crate::media::video_exts()) || crate::media::has_ext_spec(
        p,
        crate::media::photo_exts(),
    )) || i >= p.len() {
        None
    } else {
        Some((p.take(i), p.skip(i + 1)))
    }
}

/// Every location found: the masters on disk `(trip, rel, size, path)` first,
/// then the cloud listing `(path, size)`.
pub open spec fn scanned(local: Seq<(String, String, u64, String)>, cloud: Seq<(String, u64)>) -> Seq<Spot>
    decreases cloud.len(), local.len(),
{
    if cloud.len() > 0 {
        let before = scanned(local, cloud.drop_last());
        match cloud_key(cloud.last().0@) {
            Some((trip, rel)) => with_cloud(before, trip, rel, cloud.last().1),
            None => before,
        }
    } else if local.len() > 0 {
        let e = local.last();
        with_local(scanned(local.drop_last(), cloud), e.0@, e.1@, e.2, e.3@)
    } else {
        Seq::empty()
    }
}

/// No two locations share a `(trip, rel)`.
pub open spec fn distinct_spots(ls: Seq<Spot>) -> bool {
    forall|a: int, b: int|
        0 <= a < b < ls.len() ==> !(#[trigger] ls[a].trip == #[trigger] ls[b].trip && ls[a].rel == ls[b].rel)
}

proof fn lemma_spot_index(ls: Seq<Spot>, trip: Seq<char>, rel: Seq<char>, j: int)
    requires
        -1 <= j < ls.len(),
        j >= 0 ==> ls[j].trip == trip && ls[j].rel == rel,
        forall|k: int| j < k < ls.len() ==> !(#[trigger] ls[k].trip == trip && ls[k].rel == rel),
    ensures
        spot_index(ls, trip, rel) == j,
    decreases ls.len(),
{
    if ls.len() > 0 && j < ls.len() - 1 {
        lemma_spot_index(ls.drop_last(), trip, rel, j);
    }
}

proof fn lemma_spot_absent(ls: Seq<Spot>, trip: Seq<char>, rel: Seq<char>)
    requires
        spot_index(ls, trip, rel) == -1,
    ensures
        forall|k: int| 0 <= k < ls.len() ==> !(#[trigger] ls[k].trip == trip && ls[k].rel == rel),
    decreases ls.len(),
{
    if ls.len() > 0 {
        lemma_spot_absent(ls.drop_last(), trip, rel);
        assert forall|k: int| 0 <= k < ls.len() implies !(#[trigger] ls[k].trip == trip && ls[k].rel == rel) by {
            if k < ls.len() - 1 {
                assert(ls.drop_last()[k] == ls[k]);
            }
        }
    }
}

/// The index of `(trip, rel)` among `ls`, or -1.
fn find_spot(ls: &Vec<ScanLoc>, trip: &str, rel: &str) -> (i: isize)
    requires
        ls@.len() < isize::MAX,
    ensures
        i == spot_index(spots(ls@), trip@, rel@),
        -1 <= i < ls@.len(),
{
    let ghost sv = spots(ls@);
    let mut j: usize = ls.len();
    while j > 0 && !(str_eq(ls[j - 1].trip.as_str(), trip) && str_eq(ls[j - 1].rel.as_str(), rel))
        invariant
            j <= ls@.len(),
            sv == spots(ls@),
            forall|k: int| j <= k < sv.len() ==> !(#[trigger] sv[k].trip == trip@ && sv[k].rel == rel@),
        decreases j,
    {
        j = j - 1;
    }
    proof {
        lemma_spot_index(sv, trip@, rel@, j - 1);
    }
    j as isize - 1
}

/// Where a cloud listing path belongs: `(trip, rel)`, or `None` when it is not a
/// capture or has no trip folder.
pub fn cloud_key_of(path: &str) -> (r: Option<(String, String)>)
    ensures
        match r {
            Some((t, l)) => cloud_key(path@) == Some((t@, l@)),
            None => cloud_key(path@) is None,
        },
{
    let pc = chars_of(path);
    let p = crate::text::replace_all(pc.as_slice(), '\\', "/");
    let v = chars_of(p.as_str());
    let i = crate::text::find_char(v.as_slice(), '/');
    if v.len() == 0 || !crate::media::is_capture(p.as_str()) || i >= v.len() {
        return None;
    }
    let trip = crate::text::slice_string(v.as_slice(), 0, i);
    let rel = crate::text::slice_string(v.as_slice(), i + 1, v.len());
    proof {
        assert(v@.subrange(0, i as int) =~= v@.take(i as int));
        assert(v@.subrange(i + 1, v@.len() as int) =~= v@.skip(i + 1));
    }
    Some((trip, rel))
}

/// `x` is the size of some master on disk or some cloud file.
pub open spec fn size_from(local: Seq<(String, String, u64, String)>, cloud: Seq<(String, u64)>, x: u64) -> bool {
    (exists|i: int| 0 <= i < local.len() && (#[trigger] local[i]).2 == x) || (exists|i: int|
        0 <= i < cloud.len() && (#[trigger] cloud[i]).1 == x)
}

/// Merge the masters on disk and the cloud listing into one location per
/// `(trip, rel)`: local when on disk (with its size and path), in the cloud when
/// listed there (with the cloud's size only when not on disk).
pub fn merge_locs(local: &[(String, String, u64, String)], cloud: &[(String, u64)]) -> (r: Vec<ScanLoc>)
    requires
        local@.len() + cloud@.len() < isize::MAX,
    ensures
        spots(r@) == scanned(local@, cloud@),
        distinct_spots(spots(r@)),
        r@.len() <= local@.len() + cloud@.len(),
        forall|k: int| 0 <= k < r@.len() ==> size_from(local@, cloud@, #[trigger] r@[k].size),
{
    let mut r: Vec<ScanLoc> = Vec::new();
    let mut i: usize = 0;
    proof {
        assert(spots(r@) =~= scanned(local@.take(0), cloud@.take(0)));
    }
    while i < local.len()
        invariant
            i <= local@.len(),
            local@.len() + cloud@.len() < isize::MAX,
            r@.len() <= i,
            spots(r@) == scanned(local@.take(i as int), cloud@.take(0)),
            distinct_spots(spots(r@)),
            forall|k: int| 0 <= k < r@.len() ==> size_from(local@, cloud@, #[trigger] r@[k].size),
        decreases local@.len() - i,
    {
        proof {
            assert(local@.take(i + 1).drop_last() =~= local@.take(i as int));
            assert(local@.take(i + 1).last() == local@[i as int]);
            assert(cloud@.take(0).len() == 0);
        }
        let e = &local[i];
        let ghost before = spots(r@);
        let k = find_spot(&r, e.0.as_str(), e.1.as_str());
        if k >= 0 {
            let ku = k as usize;
            let n = ScanLoc {
                trip: r[ku].trip.clone(),
                rel: r[ku].rel.clone(),
                size: e.2,
                local: true,
                in_cloud: r[ku].in_cloud,
                path: Some(e.3.clone()),
            };
            proof {
                assert(spot(n) == Spot { local: true, size: e.2, path: Some(e.3@), ..before[ku as int] });
            }
            r.set(ku, n);
            proof {
                assert(spots(r@) =~= before.update(ku as int, spot(n)));
                let sv = spots(r@);
                assert forall|a: int, b: int| 0 <= a < b < sv.len() implies !(#[trigger] sv[a].trip == #[trigger] sv[b].trip
                    && sv[a].rel == sv[b].rel) by {
                    assert(sv[a].trip == before[a].trip && sv[a].rel == before[a].rel);
                    assert(sv[b].trip == before[b].trip && sv[b].rel == before[b].rel);
                }
            }
        } else {
            let n = ScanLoc {
                trip: e.0.clone(),
                rel: e.1.clone(),
                size: e.2,
                local: true,
                in_cloud: false,
                path: Some(e.3.clone()),
            };
            r.push(n);
            proof {
                assert(spots(r@) =~= before.push(spot(n)));
                lemma_spot_absent(before, e.0@, e.1@);
                let sv = spots(r@);
                assert forall|a: int, b: int| 0 <= a < b < sv.len() implies !(#[trigger] sv[a].trip == #[trigger] sv[b].trip
                    && sv[a].rel == sv[b].rel) by {
                    if b < before.len() {
                        assert(sv[a] == before[a] && sv[b] == before[b]);
                    } else {
                        assert(sv[a] == before[a]);
                    }
                }
            }
        }
        i = i + 1;
    }
    let mut j: usize = 0;
    proof {
        assert(local@.take(i as int) =~= local@);
    }
    while j < cloud.len()
        invariant
            j <= cloud@.len(),
            local@.len() + cloud@.len() < isize::MAX,
            r@.len() <= local@.len() + j,
            spots(r@) == scanned(local@, cloud@.take(j as int)),
            distinct_spots(spots(r@)),
            forall|k: int| 0 <= k < r@.len() ==> size_from(local@, cloud@, #[trigger] r@[k].size),
        decreases cloud@.len() - j,
    {
        proof {
            assert(cloud@.take(j + 1).drop_last() =~= cloud@.take(j as int));
            assert(cloud@.take(j + 1).last() == cloud@[j as int]);
        }
        let ghost before = spots(r@);
        match cloud_key_of(cloud[j].0.as_str()) {
            Some((trip, rel)) => {
                let k = find_spot(&r, trip.as_str(), rel.as_str());
                if k >= 0 {
                    let ku = k as usize;
                    let size = if r[ku].local { r[ku].size } else { cloud[j].1 };
                    let path = match &r[ku].path {
                        Some(p) => Some(p.clone()),
                        None => None,
                    };
                    let n = ScanLoc {
                        trip: r[ku].trip.clone(),
                        rel: r[ku].rel.clone(),
                        size,
                        local: r[ku].local,
                        in_cloud: true,
                        path,
                    };
                    r.set(ku, n);
                    proof {
                        assert(spots(r@) =~= before.update(
                            ku as int,
                            Spot {
                                in_cloud: true,
                                size: if before[ku as int].local { before[ku as int].size } else { cloud@[j as int].1 },
                                ..before[ku as int]
                            },
                        ));
                        let sv = spots(r@);
                        assert forall|a: int, b: int| 0 <= a < b < sv.len() implies !(#[trigger] sv[a].trip
                            == #[trigger] sv[b].trip && sv[a].rel == sv[b].rel) by {
                            assert(sv[a].trip == before[a].trip && sv[a].rel == before[a].rel);
                            assert(sv[b].trip == before[b].trip && sv[b].rel == before[b].rel);
                        }
                    }
                } else {
                    let n = ScanLoc { trip, rel, size: cloud[j].1, local: false, in_cloud: true, path: None };
                    r.push(n);
                    proof {
                        assert(spots(r@) =~= before.push(spot(n)));
                        lemma_spot_absent(before, trip@, rel@);
                        let sv = spots(r@);
                        assert forall|a: int, b: int| 0 <= a < b < sv.len() implies !(#[trigger] sv[a].trip
                            == #[trigger] sv[b].trip && sv[a].rel == sv[b].rel) by {
                            if b < before.len() {
                                assert(sv[a] == before[a] && sv[b] == before[b]);
                            } else {
                                assert(sv[a] == before[a]);
                            }
                        }
                    }
                }
            },
            None => {},
        }
        j = j + 1;
    }
    proof {
        assert(cloud@.take(j as int) =~= cloud@);
    }
    r
}

} // verus!

verus! {

/// A location's content identity: its basename and size.
pub open spec fn same_key(a: Spot, b: Spot) -> bool {
    crate::text::last_seg(a.rel) == crate::text::last_seg(b.rel) && a.size == b.size
}

pub open spec fn key_lt(a: Spot, b: Spot) -> bool {
    lex_lt(crate::text::last_seg(a.rel), crate::text::last_seg(b.rel)) || (crate::text::last_seg(a.rel)
        == crate::text::last_seg(b.rel) && a.size < b.size)
}

/// Order within one identity: by trip, then by rel.
pub open spec fn pos_lt(a: Spot, b: Spot) -> bool {
    lex_lt(a.trip, b.trip) || (a.trip == b.trip && lex_lt(a.rel, b.rel))
}

/// The scan order: by identity, then trip, then rel.
pub open spec fn spot_lt(a: Spot, b: Spot) -> bool {
    key_lt(a, b) || (same_key(a, b) && pos_lt(a, b))
}

pub open spec fn sorted_spots(s: Seq<Spot>) -> bool {
    forall|i: int, j: int| 0 <= i < j < s.len() ==> !spot_lt(#[trigger] s[j], #[trigger] s[i])
}

proof fn lemma_key_order(a: Spot, b: Spot, c: Spot)
    ensures
        !key_lt(a, a),
        key_lt(a, b) && key_lt(b, c) ==> key_lt(a, c),
        key_lt(a, b) ==> !key_lt(b, a),
        !same_key(a, b) ==> key_lt(a, b) || key_lt(b, a),
        same_key(a, b) ==> (key_lt(a, c) == key_lt(b, c) && key_lt(c, a) == key_lt(c, b)),
        key_lt(a, b) ==> !same_key(a, b),
{
    let (x, y, z) = (crate::text::last_seg(a.rel), crate::text::last_seg(b.rel), crate::text::last_seg(c.rel));
    lemma_lex_irreflexive(x);
    lemma_lex_irreflexive(y);
    if lex_lt(x, y) && lex_lt(y, z) {
        lemma_lex_transitive(x, y, z);
    }
    if lex_lt(x, y) && lex_lt(y, x) {
        lemma_lex_transitive(x, y, x);
    }
    if x != y {
        lemma_lex_total(x, y);
    }
}

proof fn lemma_pos_order(a: Spot, b: Spot, c: Spot)
    ensures
        !pos_lt(a, a),
        pos_lt(a, b) && pos_lt(b, c) ==> pos_lt(a, c),
        pos_lt(a, b) ==> !pos_lt(b, a),
        !(a.trip == b.trip && a.rel == b.rel) ==> pos_lt(a, b) || pos_lt(b, a),
{
    lemma_lex_irreflexive(a.trip);
    lemma_lex_irreflexive(a.rel);
    if lex_lt(a.trip, b.trip) && lex_lt(b.trip, c.trip) {
        lemma_lex_transitive(a.trip, b.trip, c.trip);
    }
    if lex_lt(a.rel, b.rel) && lex_lt(b.rel, c.rel) {
        lemma_lex_transitive(a.rel, b.rel, c.rel);
    }
    if lex_lt(a.trip, b.trip) && lex_lt(b.trip, a.trip) {
        lemma_lex_transitive(a.trip, b.trip, a.trip);
    }
    if lex_lt(a.rel, b.rel) && lex_lt(b.rel, a.rel) {
        lemma_lex_transitive(a.rel, b.rel, a.rel);
    }
    if a.trip != b.trip {
        lemma_lex_total(a.trip, b.trip);
    }
    if a.rel != b.rel {
        lemma_lex_total(a.rel, b.rel);
    }
}

/// Two locations the scan order cannot tell apart.
pub open spec fn spot_tie(a: Spot, b: Spot) -> bool {
    same_key(a, b) && a.trip == b.trip && a.rel == b.rel
}

proof fn lemma_spot_order(a: Spot, b: Spot, c: Spot)
    ensures
        !spot_lt(a, a),
        spot_lt(a, b) && spot_lt(b, c) ==> spot_lt(a, c),
        !spot_lt(a, b) && !spot_lt(b, a) ==> spot_tie(a, b),
        spot_tie(a, b) ==> (spot_lt(c, a) == spot_lt(c, b) && spot_lt(a, c) == spot_lt(b, c)),
{
    lemma_key_order(a, b, c);
    lemma_key_order(b, c, a);
    lemma_key_order(c, a, b);
    lemma_key_order(a, c, b);
    lemma_key_order(b, a, c);
    lemma_pos_order(a, b, c);
    lemma_pos_order(b, c, a);
    lemma_pos_order(b, a, c);
    lemma_pos_order(c, a, b);
}

/// Whether `a` comes before `b` in the scan order.
fn loc_lt(a: &ScanLoc, b: &ScanLoc) -> (r: bool)
    ensures
        r == spot_lt(spot(*a), spot(*b)),
{
    let ba = crate::text::last_segment(a.rel.as_str());
    let bb = crate::text::last_segment(b.rel.as_str());
    let bac = chars_of(ba.as_str());
    let bbc = chars_of(bb.as_str());
    let kb = crate::text::lex_order(bac.as_slice(), bbc.as_slice());
    if kb == -1 {
        return true;
    }
    if kb == 1 {
        return false;
    }
    if a.size != b.size {
        return a.size < b.size;
    }
    let tac = chars_of(a.trip.as_str());
    let tbc = chars_of(b.trip.as_str());
    let kt = crate::text::lex_order(tac.as_slice(), tbc.as_slice());
    if kt != 0 {
        return kt == -1;
    }
    let rac = chars_of(a.rel.as_str());
    let rbc = chars_of(b.rel.as_str());
    crate::text::lex_order(rac.as_slice(), rbc.as_slice()) == -1
}

fn dup_loc(l: &ScanLoc) -> (c: ScanLoc)
    ensures
        spot(c) == spot(*l),
{
    ScanLoc {
        trip: l.trip.clone(),
        rel: l.rel.clone(),
        size: l.size,
        local: l.local,
        in_cloud: l.in_cloud,
        path: match &l.path {
            Some(p) => Some(p.clone()),
            None => None,
        },
    }
}

/// The locations in scan order.
fn sort_locs(ls: &Vec<ScanLoc>) -> (r: Vec<ScanLoc>)
    requires
        distinct_spots(spots(ls@)),
    ensures
        spots(r@).to_multiset() == spots(ls@).to_multiset(),
        sorted_spots(spots(r@)),
        distinct_spots(spots(r@)),
        r@.len() == ls@.len(),
{
    broadcast use vstd::seq_lib::to_multiset_insert, vstd::seq_lib::to_multiset_contains;

    let ghost lv = spots(ls@);
    let mut r: Vec<ScanLoc> = Vec::new();
    let mut i: usize = 0;
    proof {
        assert(spots(r@) =~= lv.take(0));
    }
    while i < ls.len()
        invariant
            i <= ls@.len(),
            lv == spots(ls@),
            distinct_spots(lv),
            r@.len() == i,
            spots(r@).to_multiset() == lv.take(i as int).to_multiset(),
            sorted_spots(spots(r@)),
            distinct_spots(spots(r@)),
        decreases ls@.len() - i,
    {
        let x = &ls[i];
        let ghost xs = spot(*x);
        let mut p: usize = 0;
        while p < r.len() && !loc_lt(x, &r[p])
            invariant
                p <= r@.len(),
                xs == spot(*x),
                forall|k: int| 0 <= k < p ==> !spot_lt(xs, #[trigger] spots(r@)[k]),
            decreases r@.len() - p,
        {
            p = p + 1;
        }
        let ghost before = spots(r@);
        proof {
            // `x` is not tied with anything already placed: all of those came from
            // earlier locations, which differ from it in `(trip, rel)`.
            assert forall|k: int| 0 <= k < before.len() implies !(xs.trip == (#[trigger] before[k]).trip && xs.rel
                == before[k].rel) by {
                assert(before.contains(before[k]));
                vstd::seq_lib::to_multiset_contains(before, before[k]);
                vstd::seq_lib::to_multiset_contains(lv.take(i as int), before[k]);
                assert(lv.take(i as int).contains(before[k]));
                let k2 = choose|k2: int| 0 <= k2 < lv.take(i as int).len() && lv.take(i as int)[k2] == before[k];
                assert(lv[k2] == before[k]);
                assert(lv[i as int] == xs);
            }
            assert forall|k: int| p <= k < before.len() implies spot_lt(xs, #[trigger] before[k]) by {
                let rp = before[p as int];
                assert(spot_lt(xs, rp));
                if k > p {
                    assert(!(xs.trip == before[k].trip && xs.rel == before[k].rel));
                    assert(!spot_lt(before[k], rp));
                    lemma_spot_order(before[k], rp, xs);
                    lemma_spot_order(xs, rp, before[k]);
                    lemma_spot_order(rp, before[k], xs);
                }
            }
        }
        r.insert(p, dup_loc(x));
        proof {
            let nv = spots(r@);
            assert(nv =~= before.insert(p as int, xs));
            assert(lv.take(i + 1) =~= lv.take(i as int).push(lv[i as int]));
            vstd::seq_lib::to_multiset_build(lv.take(i as int), xs);
            vstd::seq_lib::to_multiset_insert(before, p as int, xs);
            assert(nv.to_multiset() =~= lv.take(i + 1).to_multiset());
            assert forall|a: int, b: int| 0 <= a < b < nv.len() implies !spot_lt(#[trigger] nv[b], #[trigger] nv[a]) by {
                if a < p && b == p {
                    assert(nv[a] == before[a]);
                    assert(!spot_lt(xs, before[a]));
                } else if a == p && b > p {
                    assert(nv[b] == before[b - 1]);
                    lemma_spot_order(nv[b], xs, nv[b]);
                    lemma_spot_order(xs, nv[b], xs);
                } else if a < p && b > p {
                    assert(nv[a] == before[a] && nv[b] == before[b - 1]);
                } else if b < p {
                    assert(nv[a] == before[a] && nv[b] == before[b]);
                } else {
                    assert(nv[a] == before[a - 1] && nv[b] == before[b - 1]);
                }
            }
            assert forall|a: int, b: int| 0 <= a < b < nv.len() implies !(#[trigger] nv[a].trip == #[trigger] nv[b].trip
                && nv[a].rel == nv[b].rel) by {
                if a == p {
                    assert(nv[b] == before[b - 1]);
                } else if b == p {
                    assert(nv[a] == before[a]);
                } else if a < p && b < p {
                    assert(nv[a] == before[a] && nv[b] == before[b]);
                } else if a < p {
                    assert(nv[a] == before[a] && nv[b] == before[b - 1]);
                } else {
                    assert(nv[a] == before[a - 1] && nv[b] == before[b - 1]);
                }
            }
        }
        i = i + 1;
    }
    proof {
        assert(lv.take(i as int) =~= lv);
    }
    r
}

} // verus!

verus! {

/// A cloud-relative path's owner: its text up to the first `/`.
pub open spec fn owner_of(rel: Seq<char>) -> Seq<char> {
    rel.take(crate::text::idx_of(rel, '/'))
}

/// `c` is the copy a scanned location `s` reads as, for `user`.
pub open spec fn copy_is(c: DupCopy, user: Seq<char>, s: Spot) -> bool {
    &&& c.trip@ == s.trip
    &&& c.rel@ == s.rel
    &&& c.person@ == owner_of(s.rel)
    &&& c.name@ == crate::text::last_seg(s.rel)
    &&& c.bytes == s.size
    &&& c.local == s.local
    &&& c.in_cloud == s.in_cloud
    &&& c.mine == (owner_of(s.rel) == user)
    &&& (match c.path {
        Some(p) => s.path == Some(p@),
        None => s.path is None,
    })
}

fn copy_of(user: &str, l: &ScanLoc) -> (c: DupCopy)
    ensures
        copy_is(c, user@, spot(*l)),
{
    let rc = chars_of(l.rel.as_str());
    let i = crate::text::find_char(rc.as_slice(), '/');
    let person = crate::text::slice_string(rc.as_slice(), 0, i);
    proof {
        assert(rc@.subrange(0, i as int) =~= owner_of(l.rel@));
    }
    let mine = str_eq(person.as_str(), user);
    DupCopy {
        trip: l.trip.clone(),
        person,
        rel: l.rel.clone(),
        name: crate::text::last_segment(l.rel.as_str()),
        bytes: l.size,
        local: l.local,
        in_cloud: l.in_cloud,
        mine,
        path: match &l.path {
            Some(p) => Some(p.clone()),
            None => None,
        },
    }
}

/// `g` is a duplicate group read from the scanned locations `ls`: two or more
/// copies of one clip (same basename and size), each a location of `ls`, in trip
/// then rel order, with the space pruning all but one frees, and the default pick.
pub open spec fn group_ok(g: DupGroup, user: Seq<char>, ls: Seq<Spot>) -> bool {
    let cs = g.copies@;
    &&& cs.len() >= 2
    &&& g.key@ == g.name@ + seq!['|'] + crate::text::dec(g.bytes as nat)
    &&& g.reclaimable == g.bytes * (cs.len() - 1)
    &&& g.suggested_keep < cs.len()
    &&& forall|i: int| 0 <= i < cs.len() ==> score_spec(#[trigger] cs[i]) <= score_spec(cs[g.suggested_keep as int])
    &&& forall|i: int| 0 <= i < g.suggested_keep ==> score_spec(#[trigger] cs[i]) < score_spec(cs[g.suggested_keep as int])
    &&& forall|k: int|
        0 <= k < cs.len() ==> exists|j: int|
            0 <= j < ls.len() && copy_is(#[trigger] cs[k], user, ls[j]) && crate::text::last_seg(ls[j].rel) == g.name@
                && ls[j].size == g.bytes
    &&& forall|a: int, b: int|
        0 <= a < b < cs.len() ==> lex_lt((#[trigger] cs[a]).trip@, (#[trigger] cs[b]).trip@) || (cs[a].trip@
            == cs[b].trip@ && lex_lt(cs[a].rel@, cs[b].rel@))
}

/// Every location of `g`'s identity (its name and size) is one of its copies.
#[verifier::opaque]
pub open spec fn group_complete(g: DupGroup, ls: Seq<Spot>) -> bool {
    forall|j: int|
        0 <= j < ls.len() && crate::text::last_seg(#[trigger] ls[j].rel) == g.name@ && ls[j].size == g.bytes
            ==> holds_spot(g, ls[j])
}

/// `g`'s identity is that of one of the first `i` locations of `s`.
#[verifier::opaque]
pub open spec fn keyed_before(g: DupGroup, s: Seq<Spot>, i: int) -> bool {
    exists|q: int| 0 <= q < i && #[trigger] key_at(g, s[q])
}

/// `g` is the group of `s`'s identity.
pub open spec fn key_at(g: DupGroup, s: Spot) -> bool {
    g.name@ == crate::text::last_seg(s.rel) && g.bytes == s.size
}

/// Some copy of `g` is the location `s`.
pub open spec fn holds_spot(g: DupGroup, s: Spot) -> bool {
    exists|k: int| 0 <= k < g.copies@.len() && (#[trigger] g.copies@[k]).trip@ == s.trip && g.copies@[k].rel@ == s.rel
}

/// No two groups are for the same clip: their `(name, bytes)` differ.
#[verifier::opaque]
pub open spec fn keys_distinct(gs: Seq<DupGroup>) -> bool {
    forall|a: int, b: int|
        0 <= a < b < gs.len() ==> !((#[trigger] gs[a]).name@ == (#[trigger] gs[b]).name@ && gs[a].bytes == gs[b].bytes)
}

/// Some group holds a copy at `(trip, rel)`.
pub open spec fn grouped(gs: Seq<DupGroup>, trip: Seq<char>, rel: Seq<char>) -> bool {
    exists|gi: int, k: int|
        0 <= gi < gs.len() && 0 <= k < gs[gi].copies@.len() && (#[trigger] gs[gi].copies@[k]).trip@ == trip
            && gs[gi].copies@[k].rel@ == rel
}

/// Group order: more reclaimable space first, then by name.
pub open spec fn group_before(a: DupGroup, b: DupGroup) -> bool {
    a.reclaimable > b.reclaimable || (a.reclaimable == b.reclaimable && lex_lt(a.name@, b.name@))
}

pub open spec fn reclaim_sum(gs: Seq<DupGroup>) -> int
    decreases gs.len(),
{
    if gs.len() == 0 {
        0
    } else {
        reclaim_sum(gs.drop_last()) + gs.last().reclaimable
    }
}

proof fn lemma_reclaim_insert(gs: Seq<DupGroup>, p: int, g: DupGroup)
    requires
        0 <= p <= gs.len(),
    ensures
        reclaim_sum(gs.insert(p, g)) == reclaim_sum(gs) + g.reclaimable,
    decreases gs.len(),
{
    if p < gs.len() {
        lemma_reclaim_insert(gs.drop_last(), p, g);
        assert(gs.insert(p, g).drop_last() =~= gs.drop_last().insert(p, g));
    } else {
        assert(gs.insert(p, g).drop_last() =~= gs);
    }
}

proof fn lemma_contiguous(s: Seq<Spot>, a: int, c: int, b: int)
    requires
        sorted_spots(s),
        0 <= a < c < b < s.len(),
        same_key(s[a], s[b]),
    ensures
        same_key(s[c], s[a]),
{
    assert(!spot_lt(s[c], s[a]));
    assert(!spot_lt(s[b], s[c]));
    lemma_key_order(s[c], s[a], s[b]);
    lemma_key_order(s[a], s[b], s[c]);
    lemma_key_order(s[b], s[a], s[c]);
}

/// Build one group from the run `s[i..j]` of locations sharing an identity.
fn group_of(user: &str, sorted: &Vec<ScanLoc>, i: usize, j: usize) -> (g: DupGroup)
    requires
        i + 2 <= j <= sorted@.len(),
        sorted_spots(spots(sorted@)),
        distinct_spots(spots(sorted@)),
        forall|k: int| i <= k < j ==> same_key(#[trigger] spots(sorted@)[k], spots(sorted@)[i as int]),
        sorted@[i as int].size * (j - i) <= u64::MAX,
    ensures
        g.copies@.len() == j - i,
        g.name@ == crate::text::last_seg(sorted@[i as int].rel@),
        g.bytes == sorted@[i as int].size,
        forall|k: int| 0 <= k < j - i ==> copy_is(#[trigger] g.copies@[k], user@, spots(sorted@)[i + k]),
        g.key@ == g.name@ + seq!['|'] + crate::text::dec(g.bytes as nat),
        g.reclaimable == g.bytes * (j - i - 1),
        g.suggested_keep < j - i,
        forall|k: int| 0 <= k < j - i ==> score_spec(#[trigger] g.copies@[k]) <= score_spec(g.copies@[g.suggested_keep as int]),
        forall|k: int| 0 <= k < g.suggested_keep ==> score_spec(#[trigger] g.copies@[k]) < score_spec(g.copies@[g.suggested_keep as int]),
        forall|a: int, b: int|
            0 <= a < b < j - i ==> lex_lt((#[trigger] g.copies@[a]).trip@, (#[trigger] g.copies@[b]).trip@) || (
            g.copies@[a].trip@ == g.copies@[b].trip@ && lex_lt(g.copies@[a].rel@, g.copies@[b].rel@)),
{
    let ghost s = spots(sorted@);
    let mut copies: Vec<DupCopy> = Vec::new();
    let mut k: usize = i;
    while k < j
        invariant
            i <= k <= j <= sorted@.len(),
            s == spots(sorted@),
            copies@.len() == k - i,
            forall|m: int| 0 <= m < k - i ==> copy_is(#[trigger] copies@[m], user@, s[i + m]),
        decreases j - k,
    {
        copies.push(copy_of(user, &sorted[k]));
        k = k + 1;
    }
    let name = crate::text::last_segment(sorted[i].rel.as_str());
    let size = sorted[i].size;
    let n = j - i;
    proof {
        assert(size * (n - 1) <= size * n) by (nonlinear_arith)
            requires
                n >= 2,
        ;
    }
    let reclaimable = size * ((n - 1) as u64);
    let mut key = name.clone();
    key.push('|');
    crate::text::push_str(&mut key, crate::text::u64_dec(size).as_str());
    proof {
        assert(key@ =~= name@ + seq!['|'] + crate::text::dec(size as nat));
        assert forall|a: int, b: int| 0 <= a < b < j - i implies lex_lt((#[trigger] copies@[a]).trip@, (#[trigger] copies@[b]).trip@)
            || (copies@[a].trip@ == copies@[b].trip@ && lex_lt(copies@[a].rel@, copies@[b].rel@)) by {
            let (x, y) = (s[i + a], s[i + b]);
            assert(!spot_lt(y, x));
            assert(same_key(x, s[i as int]) && same_key(y, s[i as int]));
            assert(!(x.trip == y.trip && x.rel == y.rel));
            lemma_pos_order(x, y, x);
        }
    }
    let keep = pick_canonical(copies.as_slice());
    DupGroup { key, name, bytes: size, copies, reclaimable, suggested_keep: keep }
}

} // verus!

verus! {

fn same_identity(a: &ScanLoc, b: &ScanLoc) -> (r: bool)
    ensures
        r == same_key(spot(*a), spot(*b)),
{
    let ba = crate::text::last_segment(a.rel.as_str());
    let bb = crate::text::last_segment(b.rel.as_str());
    str_eq(ba.as_str(), bb.as_str()) && a.size == b.size
}

/// The end of the run of locations sharing `sorted[i]`'s identity.
fn run_end(sorted: &Vec<ScanLoc>, i: usize) -> (j: usize)
    requires
        i < sorted@.len(),
    ensures
        i < j <= sorted@.len(),
        forall|k: int| i <= k < j ==> same_key(#[trigger] spots(sorted@)[k], spots(sorted@)[i as int]),
        j < sorted@.len() ==> !same_key(spots(sorted@)[j as int], spots(sorted@)[i as int]),
{
    let ghost s = spots(sorted@);
    let n = sorted.len();
    let mut j: usize = i + 1;
    while j < n && same_identity(&sorted[j], &sorted[i])
        invariant
            i < j <= n,
            n == sorted@.len(),
            s == spots(sorted@),
            forall|k: int| i <= k < j ==> same_key(#[trigger] s[k], s[i as int]),
        decreases n - j,
    {
        j = j + 1;
    }
    j
}

/// In scan order, nothing outside a maximal run shares its identity.
proof fn lemma_run_isolated(s: Seq<Spot>, i: int, j: int)
    requires
        sorted_spots(s),
        0 <= i < j <= s.len(),
        0 < i ==> !same_key(s[i - 1], s[i]),
        forall|k: int| i <= k < j ==> same_key(#[trigger] s[k], s[i]),
        j < s.len() ==> !same_key(s[j], s[i]),
    ensures
        forall|q: int, q2: int|
            i <= q < j && 0 <= q2 < s.len() && !(i <= q2 < j) ==> !same_key(#[trigger] s[q], #[trigger] s[q2]),
{
    assert forall|q: int, q2: int| i <= q < j && 0 <= q2 < s.len() && !(i <= q2 < j) implies !same_key(
        #[trigger] s[q],
        #[trigger] s[q2],
    ) by {
        if same_key(s[q], s[q2]) {
            lemma_key_order(s[q], s[i], s[q2]);
            if q2 < i {
                if q2 < i - 1 {
                    lemma_contiguous(s, q2, i - 1, i);
                }
                lemma_key_order(s[i - 1], s[q2], s[i]);
            } else {
                if j < q2 {
                    lemma_contiguous(s, i, j, q2);
                }
                lemma_key_order(s[j], s[i], s[q2]);
            }
        }
    }
}

/// Place a group among groups already in order, keeping the order.
fn insert_group(out: &mut Vec<DupGroup>, g: DupGroup) -> (p: usize)
    requires
        forall|a: int, b: int| 0 <= a < b < old(out)@.len() ==> !group_before(#[trigger] old(out)@[b], #[trigger] old(out)@[a]),
    ensures
        p <= old(out)@.len(),
        final(out)@ == old(out)@.insert(p as int, g),
        forall|a: int, b: int| 0 <= a < b < final(out)@.len() ==> !group_before(#[trigger] final(out)@[b], #[trigger] final(out)@[a]),
{
    let ghost before = out@;
    let mut p: usize = 0;
    while p < out.len() && !(g.reclaimable > out[p].reclaimable || (g.reclaimable == out[p].reclaimable
        && crate::text::str_lt(g.name.as_str(), out[p].name.as_str())))
        invariant
            p <= out@.len(),
            before == out@,
            forall|k: int| 0 <= k < p ==> !group_before(g, #[trigger] out@[k]),
        decreases out@.len() - p,
    {
        p = p + 1;
    }
    proof {
        assert forall|k: int| p <= k < before.len() implies group_before(g, #[trigger] before[k]) by {
            let gp = before[p as int];
            assert(group_before(g, gp));
            if k > p {
                assert(!group_before(before[k], gp));
                lemma_lex_irreflexive(g.name@);
                if lex_lt(g.name@, gp.name@) && gp.name@ != before[k].name@ {
                    lemma_lex_total(gp.name@, before[k].name@);
                    if lex_lt(gp.name@, before[k].name@) {
                        lemma_lex_transitive(g.name@, gp.name@, before[k].name@);
                    }
                }
            }
        }
    }
    let ghost gv = g;
    out.insert(p, g);
    proof {
        let nv = out@;
        assert(nv =~= before.insert(p as int, gv));
        assert forall|a: int, b: int| 0 <= a < b < nv.len() implies !group_before(#[trigger] nv[b], #[trigger] nv[a]) by {
            if a < p && b == p {
                assert(nv[a] == before[a]);
            } else if a == p && b > p {
                assert(nv[b] == before[b - 1]);
                lemma_lex_irreflexive(gv.name@);
                if lex_lt(nv[b].name@, gv.name@) && lex_lt(gv.name@, nv[b].name@) {
                    lemma_lex_transitive(gv.name@, nv[b].name@, gv.name@);
                }
            } else if a < p && b > p {
                assert(nv[a] == before[a] && nv[b] == before[b - 1]);
            } else if b < p {
                assert(nv[a] == before[a] && nv[b] == before[b]);
            } else {
                assert(nv[a] == before[a - 1] && nv[b] == before[b - 1]);
            }
        }
    }
    p
}

proof fn lemma_grouped_insert(gs: Seq<DupGroup>, p: int, g: DupGroup, trip: Seq<char>, rel: Seq<char>)
    requires
        0 <= p <= gs.len(),
        grouped(gs, trip, rel),
    ensures
        grouped(gs.insert(p, g), trip, rel),
{
    let nv = gs.insert(p, g);
    let (gi, k) = choose|gi: int, k: int|
        0 <= gi < gs.len() && 0 <= k < gs[gi].copies@.len() && (#[trigger] gs[gi].copies@[k]).trip@ == trip
            && gs[gi].copies@[k].rel@ == rel;
    if gi < p {
        assert(nv[gi] == gs[gi]);
        assert(nv[gi].copies@[k].trip@ == trip);
    } else {
        assert(nv[gi + 1] == gs[gi]);
        assert(nv[gi + 1].copies@[k].trip@ == trip);
    }
}

proof fn lemma_keys_insert(before: Seq<DupGroup>, p: int, g: DupGroup, s: Seq<Spot>, i: int, j: int)
    requires
        0 <= p <= before.len(),
        0 <= i < j <= s.len(),
        keys_distinct(before),
        forall|gi: int| 0 <= gi < before.len() ==> keyed_before(#[trigger] before[gi], s, i),
        key_at(g, s[i]),
        forall|q: int, q2: int|
            i <= q < j && 0 <= q2 < s.len() && !(i <= q2 < j) ==> !same_key(#[trigger] s[q], #[trigger] s[q2]),
    ensures
        keys_distinct(before.insert(p, g)),
        forall|gi: int| 0 <= gi < before.insert(p, g).len() ==> keyed_before(#[trigger] before.insert(p, g)[gi], s, j),
{
    reveal(keys_distinct);
    reveal(keyed_before);
    let nv = before.insert(p, g);
    assert forall|gi: int| 0 <= gi < before.len() implies !(#[trigger] before[gi].name@ == g.name@
        && before[gi].bytes == g.bytes) by {
        assert(keyed_before(before[gi], s, i));
        let q = choose|q: int| 0 <= q < i && #[trigger] key_at(before[gi], s[q]);
        assert(!same_key(s[i], s[q]));
    }
    assert forall|a: int, b: int| 0 <= a < b < nv.len() implies !((#[trigger] nv[a]).name@
        == (#[trigger] nv[b]).name@ && nv[a].bytes == nv[b].bytes) by {
        if a < p && b == p {
            assert(nv[a] == before[a]);
        } else if a == p && b > p {
            assert(nv[b] == before[b - 1]);
        } else if a < p && b > p {
            assert(nv[a] == before[a] && nv[b] == before[b - 1]);
        } else if b < p {
            assert(nv[a] == before[a] && nv[b] == before[b]);
        } else {
            assert(nv[a] == before[a - 1] && nv[b] == before[b - 1]);
        }
    }
    assert forall|gi: int| 0 <= gi < nv.len() implies keyed_before(#[trigger] nv[gi], s, j) by {
        if gi == p {
            assert(key_at(nv[gi], s[i]));
        } else {
            let bi = if gi < p { gi } else { gi - 1 };
            assert(nv[gi] == before[bi]);
            assert(keyed_before(before[bi], s, i));
            let q = choose|q: int| 0 <= q < i && #[trigger] key_at(before[bi], s[q]);
            assert(key_at(nv[gi], s[q]));
        }
    }
}

proof fn lemma_key_at_mono(gs: Seq<DupGroup>, s: Seq<Spot>, i: int, j: int)
    requires
        i <= j <= s.len(),
        forall|gi: int| 0 <= gi < gs.len() ==> keyed_before(#[trigger] gs[gi], s, i),
    ensures
        forall|gi: int| 0 <= gi < gs.len() ==> keyed_before(#[trigger] gs[gi], s, j),
{
    reveal(keyed_before);
    assert forall|gi: int| 0 <= gi < gs.len() implies keyed_before(#[trigger] gs[gi], s, j) by {
        assert(keyed_before(gs[gi], s, i));
        let q = choose|q: int| 0 <= q < i && #[trigger] key_at(gs[gi], s[q]);
        assert(key_at(gs[gi], s[q]));
    }
}

/// Build the group of the run `s[i..j]` and show it is a well-formed group of the
/// scanned locations `lv`, keyed by `s[i]`'s identity.
fn make_group(user: &str, sorted: &Vec<ScanLoc>, i: usize, j: usize, Ghost(lv): Ghost<Seq<Spot>>) -> (g: DupGroup)
    requires
        i + 2 <= j <= sorted@.len(),
        sorted_spots(spots(sorted@)),
        distinct_spots(spots(sorted@)),
        forall|k: int| i <= k < j ==> same_key(#[trigger] spots(sorted@)[k], spots(sorted@)[i as int]),
        sorted@[i as int].size * (j - i) <= u64::MAX,
        spots(sorted@).to_multiset() == lv.to_multiset(),
    ensures
        group_ok(g, user@, lv),
        key_at(g, spots(sorted@)[i as int]),
        g.copies@.len() == j - i,
        forall|k: int| 0 <= k < j - i ==> copy_is(#[trigger] g.copies@[k], user@, spots(sorted@)[i + k]),
        g.reclaimable == g.bytes * (j - i - 1),
        g.bytes == sorted@[i as int].size,
{
    broadcast use vstd::seq_lib::to_multiset_contains;

    let ghost s = spots(sorted@);
    let g = group_of(user, sorted, i, j);
    proof {
        assert forall|k: int|
            0 <= k < g.copies@.len() implies exists|jj: int|
                0 <= jj < lv.len() && copy_is(#[trigger] g.copies@[k], user@, lv[jj]) && crate::text::last_seg(
                    lv[jj].rel,
                ) == g.name@ && lv[jj].size == g.bytes by {
            assert(s.contains(s[i + k]));
            vstd::seq_lib::to_multiset_contains(s, s[i + k]);
            vstd::seq_lib::to_multiset_contains(lv, s[i + k]);
            assert(same_key(s[i + k], s[i as int]));
            let jj = choose|jj: int| 0 <= jj < lv.len() && lv[jj] == s[i + k];
            assert(copy_is(g.copies@[k], user@, lv[jj]));
        }
        assert(s[i as int].rel == sorted@[i as int].rel@);
    }
    g
}

/// What holds of the groups once the group `g` of the run `s[i..j]` is placed
/// among the groups `before` of the earlier runs.
proof fn lemma_after_insert(
    before: Seq<DupGroup>,
    p: int,
    g: DupGroup,
    s: Seq<Spot>,
    lv: Seq<Spot>,
    user: Seq<char>,
    i: int,
    j: int,
)
    requires
        0 <= p <= before.len(),
        0 <= i < j <= s.len(),
        forall|gi: int| 0 <= gi < before.len() ==> group_ok(#[trigger] before[gi], user, lv),
        group_ok(g, user, lv),
        keys_distinct(before),
        forall|gi: int| 0 <= gi < before.len() ==> keyed_before(#[trigger] before[gi], s, i),
        key_at(g, s[i]),
        g.copies@.len() == j - i,
        forall|k: int| 0 <= k < j - i ==> copy_is(#[trigger] g.copies@[k], user, s[i + k]),
        forall|q: int, q2: int|
            i <= q < j && 0 <= q2 < s.len() && !(i <= q2 < j) ==> !same_key(#[trigger] s[q], #[trigger] s[q2]),
        forall|q: int, q2: int|
            0 <= q < i && 0 <= q2 < s.len() && q != q2 && same_key(#[trigger] s[q], #[trigger] s[q2]) ==> grouped(
                before,
                s[q].trip,
                s[q].rel,
            ),
    ensures
        forall|gi: int| 0 <= gi < before.insert(p, g).len() ==> group_ok(#[trigger] before.insert(p, g)[gi], user, lv),
        keys_distinct(before.insert(p, g)),
        forall|gi: int| 0 <= gi < before.insert(p, g).len() ==> keyed_before(#[trigger] before.insert(p, g)[gi], s, j),
        reclaim_sum(before.insert(p, g)) == reclaim_sum(before) + g.reclaimable,
        forall|q: int, q2: int|
            0 <= q < j && 0 <= q2 < s.len() && q != q2 && same_key(#[trigger] s[q], #[trigger] s[q2]) ==> grouped(
                before.insert(p, g),
                s[q].trip,
                s[q].rel,
            ),
{
    let nv = before.insert(p, g);
    lemma_reclaim_insert(before, p, g);
    lemma_keys_insert(before, p, g, s, i, j);
    assert forall|gi: int| 0 <= gi < nv.len() implies group_ok(#[trigger] nv[gi], user, lv) by {
        if gi < p {
            assert(nv[gi] == before[gi]);
        } else if gi > p {
            assert(nv[gi] == before[gi - 1]);
        }
    }
    assert forall|q: int, q2: int|
        0 <= q < j && 0 <= q2 < s.len() && q != q2 && same_key(#[trigger] s[q], #[trigger] s[q2]) implies grouped(
            nv,
            s[q].trip,
            s[q].rel,
        ) by {
        if q < i {
            lemma_grouped_insert(before, p, g, s[q].trip, s[q].rel);
        } else {
            assert(nv[p] == g);
            assert(copy_is(g.copies@[q - i], user, s[q]));
            assert(nv[p].copies@[q - i].trip@ == s[q].trip);
        }
    }
}

/// With one group per identity, a group holds every location of its identity:
/// each has a duplicate among the group's own copies, so some group holds it, and
/// that group has the same identity.
proof fn lemma_complete_from_grouped(gs: Seq<DupGroup>, lv: Seq<Spot>, user: Seq<char>)
    requires
        forall|gi: int| 0 <= gi < gs.len() ==> group_ok(#[trigger] gs[gi], user, lv),
        keys_distinct(gs),
        distinct_spots(lv),
        forall|j: int, j2: int|
            0 <= j < lv.len() && 0 <= j2 < lv.len() && j != j2 && same_key(#[trigger] lv[j], #[trigger] lv[j2])
                ==> grouped(gs, lv[j].trip, lv[j].rel),
    ensures
        forall|gi: int| 0 <= gi < gs.len() ==> group_complete(#[trigger] gs[gi], lv),
{
    reveal(group_complete);
    reveal(keys_distinct);
    assert forall|gi: int| 0 <= gi < gs.len() implies group_complete(#[trigger] gs[gi], lv) by {
        let g = gs[gi];
        assert(group_ok(g, user, lv));
        assert forall|jx: int|
            0 <= jx < lv.len() && crate::text::last_seg(#[trigger] lv[jx].rel) == g.name@ && lv[jx].size == g.bytes
                implies holds_spot(g, lv[jx]) by {
            let c0 = g.copies@[0];
            let c1 = g.copies@[1];
            let a = choose|a: int|
                0 <= a < lv.len() && copy_is(c0, user, lv[a]) && crate::text::last_seg(lv[a].rel) == g.name@
                    && lv[a].size == g.bytes;
            let b = choose|b: int|
                0 <= b < lv.len() && copy_is(c1, user, lv[b]) && crate::text::last_seg(lv[b].rel) == g.name@
                    && lv[b].size == g.bytes;
            lemma_lex_irreflexive(c0.trip@);
            lemma_lex_irreflexive(c0.rel@);
            assert(!(c0.trip@ == c1.trip@ && c0.rel@ == c1.rel@));
            assert(a != b);
            let jy = if a != jx { a } else { b };
            assert(same_key(lv[jx], lv[jy]));
            assert(grouped(gs, lv[jx].trip, lv[jx].rel));
            let (gi2, k) = choose|gi2: int, k: int|
                0 <= gi2 < gs.len() && 0 <= k < gs[gi2].copies@.len() && (#[trigger] gs[gi2].copies@[k]).trip@
                    == lv[jx].trip && gs[gi2].copies@[k].rel@ == lv[jx].rel;
            assert(group_ok(gs[gi2], user, lv));
            let z = choose|z: int|
                0 <= z < lv.len() && copy_is(gs[gi2].copies@[k], user, lv[z]) && crate::text::last_seg(lv[z].rel)
                    == gs[gi2].name@ && lv[z].size == gs[gi2].bytes;
            if z != jx {
                if z < jx {
                    assert(!(lv[z].trip == lv[jx].trip && lv[z].rel == lv[jx].rel));
                } else {
                    assert(!(lv[jx].trip == lv[z].trip && lv[jx].rel == lv[z].rel));
                }
            }
            assert(z == jx);
            if gi2 != gi {
                if gi2 < gi {
                    assert(!(gs[gi2].name@ == gs[gi].name@ && gs[gi2].bytes == gs[gi].bytes));
                } else {
                    assert(!(gs[gi].name@ == gs[gi2].name@ && gs[gi].bytes == gs[gi2].bytes));
                }
            }
            assert(gi2 == gi);
            assert(g.copies@[k].trip@ == lv[jx].trip);
        }
    }
}

/// The duplicate groups among distinct scanned locations, biggest saving first,
/// and the space they free in all.
#[verifier::spinoff_prover]
#[verifier::rlimit(100)]
fn dup_groups(user: &str, ls: &Vec<ScanLoc>) -> (r: (Vec<DupGroup>, u64))
    requires
        distinct_spots(spots(ls@)),
        forall|j: int| 0 <= j < ls@.len() ==> (#[trigger] ls@[j]).size * ls@.len() <= u64::MAX,
    ensures
        forall|gi: int| 0 <= gi < r.0@.len() ==> group_ok(#[trigger] r.0@[gi], user@, spots(ls@)),
        forall|j: int, j2: int|
            0 <= j < ls@.len() && 0 <= j2 < ls@.len() && j != j2 && same_key(
                #[trigger] spots(ls@)[j],
                #[trigger] spots(ls@)[j2],
            ) ==> grouped(r.0@, ls@[j].trip@, ls@[j].rel@),
        forall|a: int, b: int| 0 <= a < b < r.0@.len() ==> !group_before(#[trigger] r.0@[b], #[trigger] r.0@[a]),
        keys_distinct(r.0@),
        forall|gi: int| 0 <= gi < r.0@.len() ==> group_complete(#[trigger] r.0@[gi], spots(ls@)),
        r.1 == reclaim_sum(r.0@),
{
    broadcast use vstd::seq_lib::to_multiset_contains;

    let ghost lv = spots(ls@);
    let sorted = sort_locs(ls);
    let ghost s = spots(sorted@);
    let n = sorted.len();
    let ghost m: int = if n > 0 { u64::MAX as int / n as int } else { 0 };
    proof {
        assert forall|q: int| 0 <= q < n implies (#[trigger] s[q]).size <= m && lv.contains(s[q]) by {
            assert(s.contains(s[q]));
            vstd::seq_lib::to_multiset_contains(s, s[q]);
            vstd::seq_lib::to_multiset_contains(lv, s[q]);
            let j = choose|j: int| 0 <= j < lv.len() && lv[j] == s[q];
            assert(ls@[j].size * ls@.len() <= u64::MAX);
            assert(s[q].size <= m) by (nonlinear_arith)
                requires
                    s[q].size * n <= u64::MAX,
                    n > 0,
                    m == u64::MAX as int / n as int,
            ;
        }
        if n > 0 {
            assert(m * n <= u64::MAX) by (nonlinear_arith)
                requires
                    n > 0,
                    m == u64::MAX as int / n as int,
            ;
        }
    }
    let mut out: Vec<DupGroup> = Vec::new();
    let mut total: u64 = 0;
    let mut i: usize = 0;
    proof {
        reveal(keys_distinct);
    }
    while i < n
        invariant
            n == sorted@.len(),
            n == lv.len(),
            s == spots(sorted@),
            lv == spots(ls@),
            s.to_multiset() == lv.to_multiset(),
            sorted_spots(s),
            distinct_spots(s),
            forall|q: int| 0 <= q < n ==> (#[trigger] s[q]).size <= m && lv.contains(s[q]),
            n > 0 ==> m * n <= u64::MAX,
            m >= 0,
            i <= n,
            0 < i < n ==> !same_key(s[i - 1], s[i as int]),
            forall|gi: int| 0 <= gi < out@.len() ==> group_ok(#[trigger] out@[gi], user@, lv),
            forall|a: int, b: int| 0 <= a < b < out@.len() ==> !group_before(#[trigger] out@[b], #[trigger] out@[a]),
            keys_distinct(out@),
            forall|gi: int| 0 <= gi < out@.len() ==> keyed_before(#[trigger] out@[gi], s, i as int),
            total == reclaim_sum(out@),
            total <= i * m,
            forall|q: int, q2: int|
                0 <= q < i && 0 <= q2 < n && q != q2 && same_key(#[trigger] s[q], #[trigger] s[q2]) ==> grouped(
                    out@,
                    s[q].trip,
                    s[q].rel,
                ),
        decreases n - i,
    {
        let j = run_end(&sorted, i);
        let ghost before = out@;
        proof {
            lemma_run_isolated(s, i as int, j as int);
        }
        if j - i >= 2 {
            proof {
                assert(s[i as int].size * (j - i) <= m * n) by (nonlinear_arith)
                    requires
                        s[i as int].size <= m,
                        0 <= j - i <= n,
                        m >= 0,
                ;
            }
            let g = make_group(user, &sorted, i, j, Ghost(lv));
            let ghost gv = g;
            proof {
                assert(g.reclaimable <= (j - i) * m) by (nonlinear_arith)
                    requires
                        g.reclaimable == g.bytes * (j - i - 1),
                        g.bytes <= m,
                        j - i >= 2,
                ;
                assert(total + g.reclaimable <= j * m) by (nonlinear_arith)
                    requires
                        total <= i * m,
                        g.reclaimable <= (j - i) * m,
                ;
                assert(j * m <= u64::MAX) by (nonlinear_arith)
                    requires
                        j <= n,
                        m * n <= u64::MAX,
                        m >= 0,
                ;
            }
            total = total + g.reclaimable;
            let p = insert_group(&mut out, g);
            proof {
                lemma_after_insert(before, p as int, gv, s, lv, user@, i as int, j as int);
            }
        } else {
            proof {
                assert forall|q: int, q2: int|
                    0 <= q < j && 0 <= q2 < n && q != q2 && same_key(#[trigger] s[q], #[trigger] s[q2]) implies grouped(
                        out@,
                        s[q].trip,
                        s[q].rel,
                    ) by {
                    if q >= i {
                        assert(q == i);
                        assert(!(i <= q2 < j));
                    }
                }
                assert(total <= j * m) by (nonlinear_arith)
                    requires
                        total <= i * m,
                        i <= j,
                        m >= 0,
                ;
                lemma_key_at_mono(out@, s, i as int, j as int);
            }
        }
        i = j;
    }
    proof {
        assert forall|jx: int, j2: int|
            0 <= jx < ls@.len() && 0 <= j2 < ls@.len() && jx != j2 && same_key(
                #[trigger] lv[jx],
                #[trigger] lv[j2],
            ) implies grouped(out@, ls@[jx].trip@, ls@[jx].rel@) by {
            assert(lv.contains(lv[jx]));
            assert(lv.contains(lv[j2]));
            vstd::seq_lib::to_multiset_contains(lv, lv[jx]);
            vstd::seq_lib::to_multiset_contains(s, lv[jx]);
            vstd::seq_lib::to_multiset_contains(lv, lv[j2]);
            vstd::seq_lib::to_multiset_contains(s, lv[j2]);
            let q = choose|q: int| 0 <= q < s.len() && s[q] == lv[jx];
            let q2 = choose|q2: int| 0 <= q2 < s.len() && s[q2] == lv[j2];
            if jx < j2 {
                assert(!(lv[jx].trip == lv[j2].trip && lv[jx].rel == lv[j2].rel));
            } else {
                assert(!(lv[j2].trip == lv[jx].trip && lv[j2].rel == lv[jx].rel));
            }
            assert(q != q2);
            assert(same_key(s[q], s[q2]));
        }
        lemma_complete_from_grouped(out@, lv, user@);
    }
    (out, total)
}


/// How many cloud listing entries name a capture inside a trip folder.
pub open spec fn cloud_hits(cloud: Seq<(String, u64)>) -> nat
    decreases cloud.len(),
{
    if cloud.len() == 0 {
        0
    } else {
        cloud_hits(cloud.drop_last()) + if cloud_key(cloud.last().0@) is Some { 1nat } else { 0nat }
    }
}

/// The whole-library duplicate scan, from the masters on disk `(trip, rel, size,
/// path)` and the cloud listing `(path, size)` (empty and `offline` when the
/// cloud could not be reached): every clip found in two or more places, as a
/// group of its copies, the group freeing the most space first.
pub fn scan(user: &str, local: &[(String, String, u64, String)], cloud: &[(String, u64)], offline: bool) -> (r: DupReport)
    requires
        local@.len() + cloud@.len() < isize::MAX,
        forall|i: int| 0 <= i < local@.len() ==> (#[trigger] local@[i]).2 * (local@.len() + cloud@.len()) <= u64::MAX,
        forall|i: int| 0 <= i < cloud@.len() ==> (#[trigger] cloud@[i]).1 * (local@.len() + cloud@.len()) <= u64::MAX,
    ensures
        forall|gi: int| 0 <= gi < r.groups@.len() ==> group_ok(#[trigger] r.groups@[gi], user@, scanned(local@, cloud@)),
        forall|j: int, j2: int|
            0 <= j < scanned(local@, cloud@).len() && 0 <= j2 < scanned(local@, cloud@).len() && j != j2 && same_key(
                #[trigger] scanned(local@, cloud@)[j],
                #[trigger] scanned(local@, cloud@)[j2],
            ) ==> grouped(r.groups@, scanned(local@, cloud@)[j].trip, scanned(local@, cloud@)[j].rel),
        forall|a: int, b: int| 0 <= a < b < r.groups@.len() ==> !group_before(#[trigger] r.groups@[b], #[trigger] r.groups@[a]),
        keys_distinct(r.groups@),
        forall|gi: int| 0 <= gi < r.groups@.len() ==> group_complete(#[trigger] r.groups@[gi], scanned(local@, cloud@)),
        r.total_reclaimable == reclaim_sum(r.groups@),
        r.groups_count == r.groups@.len(),
        r.scanned_local == local@.len(),
        r.scanned_cloud == cloud_hits(cloud@),
        r.offline == offline,
{
    let ls = merge_locs(local, cloud);
    proof {
        let nn = local@.len() + cloud@.len();
        assert forall|j: int| 0 <= j < ls@.len() implies (#[trigger] ls@[j]).size * ls@.len() <= u64::MAX by {
            assert(size_from(local@, cloud@, ls@[j].size));
            let x = ls@[j].size;
            if exists|i: int| 0 <= i < local@.len() && (#[trigger] local@[i]).2 == x {
                let i = choose|i: int| 0 <= i < local@.len() && (#[trigger] local@[i]).2 == x;
                assert(local@[i].2 * nn <= u64::MAX);
            } else {
                let i = choose|i: int| 0 <= i < cloud@.len() && (#[trigger] cloud@[i]).1 == x;
                assert(cloud@[i].1 * nn <= u64::MAX);
            }
            assert(x * ls@.len() <= x * nn) by (nonlinear_arith)
                requires
                    ls@.len() <= nn,
            ;
        }
    }
    let (groups, total) = dup_groups(user, &ls);
    let mut hits: usize = 0;
    let mut k: usize = 0;
    while k < cloud.len()
        invariant
            k <= cloud@.len(),
            cloud@.len() < isize::MAX,
            hits == cloud_hits(cloud@.take(k as int)),
            hits <= k,
        decreases cloud@.len() - k,
    {
        proof {
            assert(cloud@.take(k + 1).drop_last() =~= cloud@.take(k as int));
        }
        if cloud_key_of(cloud[k].0.as_str()).is_some() {
            hits = hits + 1;
        }
        k = k + 1;
    }
    proof {
        assert(cloud@.take(k as int) =~= cloud@);
    }
    let count = groups.len();
    DupReport { groups, groups_count: count, total_reclaimable: total, scanned_local: local.len(), scanned_cloud: hits, offline }
}

} // verus!

verus! {

/// A prune about to run over `groups` groups: nothing done yet.
pub fn resolve_start(groups: usize, online: bool) -> (r: crate::model::DupResolveResult)
    ensures
        r.removed_local == 0,
        r.removed_cloud == 0,
        r.kept_cloud == 0,
        r.freed == 0,
        r.skipped == 0,
        r.groups == groups,
        r.cloud_ok,
        r.offline == !online,
{
    crate::model::DupResolveResult {
        removed_local: 0,
        removed_cloud: 0,
        kept_cloud: 0,
        freed: 0,
        groups,
        skipped: 0,
        cloud_ok: true,
        offline: !online,
    }
}

/// Count one copy the prune left alone.
pub fn tally_skip(res: &mut crate::model::DupResolveResult)
    requires
        old(res).skipped < usize::MAX,
    ensures
        *final(res) == (crate::model::DupResolveResult { skipped: (old(res).skipped + 1) as usize, ..*old(res) }),
{
    res.skipped = res.skipped + 1;
}

/// Count one pruned copy, `bytes` large: `removed_local` whether its local file
/// went, `cloud` what its cloud copy called for, `cloud_deleted` whether that
/// delete ran and worked. Space is freed when it left anywhere. Returns whether
/// it leaves its trip's baseline: when it left anywhere and is not someone
/// else's cloud copy (that one legitimately stays in the cloud).
pub fn tally_prune(
    res: &mut crate::model::DupResolveResult,
    bytes: u64,
    removed_local: bool,
    cloud: CloudPrune,
    cloud_deleted: bool,
) -> (drop_base: bool)
    requires
        old(res).removed_local < usize::MAX,
        old(res).removed_cloud < usize::MAX,
        old(res).kept_cloud < usize::MAX,
        old(res).freed + bytes <= u64::MAX,
    ensures
        ({
            let erased = cloud == CloudPrune::Delete && cloud_deleted;
            let any = removed_local || erased;
            &&& final(res).removed_local == old(res).removed_local + (if removed_local { 1int } else { 0 })
            &&& final(res).removed_cloud == old(res).removed_cloud + (if erased { 1int } else { 0 })
            &&& final(res).kept_cloud == old(res).kept_cloud + (if cloud == CloudPrune::KeepTheirs { 1int } else { 0 })
            &&& final(res).cloud_ok == (old(res).cloud_ok && !(cloud == CloudPrune::Unreachable || (cloud
                == CloudPrune::Delete && !cloud_deleted)))
            &&& final(res).freed == old(res).freed + (if any { bytes as int } else { 0 })
            &&& final(res).skipped == old(res).skipped
            &&& final(res).groups == old(res).groups
            &&& final(res).offline == old(res).offline
            &&& drop_base == (any && cloud != CloudPrune::KeepTheirs)
        }),
{
    let mut any = false;
    if removed_local {
        res.removed_local = res.removed_local + 1;
        any = true;
    }
    match cloud {
        CloudPrune::KeepTheirs => {
            res.kept_cloud = res.kept_cloud + 1;
        },
        CloudPrune::Delete => {
            if cloud_deleted {
                res.removed_cloud = res.removed_cloud + 1;
                any = true;
            } else {
                res.cloud_ok = false;
            }
        },
        CloudPrune::Unreachable => {
            res.cloud_ok = false;
        },
        CloudPrune::Nothing => {},
    }
    if any {
        res.freed = res.freed + bytes;
    }
    any && cloud != CloudPrune::KeepTheirs
}

/// A trip name that was generated rather than given: a date range (`…_to_…`) or
/// a name starting with a `YYYY-MM-DD` date.
pub open spec fn generated_trip_name(t: Seq<char>) -> bool {
    crate::text::first_at(t, "_to_"@) >= 0 || (t.len() >= 10 && crate::text::is_digit(t[0])
        && crate::text::is_digit(t[1]) && crate::text::is_digit(t[2]) && crate::text::is_digit(t[3])
        && t[4] == '-' && crate::text::is_digit(t[5]) && crate::text::is_digit(t[6]) && t[7] == '-'
        && crate::text::is_digit(t[8]) && crate::text::is_digit(t[9]))
}

/// How copies rank as the one to keep. With the same presence, a copy in a trip
/// that was given a name ranks strictly above one in a trip with a generated date
/// name. With the same kind of trip name, a copy that is both local and in the
/// cloud ranks above a local-only one, which ranks above a cloud-only one; copies
/// alike in both respects rank equal.
pub proof fn lemma_keep_ranking(c1: DupCopy, c2: DupCopy)
    ensures
        c1.local == c2.local && c1.in_cloud == c2.in_cloud && !generated_trip_name(c1.trip@)
            && generated_trip_name(c2.trip@) ==> score_spec(c1) > score_spec(c2),
        generated_trip_name(c1.trip@) == generated_trip_name(c2.trip@) && c1.local && c1.in_cloud && !(c2.local
            && c2.in_cloud) ==> score_spec(c1) > score_spec(c2),
        generated_trip_name(c1.trip@) == generated_trip_name(c2.trip@) && c1.local && !c2.local ==> score_spec(c1)
            > score_spec(c2),
        generated_trip_name(c1.trip@) == generated_trip_name(c2.trip@) && c1.local == c2.local && (c1.local
            ==> c1.in_cloud == c2.in_cloud) ==> score_spec(c1) == score_spec(c2),
{
    assert(defaultish(c1.trip@) == generated_trip_name(c1.trip@));
    assert(defaultish(c2.trip@) == generated_trip_name(c2.trip@));
}

/// The copy a duplicate group suggests keeping is never one in a generated-name
/// trip while a copy with the same presence sits in a named trip, and never a
/// less-synced copy while a copy in the same kind of trip is more synced.
pub proof fn lemma_suggested_keep(g: DupGroup, user: Seq<char>, ls: Seq<Spot>, i: int)
    requires
        group_ok(g, user, ls),
        0 <= i < g.copies@.len(),
    ensures
        ({
            let k = g.copies@[g.suggested_keep as int];
            let c = g.copies@[i];
            &&& !(c.local == k.local && c.in_cloud == k.in_cloud && !generated_trip_name(c.trip@)
                && generated_trip_name(k.trip@))
            &&& !(generated_trip_name(c.trip@) == generated_trip_name(k.trip@) && c.local && c.in_cloud && !(k.local
                && k.in_cloud))
            &&& !(generated_trip_name(c.trip@) == generated_trip_name(k.trip@) && c.local && !k.local)
        }),
{
    let k = g.copies@[g.suggested_keep as int];
    let c = g.copies@[i];
    lemma_keep_ranking(c, k);
    assert(score_spec(c) <= score_spec(k));
}

} // verus!
