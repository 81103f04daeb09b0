//! Permanent delete: the user deciding footage is garbage, so it goes everywhere
//! that is theirs. Your own footage leaves the cloud too; footage pulled from
//! someone else is only removed locally (the cloud copy is theirs). Every removed
//! clip loses its ledger row and is tombstoned, so a copy still on a card reads
//! "discarded" and never comes back. A cloud purge is scoped to one person's
//! subtree of one trip, never a whole trip.
use crate::ledger::Ledger;
use crate::model::DeleteResult;
use crate::organize::{first_recording, records, rel_text, trip_of, trip_of_spec};
use crate::paths::{component_strings, component_strs, join, join_spec, strip_dir, strip_dir_spec};
use crate::text::{push_str, str_eq};
use vstd::prelude::*;

verus! {

/// `(trip, person, rel)` for a master being deleted: its trip under `lib`, and its
/// path under that trip folder with the owner as its first component.
pub open spec fn doomed_spec(lib: Seq<char>, master: Seq<char>, inside: bool) -> Option<(Seq<char>, Seq<char>, Seq<char>)> {
    if !inside {
        None
    } else {
        match trip_of_spec(lib, master) {
            None => None,
            Some(trip) => match strip_dir_spec(master, join_spec(lib, trip)) {
                None => None,
                Some(rel) => if component_strs(rel).len() > 0 {
                    Some((trip, component_strs(rel)[0], rel))
                } else {
                    None
                },
            },
        }
    }
}

/// Resolve a master for deletion; `inside` is whether it is a file under the
/// library. `None` means it is never touched.
pub fn doomed(lib: &str, master: &str, inside: bool) -> (r: Option<(String, String, String)>)
    ensures
        match r {
            Some(d) => doomed_spec(lib@, master@, inside) == Some((d.0@, d.1@, d.2@)),
            None => doomed_spec(lib@, master@, inside) is None,
        },
{
    if !inside {
        return None;
    }
    let trip = match trip_of(lib, master) {
        Some(t) => t,
        None => {
            return None;
        },
    };
    let trip_dir = join(lib, trip.as_str());
    let rel = match strip_dir(master, trip_dir.as_str()) {
        Some(r) => r,
        None => {
            return None;
        },
    };
    let comps = component_strings(rel.as_str());
    let ghost cv = comps@.map_values(|s: String| s@);
    if comps.len() == 0 {
        return None;
    }
    let person = comps[0].clone();
    proof {
        assert(cv[0] == comps@[0]@);
    }
    Some((trip, person, rel))
}

/// The content id the ledger records for the clip at `rel` in `trip`: the first
/// such row's, so a delete need not re-hash the file.
pub fn recorded_id(ledger: &Ledger, trip: &str, rel: &str) -> (r: Option<String>)
    ensures
        match first_recording(ledger.rows_view(), trip@, rel@) {
            Some(i) => r matches Some(id) && id@ == ledger.rows_view()[i][0],
            None => r is None,
        },
{
    let ghost rows = ledger.rows_view();
    let mut i: usize = 0;
    while i < ledger.rows.len()
        invariant
            i <= ledger.rows@.len(),
            rows == ledger.rows_view(),
            forall|j: int| 0 <= j < i ==> !records(#[trigger] rows[j], trip@, rel@),
        decreases ledger.rows@.len() - i,
    {
        let row = &ledger.rows[i];
        let mut t = String::new();
        push_str(&mut t, row.person.as_str());
        t.push('/');
        push_str(&mut t, row.camera.as_str());
        t.push('/');
        push_str(&mut t, row.base.as_str());
        proof {
            assert(t@ =~= rel_text(row.person@, row.camera@, row.base@));
        }
        if str_eq(row.trip.as_str(), trip) && str_eq(t.as_str(), rel) {
            proof {
                lemma_first_at(rows, trip@, rel@, i as int);
            }
            return Some(row.id.clone());
        }
        i = i + 1;
    }
    proof {
        lemma_first_at(rows, trip@, rel@, i as int);
    }
    None
}

proof fn lemma_first_at(rows: Seq<Seq<Seq<char>>>, trip: Seq<char>, rel: Seq<char>, i: int)
    requires
        0 <= i <= rows.len(),
        forall|j: int| 0 <= j < i ==> !records(#[trigger] rows[j], trip, rel),
        i == rows.len() || records(rows[i], trip, rel),
    ensures
        first_recording(rows, trip, rel) == if i < rows.len() { Some(i) } else { None::<int> },
    decreases rows.len(),
{
    if rows.len() > 0 && i > 0 {
        assert forall|j: int| 0 <= j < i - 1 implies !records(#[trigger] rows.drop_first()[j], trip, rel) by {
            assert(rows.drop_first()[j] == rows[j + 1]);
        }
        lemma_first_at(rows.drop_first(), trip, rel, i - 1);
    }
}

/// What happened to a deleted clip's cloud copy.
#[derive(Clone, Copy, Debug, PartialEq, Eq, Structural)]
pub enum CloudFate {
    /// Yours, and erased from the cloud.
    Erased,
    /// Yours, but the cloud could not be reached or refused the delete.
    Owed,
    /// Pulled from someone else: their copy stays.
    Kept,
}

/// Whether a deleted clip's cloud copy is to be erased: only when it is yours and
/// the remote is reachable.
pub fn erase_in_cloud(person: &str, user: &str, online: bool) -> (b: bool)
    ensures
        b == (person@ == user@ && online),
{
    str_eq(person, user) && online
}

/// The fate of a deleted clip's cloud copy, given whether an erase ran and worked.
pub fn cloud_fate(person: &str, user: &str, erased: bool) -> (f: CloudFate)
    ensures
        person@ != user@ ==> f == CloudFate::Kept,
        person@ == user@ && erased ==> f == CloudFate::Erased,
        person@ == user@ && !erased ==> f == CloudFate::Owed,
{
    if !str_eq(person, user) {
        CloudFate::Kept
    } else if erased {
        CloudFate::Erased
    } else {
        CloudFate::Owed
    }
}

/// Nothing deleted yet: the result an empty delete reports.
pub fn nothing_deleted() -> (r: DeleteResult)
    ensures
        r.deleted == 0,
        r.bytes == 0,
        r.in_cloud == 0,
        r.kept_cloud == 0,
        r.cloud_ok,
{
    DeleteResult { deleted: 0, bytes: 0, in_cloud: 0, kept_cloud: 0, cloud_ok: true }
}

/// Count one clip removed locally, `bytes` large, whose cloud copy met `fate`.
pub fn count_deleted(r: &mut DeleteResult, bytes: u64, fate: CloudFate)
    requires
        old(r).deleted < usize::MAX,
        old(r).bytes + bytes <= u64::MAX,
        old(r).in_cloud < usize::MAX,
        old(r).kept_cloud < usize::MAX,
    ensures
        final(r).deleted == old(r).deleted + 1,
        final(r).bytes == old(r).bytes + bytes,
        final(r).in_cloud == old(r).in_cloud + (if fate == CloudFate::Erased { 1int } else { 0 }),
        final(r).kept_cloud == old(r).kept_cloud + (if fate == CloudFate::Kept { 1int } else { 0 }),
        final(r).cloud_ok == (old(r).cloud_ok && fate != CloudFate::Owed),
{
    r.deleted = r.deleted + 1;
    r.bytes = r.bytes + bytes;
    match fate {
        CloudFate::Erased => {
            r.in_cloud = r.in_cloud + 1;
        },
        CloudFate::Kept => {
            r.kept_cloud = r.kept_cloud + 1;
        },
        CloudFate::Owed => {
            r.cloud_ok = false;
        },
    }
}

/// Whether `ids` holds `id`.
pub open spec fn id_in(ids: Seq<String>, id: Seq<char>) -> bool {
    exists|k: int| 0 <= k < ids.len() && (#[trigger] ids[k])@ == id
}

fn holds(ids: &[String], id: &str) -> (b: bool)
    ensures
        b == id_in(ids@, id@),
{
    let mut k: usize = 0;
    while k < ids.len()
        invariant
            k <= ids@.len(),
            forall|j: int| 0 <= j < k ==> (#[trigger] ids@[j])@ != id@,
        decreases ids@.len() - k,
    {
        if str_eq(ids[k].as_str(), id) {
            return true;
        }
        k = k + 1;
    }
    false
}

/// The rows kept when those with an id in `ids`, or owned by `trip` (when one
/// is given), are dropped.
pub open spec fn rows_kept(rows: Seq<Seq<Seq<char>>>, ids: Seq<String>, trip: Option<Seq<char>>) -> Seq<Seq<Seq<char>>>
    decreases rows.len(),
{
    if rows.len() == 0 {
        Seq::empty()
    } else {
        let before = rows_kept(rows.drop_last(), ids, trip);
        let r = rows.last();
        if id_in(ids, r[0]) || trip == Some(r[1]) {
            before
        } else {
            before.push(r)
        }
    }
}

/// Drop the ledger rows of deleted footage: those whose content id is in `ids`,
/// and, for a whole-trip delete, every row the trip owns.
pub fn drop_rows(ledger: &mut Ledger, ids: &[String], trip: Option<&str>)
    ensures
        final(ledger).rows_view() == rows_kept(old(ledger).rows_view(), ids@, crate::media::opt_str(trip)),
{
    let ghost before = ledger.rows_view();
    let ghost t = crate::media::opt_str(trip);
    let mut kept: Vec<crate::ledger::LedgerRow> = Vec::new();
    let mut i: usize = 0;
    while i < ledger.rows.len()
        invariant
            i <= ledger.rows@.len(),
            before == ledger.rows_view(),
            t == crate::media::opt_str(trip),
            kept@.map_values(|r: crate::ledger::LedgerRow| r.fields()) == rows_kept(before.take(i as int), ids@, t),
        decreases ledger.rows@.len() - i,
    {
        proof {
            assert(before.take(i + 1).drop_last() =~= before.take(i as int));
            assert(before.take(i + 1).last() == before[i as int]);
        }
        let row = &ledger.rows[i];
        let owned = match trip {
            Some(tr) => str_eq(row.trip.as_str(), tr),
            None => false,
        };
        if !holds(ids, row.id.as_str()) && !owned {
            kept.push(row.duplicate());
            proof {
                assert(kept@.map_values(|r: crate::ledger::LedgerRow| r.fields()) =~= rows_kept(
                    before.take(i + 1),
                    ids@,
                    t,
                ));
            }
        }
        i = i + 1;
    }
    proof {
        assert(before.take(i as int) =~= before);
    }
    ledger.rows = kept;
}

/// The content ids of the rows trip `trip` owns, in ledger order.
pub open spec fn owned_ids_spec(rows: Seq<Seq<Seq<char>>>, trip: Seq<char>) -> Seq<Seq<char>>
    decreases rows.len(),
{
    if rows.len() == 0 {
        Seq::empty()
    } else {
        let before = owned_ids_spec(rows.drop_last(), trip);
        if rows.last()[1] == trip {
            before.push(rows.last()[0])
        } else {
            before
        }
    }
}

/// The content ids a trip owns, to tombstone when it is deleted.
pub fn owned_ids(ledger: &Ledger, trip: &str) -> (r: Vec<String>)
    ensures
        r@.map_values(|s: String| s@) == owned_ids_spec(ledger.rows_view(), trip@),
{
    let ghost rows = ledger.rows_view();
    let mut r: Vec<String> = Vec::new();
    let mut i: usize = 0;
    while i < ledger.rows.len()
        invariant
            i <= ledger.rows@.len(),
            rows == ledger.rows_view(),
            r@.map_values(|s: String| s@) == owned_ids_spec(rows.take(i as int), trip@),
        decreases ledger.rows@.len() - i,
    {
        proof {
            assert(rows.take(i + 1).drop_last() =~= rows.take(i as int));
            assert(rows.take(i + 1).last() == rows[i as int]);
        }
        if str_eq(ledger.rows[i].trip.as_str(), trip) {
            let ghost b = r@;
            r.push(ledger.rows[i].id.clone());
            proof {
                assert(r@.map_values(|s: String| s@) =~= b.map_values(|s: String| s@).push(rows[i as int][0]));
            }
        }
        i = i + 1;
    }
    proof {
        assert(rows.take(i as int) =~= rows);
    }
    r
}

/// For each mark (by its master), whether it survives a delete: it does unless
/// its master is one of `gone`.
pub fn surviving_marks(masters: &[String], gone: &[String]) -> (keep: Vec<bool>)
    ensures
        keep@.len() == masters@.len(),
        forall|i: int| 0 <= i < masters@.len() ==> #[trigger] keep@[i] == !id_in(gone@, masters@[i]@),
{
    let mut keep: Vec<bool> = Vec::new();
    let mut i: usize = 0;
    while i < masters.len()
        invariant
            i <= masters@.len(),
            keep@.len() == i,
            forall|j: int| 0 <= j < i ==> #[trigger] keep@[j] == !id_in(gone@, masters@[j]@),
        decreases masters@.len() - i,
    {
        keep.push(!holds(gone, masters[i].as_str()));
        i = i + 1;
    }
    keep
}

/// Why a whole-trip delete is refused, if it is.
#[derive(Clone, Copy, Debug, PartialEq, Eq, Structural)]
pub enum TripRefusal {
    /// Not a single path segment.
    Invalid,
    /// No trip by that name.
    Unknown,
    /// The folder is not under the library.
    Outside,
}

/// Check a whole-trip delete: the name, that it is a trip, that it is under the
/// library, in that order.
pub fn delete_trip_check(trip: &str, is_trip: bool, inside: bool) -> (r: Result<(), TripRefusal>)
    ensures
        !crate::paths::valid_trip_spec(trip@) ==> r == Err::<(), TripRefusal>(TripRefusal::Invalid),
        crate::paths::valid_trip_spec(trip@) && !is_trip ==> r == Err::<(), TripRefusal>(TripRefusal::Unknown),
        crate::paths::valid_trip_spec(trip@) && is_trip && !inside ==> r == Err::<(), TripRefusal>(
            TripRefusal::Outside,
        ),
        crate::paths::valid_trip_spec(trip@) && is_trip && inside ==> r is Ok,
{
    if !crate::paths::valid_trip(trip) {
        Err(TripRefusal::Invalid)
    } else if !is_trip {
        Err(TripRefusal::Unknown)
    } else if !inside {
        Err(TripRefusal::Outside)
    } else {
        Ok(())
    }
}

/// The cloud side of a whole-trip delete, for a trip of `masters` masters:
/// nothing when it was never shared; else your subtree is purged (all of them
/// counted as erased) when the remote answers and the purge works, the purge is
/// owed when it fails, and it is queued for a later sync when offline.
pub fn trip_cloud_result(masters: usize, bytes: u64, shared: bool, online: bool, purged: bool) -> (r: (
    DeleteResult,
    bool,
))
    ensures
        r.0.deleted == masters,
        r.0.bytes == bytes,
        r.0.kept_cloud == 0,
        r.0.in_cloud == (if shared && online && purged { masters } else { 0 }),
        r.0.cloud_ok == (!shared || (online && purged)),
        r.1 == (shared && !online),
{
    let ok = !shared || (online && purged);
    let in_cloud = if shared && online && purged { masters } else { 0 };
    (DeleteResult { deleted: masters, bytes, in_cloud, kept_cloud: 0, cloud_ok: ok }, shared && !online)
}

/// Whether a file on the card is cleared as discarded: its capture time `at` is
/// in the session window (when one is given), it is tombstoned, and it sits under
/// a card root.
pub fn clear_pick(at: i64, window: Option<(i64, i64)>, tombstoned: bool, on_card: bool) -> (b: bool)
    ensures
        b == ((match window {
            Some((w0, w1)) => w0 <= at && at <= w1,
            None => true,
        }) && tombstoned && on_card),
{
    let in_window = match window {
        Some((w0, w1)) => w0 <= at && at <= w1,
        None => true,
    };
    in_window && tombstoned && on_card
}

} // verus!

verus! {

/// A delete leaves no ledger row for a deleted content id (nor, for a whole-trip
/// delete, any row of that trip), and keeps every other row, in order.
pub proof fn lemma_deleted_rows_gone(rows: Seq<Seq<Seq<char>>>, ids: Seq<String>, trip: Option<Seq<char>>)
    requires
        forall|i: int| 0 <= i < rows.len() ==> (#[trigger] rows[i]).len() == 8,
    ensures
        forall|i: int|
            0 <= i < rows_kept(rows, ids, trip).len() ==> !id_in(ids, (#[trigger] rows_kept(rows, ids, trip)[i])[0])
                && trip != Some(rows_kept(rows, ids, trip)[i][1]),
        forall|i: int|
            0 <= i < rows_kept(rows, ids, trip).len() ==> rows.contains(#[trigger] rows_kept(rows, ids, trip)[i]),
        forall|j: int|
            0 <= j < rows.len() && !id_in(ids, rows[j][0]) && trip != Some(rows[j][1]) ==> rows_kept(rows, ids, trip).contains(
                #[trigger] rows[j],
            ),
    decreases rows.len(),
{
    if rows.len() > 0 {
        let pre = rows.drop_last();
        lemma_deleted_rows_gone(pre, ids, trip);
        let k = rows_kept(rows, ids, trip);
        let kp = rows_kept(pre, ids, trip);
        assert forall|i: int| 0 <= i < k.len() implies rows.contains(#[trigger] k[i]) by {
            if i < kp.len() {
                assert(k[i] == kp[i]);
                assert(pre.contains(kp[i]));
                let w = choose|w: int| 0 <= w < pre.len() && pre[w] == kp[i];
                assert(rows[w] == pre[w]);
            } else {
                assert(rows[rows.len() - 1] == k[i]);
            }
        }
        assert forall|i: int| 0 <= i < k.len() implies !id_in(ids, (#[trigger] k[i])[0]) && trip != Some(k[i][1]) by {
            if i < kp.len() {
                assert(k[i] == kp[i]);
            }
        }
        assert forall|j: int| 0 <= j < rows.len() && !id_in(ids, rows[j][0]) && trip != Some(rows[j][1]) implies k.contains(
            #[trigger] rows[j],
        ) by {
            if j < rows.len() - 1 {
                assert(rows[j] == pre[j]);
                assert(kp.contains(pre[j]));
                let w = choose|w: int| 0 <= w < kp.len() && kp[w] == pre[j];
                assert(k[w] == kp[w]);
            } else {
                assert(k[k.len() - 1] == rows[j]);
            }
        }
    }
}

} // verus!
