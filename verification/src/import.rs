//! Import a card's capture session into a trip: each master captured in the
//! session's window is copied into `<trip>/<user>/<camera>/`, unless the ledger
//! shows it already belongs to this trip or another. A byte-identical copy already
//! in the trip is a pre-ledger import: recorded, not copied again. The copying
//! itself is the caller's; what to copy and what to record is decided here.
use crate::ledger::{Ledger, LedgerRow};
use crate::media::{kind_of, kind_spec};
use crate::paths::{file_name, file_name_spec, join, join_spec};
use crate::text::{dec, dec_i, i64_dec, push_str, str_eq, u64_dec};
use vstd::prelude::*;

verus! {

/// What import does with one master found on the card.
#[derive(Clone, Debug)]
pub enum ImportStep {
    /// Captured outside the session window.
    OutOfWindow,
    /// Its content could not be read: left on the card.
    Unreadable,
    /// The ledger says this trip already owns it.
    AlreadyHere,
    /// The ledger says another trip owns it.
    OtherTrip,
    /// Not owned yet: copy it (or record it, when the trip already holds it).
    New,
}

/// Decide what import does with a master captured at `at`, whose content id is
/// `id` (`None` when it could not be read), for a session window `[w0, w1]`.
pub fn import_step(ledger: &Ledger, trip: &str, at: i64, w0: i64, w1: i64, id: Option<&str>) -> (s: ImportStep)
    ensures
        at < w0 || at > w1 ==> s is OutOfWindow,
        w0 <= at <= w1 && id is None ==> s is Unreadable,
        w0 <= at <= w1 && id is Some ==> ({
            let rows = ledger.rows@;
            let i = id.unwrap()@;
            &&& (!exists|k: int| 0 <= k < rows.len() && (#[trigger] rows[k]).id@ == i) ==> s is New
            &&& (exists|k: int|
                0 <= k < rows.len() && (#[trigger] rows[k]).id@ == i && rows[k].trip@ == trip@ && forall|j: int|
                    0 <= j < k ==> rows[j].id@ != i) ==> s is AlreadyHere
            &&& (exists|k: int|
                0 <= k < rows.len() && (#[trigger] rows[k]).id@ == i && rows[k].trip@ != trip@ && forall|j: int|
                    0 <= j < k ==> rows[j].id@ != i) ==> s is OtherTrip
        }),
{
    if at < w0 || at > w1 {
        return ImportStep::OutOfWindow;
    }
    let id = match id {
        Some(i) => i,
        None => {
            return ImportStep::Unreadable;
        },
    };
    match ledger.trip_of(id) {
        Some(o) => {
            proof {
                let rows = ledger.rows@;
                assert forall|k1: int, k2: int|
                    0 <= k1 < rows.len() && 0 <= k2 < rows.len() && (#[trigger] rows[k1]).id@ == id@ && (#[trigger] rows[k2]).id@ == id@
                        && (forall|j: int| 0 <= j < k1 ==> rows[j].id@ != id@) && (forall|j: int|
                        0 <= j < k2 ==> rows[j].id@ != id@) implies k1 == k2 by {
                    if k1 < k2 {
                        assert(rows[k1].id@ != id@);
                    }
                    if k2 < k1 {
                        assert(rows[k2].id@ != id@);
                    }
                }
            }
            if str_eq(o.as_str(), trip) {
                ImportStep::AlreadyHere
            } else {
                ImportStep::OtherTrip
            }
        },
        None => ImportStep::New,
    }
}

/// Where a new master lands: `<lib>/<trip>/<user>/<camera>/<base>`, the camera
/// folder chosen by the kind of capture.
pub open spec fn import_dest_spec(lib: Seq<char>, trip: Seq<char>, user: Seq<char>, master: Seq<char>) -> Seq<char> {
    join_spec(
        join_spec(join_spec(join_spec(lib, trip), user), crate::media::kind_dir(kind_spec(file_name_spec(master)))),
        file_name_spec(master),
    )
}

pub fn import_dest(lib: &str, trip: &str, user: &str, master: &str) -> (d: String)
    ensures
        d@ == import_dest_spec(lib@, trip@, user@, master@),
{
    let kind = kind_of(master);
    let t = join(lib, trip);
    let u = join(t.as_str(), user);
    let c = join(u.as_str(), kind.dir());
    join(c.as_str(), file_name(master).as_str())
}

/// The ledger row recording an imported master: content id, trip, owner, camera
/// folder, name, size, capture time, and when it was imported.
pub fn import_row(id: &str, trip: &str, user: &str, master: &str, bytes: u64, at: i64, now: i64) -> (r: LedgerRow)
    ensures
        r.id@ == id@,
        r.trip@ == trip@,
        r.person@ == user@,
        r.camera@ == crate::media::kind_dir(kind_spec(file_name_spec(master@))),
        r.base@ == file_name_spec(master@),
        r.bytes@ == dec(bytes as nat),
        r.captured@ == dec_i(at as int),
        r.imported_at@ == dec_i(now as int),
{
    let kind = kind_of(master);
    LedgerRow {
        id: id.to_string(),
        trip: trip.to_string(),
        person: user.to_string(),
        camera: kind.dir().to_string(),
        base: file_name(master),
        bytes: u64_dec(bytes),
        captured: i64_dec(at),
        imported_at: i64_dec(now),
    }
}

/// Whether a new master is a pre-ledger import: the trip already holds a file of
/// the same size at its destination, so it is recorded rather than copied.
pub fn already_in_trip(dest_size: Option<u64>, bytes: u64) -> (b: bool)
    ensures
        b == (dest_size == Some(bytes)),
{
    match dest_size {
        Some(n) => n == bytes,
        None => false,
    }
}

} // verus!
