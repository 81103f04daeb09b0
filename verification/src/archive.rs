//! Free a trip's local raw once it is safe in the shared cloud: every master must
//! check out in the cloud first, then the per-person camera trees (and `_sheets/`,
//! `.proxies/`) go, keeping `clips/`, the marks and `.reel`. Walking the trip and
//! the cloud check are the caller's; what is freed and when it is refused is
//! decided here.
use crate::model::{ArchivePlan, ArchiveResult};
use crate::push::{size_sum, total_size};
use crate::text::{push_str, str_eq};
use vstd::prelude::*;

verus! {

/// Whether a folder at the top of a trip holds raw to free: everything but `clips/`.
pub fn is_raw_dir(name: &str) -> (b: bool)
    ensures
        b == (name@ != "clips"@),
{
    !str_eq(name, "clips")
}

/// Why archiving a (validly named) trip is refused before the cloud check, if it is.
pub open spec fn archive_refusal(trip: Seq<char>, is_trip: bool, masters: nat) -> Option<Seq<char>> {
    if !is_trip {
        Some("no such trip: "@ + trip)
    } else if masters == 0 {
        Some("no raw footage in '"@ + trip + "' to free"@)
    } else {
        None
    }
}

pub fn archive_check(trip: &str, is_trip: bool, masters: usize) -> (r: Result<(), String>)
    ensures
        match r {
            Ok(()) => archive_refusal(trip@, is_trip, masters as nat) is None,
            Err(e) => archive_refusal(trip@, is_trip, masters as nat) == Some(e@),
        },
{
    if !is_trip {
        let mut e = "no such trip: ".to_string();
        push_str(&mut e, trip);
        return Err(e);
    }
    if masters == 0 {
        let mut e = "no raw footage in '".to_string();
        push_str(&mut e, trip);
        push_str(&mut e, "' to free");
        return Err(e);
    }
    Ok(())
}

/// What a failed cloud check of the trip says: nothing is freed.
pub fn not_all_in_cloud(trip: &str) -> (e: String)
    ensures
        e@ == "not all of '"@ + trip@ + "' is in the cloud — Share it first; nothing freed"@,
{
    let mut e = "not all of '".to_string();
    push_str(&mut e, trip);
    push_str(&mut e, "' is in the cloud — Share it first; nothing freed");
    e
}

/// What archiving `trip` would free, once its `masters` masters checked out in the
/// cloud: the bytes of its raw folders (`raw_bytes`, one per folder). Nothing is
/// deleted.
pub fn plan_archive(trip: &str, masters: usize, raw_bytes: &[u64]) -> (p: ArchivePlan)
    requires
        size_sum(raw_bytes@) <= u64::MAX,
    ensures
        p.trip@ == trip@,
        p.masters == masters,
        p.bytes == size_sum(raw_bytes@),
{
    ArchivePlan { trip: trip.to_string(), masters, bytes: total_size(raw_bytes) }
}

/// What archiving freed: the bytes of the raw folders removed.
pub fn archive_result(trip: &str, masters: usize, freed: &[u64]) -> (r: ArchiveResult)
    requires
        size_sum(freed@) <= u64::MAX,
    ensures
        r.trip@ == trip@,
        r.masters == masters,
        r.freed == size_sum(freed@),
{
    ArchiveResult { trip: trip.to_string(), freed: total_size(freed), masters }
}

} // verus!
