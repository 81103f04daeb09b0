//! Push your masters in a trip up to the shared pool: only `<trip>/<you>/`,
//! masters only (the cameras' `.LRF`/`.LRV`/`.THM` stay local), and the trip is
//! marked shared only once the pool's own check confirms every byte landed. Any
//! failure leaves it unshared and the local copies untouched, so a push is always
//! safe to retry. Running rclone is the caller's.
use crate::text::push_str;
use vstd::prelude::*;

verus! {

/// A copy or check argument list: the verb and its flags, an `--exclude` per
/// camera sidecar pattern (`*.LRF`, `*.LRV`, `*.THM` never go to the pool), then
/// source and destination.
pub open spec fn pool_args_spec(lead: Seq<Seq<char>>, src: Seq<char>, dest: Seq<char>) -> Seq<Seq<char>> {
    lead + seq!["--exclude"@, "*.LRF"@, "--exclude"@, "*.LRV"@, "--exclude"@, "*.THM"@] + seq![src, dest]
}

pub fn pool_args(lead: &[&str], src: &str, dest: &str) -> (a: Vec<String>)
    ensures
        a@.map_values(|s: String| s@) == pool_args_spec(lead@.map_values(|s: &str| s@), src@, dest@),
{
    let mut a: Vec<String> = Vec::new();
    let mut i: usize = 0;
    while i < lead.len()
        invariant
            i <= lead@.len(),
            a@.map_values(|s: String| s@) == lead@.take(i as int).map_values(|s: &str| s@),
        decreases lead@.len() - i,
    {
        let ghost a0 = a@;
        a.push(lead[i].to_string());
        proof {
            assert(lead@.take(i + 1) =~= lead@.take(i as int).push(lead@[i as int]));
            assert(a@.map_values(|s: String| s@) =~= a0.map_values(|s: String| s@).push(lead@[i as int]@));
            assert(a@.map_values(|s: String| s@) =~= lead@.take(i + 1).map_values(|s: &str| s@));
        }
        i = i + 1;
    }
    let ghost head = a@.map_values(|s: String| s@);
    a.push("--exclude".to_string());
    a.push("*.LRF".to_string());
    a.push("--exclude".to_string());
    a.push("*.LRV".to_string());
    a.push("--exclude".to_string());
    a.push("*.THM".to_string());
    a.push(src.to_string());
    a.push(dest.to_string());
    proof {
        assert(lead@.take(i as int) =~= lead@);
        assert(a@.map_values(|s: String| s@) =~= pool_args_spec(lead@.map_values(|s: &str| s@), src@, dest@));
    }
    a
}

/// Why a push is refused before anything is sent, if it is.
pub open spec fn push_refusal(trip: Seq<char>, is_trip: bool, mine: nat) -> Option<Seq<char>> {
    if !is_trip {
        Some("no such trip: "@ + trip)
    } else if mine == 0 {
        Some("nothing of yours to share in '"@ + trip + "'"@)
    } else {
        None
    }
}

/// Check a push of a (validly named) trip holding `mine` masters of yours.
pub fn push_check(trip: &str, is_trip: bool, mine: usize) -> (r: Result<(), String>)
    ensures
        match r {
            Ok(()) => push_refusal(trip@, is_trip, mine as nat) is None,
            Err(e) => push_refusal(trip@, is_trip, mine as nat) == Some(e@),
        },
{
    if !is_trip {
        let mut e = "no such trip: ".to_string();
        push_str(&mut e, trip);
        return Err(e);
    }
    if mine == 0 {
        let mut e = "nothing of yours to share in '".to_string();
        push_str(&mut e, trip);
        push_str(&mut e, "'");
        return Err(e);
    }
    Ok(())
}

/// What the two legs of a push say: the upload must finish, then the pool check
/// must pass, before the trip may be marked shared.
pub open spec fn push_legs(copied: bool, verified: bool) -> Result<(), Seq<char>> {
    if !copied {
        Err("upload didn't finish — your local copies are safe; Share again to resume"@)
    } else if !verified {
        Err("pool check failed — not marking shared; your local copies are safe. Share again to retry"@)
    } else {
        Ok(())
    }
}

pub fn push_verdict(copied: bool, verified: bool) -> (r: Result<(), String>)
    ensures
        match r {
            Ok(()) => push_legs(copied, verified) is Ok,
            Err(e) => push_legs(copied, verified) == Err::<(), Seq<char>>(e@),
        },
{
    if !copied {
        return Err("upload didn't finish — your local copies are safe; Share again to resume".to_string());
    }
    if !verified {
        return Err(
            "pool check failed — not marking shared; your local copies are safe. Share again to retry".to_string(),
        );
    }
    Ok(())
}

/// The bytes uploaded so far: the most any progress report has shown.
pub fn uploaded_so_far(before: u64, done: u64) -> (u: u64)
    ensures
        u == if done > before { done } else { before },
{
    if done > before { done } else { before }
}

/// The total size of the masters pushed.
pub open spec fn size_sum(sizes: Seq<u64>) -> int
    decreases sizes.len(),
{
    if sizes.len() == 0 {
        0
    } else {
        size_sum(sizes.drop_last()) + sizes.last()
    }
}

pub fn total_size(sizes: &[u64]) -> (t: u64)
    requires
        size_sum(sizes@) <= u64::MAX,
    ensures
        t == size_sum(sizes@),
{
    let mut t: u64 = 0;
    let mut i: usize = 0;
    while i < sizes.len()
        invariant
            i <= sizes@.len(),
            t == size_sum(sizes@.take(i as int)),
            size_sum(sizes@) <= u64::MAX,
        decreases sizes@.len() - i,
    {
        proof {
            assert(sizes@.take(i + 1).drop_last() =~= sizes@.take(i as int));
            lemma_size_sum_prefix(sizes@, i + 1);
        }
        t = t + sizes[i];
        i = i + 1;
    }
    proof {
        assert(sizes@.take(i as int) =~= sizes@);
    }
    t
}

proof fn lemma_size_sum_prefix(s: Seq<u64>, k: int)
    requires
        0 <= k <= s.len(),
    ensures
        size_sum(s.take(k)) <= size_sum(s),
    decreases s.len() - k,
{
    if k < s.len() {
        lemma_size_sum_prefix(s, k + 1);
        assert(s.take(k + 1).drop_last() =~= s.take(k));
    } else {
        assert(s.take(k) =~= s);
    }
}

} // verus!
