//! SD cards: where to look for them, and the session survey. Each capture on the
//! card is read against the ledger and the tombstones; sessions are then safe to
//! clear only when every trip owning their captures has its footage provably in
//! the cloud. Mounts, walks and hashing are the caller's.
use crate::ledger::{Ledger, Tombstones};
use crate::model::{ClipRef, Session};
use crate::paths::{join, join_spec};
use crate::sessions::ClipRec;
use crate::text::str_eq;
use vstd::prelude::*;

verus! {

/// Where to look for cards: the `DJI_SD`/`GOPRO_SD` overrides when either is set;
/// else the `DCIM` folder of every volume under `/run/media/<user>/`.
pub open spec fn card_candidates_spec(dji: Option<Seq<char>>, gopro: Option<Seq<char>>, volumes: Seq<Seq<char>>) -> Seq<Seq<char>> {
    let o = (match dji {
        Some(p) => seq![p],
        None => Seq::empty(),
    }) + (match gopro {
        Some(p) => seq![p],
        None => Seq::empty(),
    });
    if o.len() > 0 {
        o
    } else {
        volumes.map_values(|v: Seq<char>| join_spec(v, "DCIM"@))
    }
}

/// The folder the volumes of `user`'s removable media are mounted under.
pub fn media_dir(user: &str) -> (d: String)
    ensures
        d@ == join_spec("/run/media"@, user@),
{
    join("/run/media", user)
}

/// The candidate card roots; `volumes` are the entries under the media folder.
/// The caller keeps those that are folders.
pub fn card_candidates(dji: Option<&str>, gopro: Option<&str>, volumes: &[String]) -> (r: Vec<String>)
    ensures
        crate::text::views(r@) == card_candidates_spec(
            crate::media::opt_str(dji),
            crate::media::opt_str(gopro),
            crate::text::views(volumes@),
        ),
{
    let mut r: Vec<String> = Vec::new();
    match dji {
        Some(p) => r.push(p.to_string()),
        None => {},
    }
    match gopro {
        Some(p) => r.push(p.to_string()),
        None => {},
    }
    proof {
        let o = (match crate::media::opt_str(dji) {
            Some(p) => seq![p],
            None => Seq::<Seq<char>>::empty(),
        }) + (match crate::media::opt_str(gopro) {
            Some(p) => seq![p],
            None => Seq::<Seq<char>>::empty(),
        });
        assert(crate::text::views(r@) =~= o);
    }
    if r.len() > 0 {
        return r;
    }
    let mut i: usize = 0;
    while i < volumes.len()
        invariant
            i <= volumes@.len(),
            crate::text::views(r@) == crate::text::views(volumes@).take(i as int).map_values(
                |v: Seq<char>| join_spec(v, "DCIM"@),
            ),
        decreases volumes@.len() - i,
    {
        let ghost r0 = crate::text::views(r@);
        r.push(join(volumes[i].as_str(), "DCIM"));
        proof {
            assert(crate::text::views(r@) =~= r0.push(join_spec(volumes@[i as int]@, "DCIM"@)));
            assert(crate::text::views(volumes@).take(i + 1) =~= crate::text::views(volumes@).take(i as int).push(
                volumes@[i as int]@,
            ));
        }
        i = i + 1;
        proof {
            assert(crate::text::views(r@) =~= crate::text::views(volumes@).take(i as int).map_values(
                |v: Seq<char>| join_spec(v, "DCIM"@),
            ));
        }
    }
    proof {
        assert(crate::text::views(volumes@).take(i as int) =~= crate::text::views(volumes@));
    }
    r
}

/// One capture on the card as the survey reads it. A tombstoned capture is trash
/// already deleted: it has no owner, so it reads "discarded" rather than "new" or
/// "imported in <trip>". `id` is its content id (`None` when unreadable).
pub fn clip_rec(at: i64, bytes: u64, photo: bool, path: &str, id: Option<&str>, ledger: &Ledger, tombs: &Tombstones) -> (c: ClipRec)
    requires
        tombs.wf(),
    ensures
        c.at == at,
        c.bytes == bytes,
        c.photo == photo,
        c.clip.path@ == path@,
        c.clip.fileid@ == (match id {
            Some(i) => i@,
            None => Seq::empty(),
        }),
        c.discarded == (id is Some && tombs@.contains(id.unwrap()@)),
        c.discarded ==> c.owner is None,
        id is None ==> c.owner is None,
        !c.discarded && id is Some ==> match c.owner {
            Some(t) => exists|i: int|
                0 <= i < ledger.rows@.len() && (#[trigger] ledger.rows@[i]).id@ == id.unwrap()@ && t@
                    == ledger.rows@[i].trip@ && forall|j: int| 0 <= j < i ==> ledger.rows@[j].id@ != id.unwrap()@,
            None => forall|i: int| 0 <= i < ledger.rows@.len() ==> (#[trigger] ledger.rows@[i]).id@ != id.unwrap()@,
        },
{
    let discarded = match id {
        Some(i) => tombs.contains(i),
        None => false,
    };
    let owner = if discarded {
        None
    } else {
        match id {
            Some(i) => ledger.trip_of(i),
            None => None,
        }
    };
    let fileid = match id {
        Some(i) => i.to_string(),
        None => String::new(),
    };
    ClipRec { at, bytes, photo, owner, discarded, clip: ClipRef { path: path.to_string(), fileid } }
}

/// Whether trip `t` is recorded as in the cloud in `in_cloud` (unknown trips are not).
pub open spec fn cloud_says(in_cloud: Seq<(String, bool)>, t: Seq<char>) -> bool {
    exists|k: int| 0 <= k < in_cloud.len() && (#[trigger] in_cloud[k]).0@ == t && in_cloud[k].1
}

fn trip_in(in_cloud: &[(String, bool)], t: &str) -> (b: bool)
    requires
        forall|a: int, b: int| 0 <= a < b < in_cloud@.len() ==> (#[trigger] in_cloud@[a]).0@ != (#[trigger] in_cloud@[b]).0@,
    ensures
        b == cloud_says(in_cloud@, t@),
{
    let mut k: usize = 0;
    while k < in_cloud.len()
        invariant
            k <= in_cloud@.len(),
            forall|a: int, b: int| 0 <= a < b < in_cloud@.len() ==> (#[trigger] in_cloud@[a]).0@ != (#[trigger] in_cloud@[b]).0@,
            forall|j: int| 0 <= j < k ==> (#[trigger] in_cloud@[j]).0@ != t@,
        decreases in_cloud@.len() - k,
    {
        if str_eq(in_cloud[k].0.as_str(), t) {
            proof {
                assert forall|j: int| 0 <= j < in_cloud@.len() && (#[trigger] in_cloud@[j]).0@ == t@ implies j == k by {
                    if j < k {
                    } else if j > k {
                        assert(in_cloud@[k as int].0@ != in_cloud@[j].0@);
                    }
                }
            }
            return in_cloud[k].1;
        }
        k = k + 1;
    }
    false
}

/// Which sessions are safe to clear: every capture imported, some trip owns them,
/// and every owning trip is in the cloud (`in_cloud`, one row per trip).
pub fn safe_flags(sessions: &[Session], in_cloud: &[(String, bool)]) -> (r: Vec<bool>)
    requires
        forall|a: int, b: int| 0 <= a < b < in_cloud@.len() ==> (#[trigger] in_cloud@[a]).0@ != (#[trigger] in_cloud@[b]).0@,
    ensures
        r@.len() == sessions@.len(),
        forall|i: int|
            0 <= i < sessions@.len() ==> #[trigger] r@[i] == (sessions@[i].imported && sessions@[i].owners@.len() > 0
                && forall|k: int| 0 <= k < sessions@[i].owners@.len() ==> cloud_says(in_cloud@, #[trigger] sessions@[i].owners@[k]@)),
{
    let mut r: Vec<bool> = Vec::new();
    let mut i: usize = 0;
    while i < sessions.len()
        invariant
            i <= sessions@.len(),
            r@.len() == i,
            forall|a: int, b: int| 0 <= a < b < in_cloud@.len() ==> (#[trigger] in_cloud@[a]).0@ != (#[trigger] in_cloud@[b]).0@,
            forall|j: int|
                0 <= j < i ==> #[trigger] r@[j] == (sessions@[j].imported && sessions@[j].owners@.len() > 0 && forall|k: int|
                    0 <= k < sessions@[j].owners@.len() ==> cloud_says(in_cloud@, #[trigger] sessions@[j].owners@[k]@)),
        decreases sessions@.len() - i,
    {
        let mut all = true;
        let mut k: usize = 0;
        let n = sessions[i].owners.len();
        while k < n
            invariant
                k <= n,
                i < sessions@.len(),
                n == sessions@[i as int].owners@.len(),
                forall|a: int, b: int| 0 <= a < b < in_cloud@.len() ==> (#[trigger] in_cloud@[a]).0@ != (#[trigger] in_cloud@[b]).0@,
                all == forall|j: int| 0 <= j < k ==> cloud_says(in_cloud@, #[trigger] sessions@[i as int].owners@[j]@),
            decreases n - k,
        {
            let b = trip_in(in_cloud, sessions[i].owners[k].as_str());
            all = all && b;
            k = k + 1;
        }
        r.push(sessions[i].imported && n > 0 && all);
        i = i + 1;
    }
    r
}

/// The card's totals: how many captures, their bytes, and how many are photos.
pub open spec fn recs_bytes(recs: Seq<ClipRec>) -> int
    decreases recs.len(),
{
    if recs.len() == 0 {
        0
    } else {
        recs_bytes(recs.drop_last()) + recs.last().bytes
    }
}

pub open spec fn recs_photos(recs: Seq<ClipRec>) -> nat
    decreases recs.len(),
{
    if recs.len() == 0 {
        0
    } else {
        recs_photos(recs.drop_last()) + if recs.last().photo { 1nat } else { 0nat }
    }
}

proof fn lemma_recs_prefix(recs: Seq<ClipRec>, k: int)
    requires
        0 <= k <= recs.len(),
    ensures
        recs_bytes(recs.take(k)) <= recs_bytes(recs),
    decreases recs.len() - k,
{
    if k < recs.len() {
        lemma_recs_prefix(recs, k + 1);
        assert(recs.take(k + 1).drop_last() =~= recs.take(k));
    } else {
        assert(recs.take(k) =~= recs);
    }
}

proof fn lemma_photos_le(recs: Seq<ClipRec>)
    ensures
        recs_photos(recs) <= recs.len(),
    decreases recs.len(),
{
    if recs.len() > 0 {
        lemma_photos_le(recs.drop_last());
    }
}

pub fn card_totals(recs: &[ClipRec]) -> (t: (u64, usize))
    requires
        recs_bytes(recs@) <= u64::MAX,
    ensures
        t.0 == recs_bytes(recs@),
        t.1 == recs_photos(recs@),
{
    let mut bytes: u64 = 0;
    let mut photos: usize = 0;
    let mut i: usize = 0;
    while i < recs.len()
        invariant
            i <= recs@.len(),
            bytes == recs_bytes(recs@.take(i as int)),
            photos == recs_photos(recs@.take(i as int)),
            recs_bytes(recs@) <= u64::MAX,
        decreases recs@.len() - i,
    {
        proof {
            assert(recs@.take(i + 1).drop_last() =~= recs@.take(i as int));
            lemma_recs_prefix(recs@, i + 1);
            lemma_photos_le(recs@.take(i as int));
        }
        bytes = bytes + recs[i].bytes;
        if recs[i].photo {
            photos = photos + 1;
        }
        i = i + 1;
    }
    proof {
        assert(recs@.take(i as int) =~= recs@);
    }
    (bytes, photos)
}

} // verus!
