//! Cluster capture-ordered card captures (videos and photos) into sessions on
//! time gaps.
use crate::model::{ClipRef, Session};
use crate::text::str_eq;
use vstd::prelude::*;

verus! {

/// One card capture, as clustering needs it: capture time, size, whether it's a
/// photo (vs a video), the trip that already owns it (if any), whether it was
/// permanently deleted (tombstoned), and a pointer for its thumbnail.
pub struct ClipRec {
    pub at: i64,
    pub bytes: u64,
    pub photo: bool,
    pub owner: Option<String>,
    pub discarded: bool,
    pub clip: ClipRef,
}

/// Up to this many frames make a session's contact strip.
pub const STRIP_MAX: usize = 4;

/// Capture `i` opens a new session: it is the first, or more than `gap` seconds
/// passed since the capture before it.
pub open spec fn opens(caps: Seq<ClipRec>, gap: i64, i: int) -> bool {
    i == 0 || caps[i].at - caps[i - 1].at > gap
}

/// The last capture of the session that capture `i` belongs to, walking forward
/// while no later capture opens a new one.
pub open spec fn run_end(caps: Seq<ClipRec>, gap: i64, i: int) -> int
    decreases caps.len() - i,
{
    if i + 1 < caps.len() && !opens(caps, gap, i + 1) {
        run_end(caps, gap, i + 1)
    } else {
        i
    }
}

pub proof fn lemma_run_end(caps: Seq<ClipRec>, gap: i64, i: int)
    requires
        0 <= i < caps.len(),
    ensures
        i <= run_end(caps, gap, i) < caps.len(),
        run_end(caps, gap, i) + 1 < caps.len() ==> opens(caps, gap, run_end(caps, gap, i) + 1),
        forall|t: int| i < t <= run_end(caps, gap, i) ==> !#[trigger] opens(caps, gap, t),
    decreases caps.len() - i,
{
    if i + 1 < caps.len() && !opens(caps, gap, i + 1) {
        lemma_run_end(caps, gap, i + 1);
    }
}

/// The sessions from capture `i` on, as inclusive index ranges `(first, last)`.
pub open spec fn spans(caps: Seq<ClipRec>, gap: i64, i: int) -> Seq<(int, int)>
    decreases caps.len() - i,
{
    if 0 <= i < caps.len() {
        let e = run_end(caps, gap, i);
        proof {
            lemma_run_end(caps, gap, i);
        }
        seq![(i, e)] + spans(caps, gap, e + 1)
    } else {
        Seq::empty()
    }
}

/// A capture that a trip already owns (a discarded one never counts as owned).
pub open spec fn is_owned(r: ClipRec) -> bool {
    !r.discarded && r.owner is Some
}

pub open spec fn photo_count(s: Seq<ClipRec>) -> nat
    decreases s.len(),
{
    if s.len() == 0 {
        0
    } else {
        photo_count(s.drop_last()) + if s.last().photo { 1nat } else { 0nat }
    }
}

pub open spec fn owned_count(s: Seq<ClipRec>) -> nat
    decreases s.len(),
{
    if s.len() == 0 {
        0
    } else {
        owned_count(s.drop_last()) + if is_owned(s.last()) { 1nat } else { 0nat }
    }
}

pub open spec fn discarded_count(s: Seq<ClipRec>) -> nat
    decreases s.len(),
{
    if s.len() == 0 {
        0
    } else {
        discarded_count(s.drop_last()) + if s.last().discarded { 1nat } else { 0nat }
    }
}

pub open spec fn byte_sum(s: Seq<ClipRec>) -> nat
    decreases s.len(),
{
    if s.len() == 0 {
        0
    } else {
        byte_sum(s.drop_last()) + s.last().bytes as nat
    }
}

/// The trips that own captures of `s`, each once, in order of first appearance.
pub open spec fn owners_list(s: Seq<ClipRec>) -> Seq<Seq<char>>
    decreases s.len(),
{
    if s.len() == 0 {
        Seq::empty()
    } else {
        let before = owners_list(s.drop_last());
        let r = s.last();
        if is_owned(r) && !before.contains(r.owner->0@) {
            before.push(r.owner->0@)
        } else {
            before
        }
    }
}

pub open spec fn names(v: Seq<String>) -> Seq<Seq<char>> {
    v.map_values(|o: String| o@)
}

pub open spec fn same_clip(a: ClipRef, b: ClipRef) -> bool {
    a.path@ == b.path@ && a.fileid@ == b.fileid@
}

/// How many frames a strip of at most `n` takes from `len` captures.
pub open spec fn strip_take(len: int, n: int) -> int {
    if n < len { n } else { len }
}

/// Which capture frame `k` of the strip shows: spread evenly from the first
/// capture to the last.
pub open spec fn strip_index(len: int, n: int, k: int) -> int {
    let take = strip_take(len, n);
    if take == 1 { 0 } else { k * (len - 1) / (take - 1) }
}

/// `strip` is the contact strip of at most `n` frames for `seg`.
pub open spec fn is_strip(seg: Seq<ClipRec>, n: int, strip: Seq<ClipRef>) -> bool {
    &&& strip.len() == strip_take(seg.len() as int, n)
    &&& forall|k: int|
        0 <= k < strip.len() ==> same_clip(
            #[trigger] strip[k],
            seg[strip_index(seg.len() as int, n, k)].clip,
        )
}

/// `s` is the `k`-th session (0-based), made of captures `lo..=hi`.
pub open spec fn is_session(caps: Seq<ClipRec>, lo: int, hi: int, k: int, s: Session) -> bool {
    let seg = caps.subrange(lo, hi + 1);
    &&& s.index == k + 1
    &&& s.start == caps[lo].at
    &&& s.end == caps[hi].at
    &&& s.captures == seg.len()
    &&& s.photos == photo_count(seg)
    &&& s.bytes == byte_sum(seg)
    &&& names(s.owners@) == owners_list(seg)
    &&& s.imported == (owned_count(seg) == seg.len())
    &&& s.new_captures == seg.len() - owned_count(seg) - discarded_count(seg)
    &&& s.discarded == discarded_count(seg)
    &&& is_strip(seg, STRIP_MAX as int, s.strip@)
    &&& !s.safe
}

pub proof fn lemma_counts_bounded(s: Seq<ClipRec>)
    ensures
        owned_count(s) + discarded_count(s) <= s.len(),
        photo_count(s) <= s.len(),
        owners_list(s).len() <= owned_count(s),
    decreases s.len(),
{
    if s.len() > 0 {
        lemma_counts_bounded(s.drop_last());
    }
}

pub proof fn lemma_byte_sum_concat(a: Seq<ClipRec>, b: Seq<ClipRec>)
    ensures
        byte_sum(a + b) == byte_sum(a) + byte_sum(b),
    decreases b.len(),
{
    if b.len() > 0 {
        assert((a + b).drop_last() =~= a + b.drop_last());
        lemma_byte_sum_concat(a, b.drop_last());
    } else {
        assert(a + b =~= a);
    }
}

/// The bytes of captures `lo..hi` never exceed the bytes of all of them.
proof fn lemma_byte_sum_within(caps: Seq<ClipRec>, lo: int, hi: int)
    requires
        0 <= lo <= hi <= caps.len(),
    ensures
        byte_sum(caps.subrange(lo, hi)) <= byte_sum(caps),
{
    lemma_byte_sum_concat(caps.subrange(0, lo), caps.subrange(lo, hi));
    assert(caps.subrange(0, lo) + caps.subrange(lo, hi) =~= caps.subrange(0, hi));
    lemma_byte_sum_concat(caps.subrange(0, hi), caps.subrange(hi, caps.len() as int));
    assert(caps.subrange(0, hi) + caps.subrange(hi, caps.len() as int) =~= caps);
}

/// Sessions partition the captures in order: the first starts at the first
/// capture, each next one starts right after the previous one ends, the last ends
/// at the last capture; a session starts exactly where more than `gap` seconds
/// separate a capture from the one before it, and no such gap lies inside one.
pub proof fn lemma_sessions_partition(caps: Seq<ClipRec>, gap: i64)
    ensures
        (spans(caps, gap, 0).len() == 0) == (caps.len() == 0),
        caps.len() > 0 ==> spans(caps, gap, 0)[0].0 == 0,
        caps.len() > 0 ==> spans(caps, gap, 0).last().1 == caps.len() - 1,
        forall|k: int|
            0 <= k < spans(caps, gap, 0).len() ==> {
                let (lo, hi) = #[trigger] spans(caps, gap, 0)[k];
                &&& 0 <= lo <= hi < caps.len()
                &&& opens(caps, gap, lo)
                &&& forall|t: int| lo < t <= hi ==> !#[trigger] opens(caps, gap, t)
            },
        forall|a: int, b: int|
            0 <= a && b == a + 1 && b < spans(caps, gap, 0).len() ==> #[trigger] spans(caps, gap, 0)[b].0
                == #[trigger] spans(caps, gap, 0)[a].1 + 1,
{
    lemma_spans_from(caps, gap, 0);
}

proof fn lemma_spans_from(caps: Seq<ClipRec>, gap: i64, i: int)
    requires
        0 <= i <= caps.len(),
        i == caps.len() || opens(caps, gap, i),
    ensures
        (spans(caps, gap, i).len() == 0) == (i == caps.len()),
        i < caps.len() ==> spans(caps, gap, i)[0].0 == i,
        i < caps.len() ==> spans(caps, gap, i).last().1 == caps.len() - 1,
        forall|k: int|
            0 <= k < spans(caps, gap, i).len() ==> {
                let (lo, hi) = #[trigger] spans(caps, gap, i)[k];
                &&& i <= lo <= hi < caps.len()
                &&& opens(caps, gap, lo)
                &&& forall|t: int| lo < t <= hi ==> !#[trigger] opens(caps, gap, t)
            },
        forall|a: int, b: int|
            0 <= a && b == a + 1 && b < spans(caps, gap, i).len() ==> #[trigger] spans(caps, gap, i)[b].0
                == #[trigger] spans(caps, gap, i)[a].1 + 1,
    decreases caps.len() - i,
{
    if i < caps.len() {
        let e = run_end(caps, gap, i);
        lemma_run_end(caps, gap, i);
        lemma_spans_from(caps, gap, e + 1);
        let rest = spans(caps, gap, e + 1);
        let all = spans(caps, gap, i);
        assert(all == seq![(i, e)] + rest);
        assert forall|k: int| 0 <= k < all.len() implies {
            let (lo, hi) = #[trigger] all[k];
            &&& i <= lo <= hi < caps.len()
            &&& opens(caps, gap, lo)
            &&& forall|t: int| lo < t <= hi ==> !#[trigger] opens(caps, gap, t)
        } by {
            if k > 0 {
                assert(all[k] == rest[k - 1]);
            }
        }
        assert forall|a: int, b: int| 0 <= a && b == a + 1 && b < all.len() implies #[trigger] all[b].0 == #[trigger] all[a].1 + 1 by {
            let k = a;
            assert(all[k + 1] == rest[k]);
            if k > 0 {
                assert(all[k] == rest[k - 1]);
                assert(rest[k].0 == rest[k - 1].1 + 1);
            } else {
                assert(all[0] == (i, e));
                assert(rest.len() > 0);
                assert(rest[0].0 == e + 1);
            }
        }
    }
}

/// A session counts as imported exactly when every one of its captures is owned
/// by a trip; the new, owned and discarded captures add up to all of them.
pub proof fn lemma_session_accounting(seg: Seq<ClipRec>)
    ensures
        (owned_count(seg) == seg.len()) == (forall|t: int| 0 <= t < seg.len() ==> #[trigger] is_owned(seg[t])),
        owned_count(seg) + discarded_count(seg) <= seg.len(),
    decreases seg.len(),
{
    lemma_counts_bounded(seg);
    if seg.len() > 0 {
        let pre = seg.drop_last();
        lemma_session_accounting(pre);
        lemma_counts_bounded(pre);
        if owned_count(seg) == seg.len() {
            assert forall|t: int| 0 <= t < seg.len() implies #[trigger] is_owned(seg[t]) by {
                if t < seg.len() - 1 {
                    assert(seg[t] == pre[t]);
                }
            }
        }
        if forall|t: int| 0 <= t < seg.len() ==> #[trigger] is_owned(seg[t]) {
            assert forall|t: int| 0 <= t < pre.len() implies #[trigger] is_owned(pre[t]) by {
                assert(is_owned(seg[t]));
            }
            assert(is_owned(seg[seg.len() - 1]));
        }
    }
}

/// A strip of two or more frames opens on a session's first capture and closes on
/// its last, and never shows one capture twice.
pub proof fn lemma_strip_spread(len: int, n: int)
    requires
        strip_take(len, n) >= 2,
    ensures
        strip_index(len, n, 0) == 0,
        strip_index(len, n, strip_take(len, n) - 1) == len - 1,
        forall|k: int|
            0 <= k < strip_take(len, n) - 1 ==> #[trigger] strip_index(len, n, k) < strip_index(len, n, k + 1),
{
    let take = strip_take(len, n);
    assert((take - 1) * (len - 1) / (take - 1) == len - 1) by (nonlinear_arith)
        requires
            take - 1 > 0,
    ;
    assert forall|k: int| 0 <= k < take - 1 implies #[trigger] strip_index(len, n, k) < strip_index(len, n, k + 1) by {
        assert(k * (len - 1) / (take - 1) < (k + 1) * (len - 1) / (take - 1)) by (nonlinear_arith)
            requires
                0 <= k,
                take - 1 > 0,
                len >= take,
        {
            let a = k * (len - 1);
            let d = take - 1;
            assert((k + 1) * (len - 1) == a + (len - 1));
            assert(len - 1 >= d);
            assert(a / d * d <= a);
            assert((a + (len - 1)) >= a + d);
            assert((a + d) / d == a / d + 1);
        }
    }
}

fn copy_clip(c: &ClipRef) -> (r: ClipRef)
    ensures
        same_clip(r, *c),
{
    ClipRef { path: c.path.clone(), fileid: c.fileid.clone() }
}

/// Whether `name` is already among `v`.
fn has_name(v: &Vec<String>, name: &String) -> (b: bool)
    ensures
        b == names(v@).contains(name@),
{
    let mut q: usize = 0;
    while q < v.len()
        invariant
            q <= v.len(),
            forall|p: int| 0 <= p < q ==> v@[p]@ != name@,
        decreases v.len() - q,
    {
        if str_eq(v[q].as_str(), name.as_str()) {
            assert(names(v@)[q as int] == name@);
            return true;
        }
        q = q + 1;
    }
    assert forall|p: int| 0 <= p < names(v@).len() implies names(v@)[p] != name@ by {
        assert(names(v@)[p] == v@[p]@);
    }
    false
}

proof fn lemma_strip_index_bound(len: int, n: int, k: int)
    requires
        0 <= k < strip_take(len, n),
    ensures
        0 <= strip_index(len, n, k) < len,
{
    let take = strip_take(len, n);
    if take != 1 {
        assert(k * (len - 1) / (take - 1) <= len - 1) by (nonlinear_arith)
            requires
                0 <= k <= take - 1,
                take - 1 > 0,
                len - 1 >= 0,
        {
            assert(k * (len - 1) <= (take - 1) * (len - 1));
        }
        assert(k * (len - 1) / (take - 1) >= 0) by (nonlinear_arith)
            requires
                0 <= k,
                take - 1 > 0,
                len - 1 >= 0,
        ;
    }
}

/// Frames spread evenly across the session's captures (not just the opening ones),
/// so the strip reads like a real contact sheet of what the session contains.
fn contact_strip(caps: &[ClipRec], lo: usize, hi: usize, n: usize) -> (strip: Vec<ClipRef>)
    requires
        lo <= hi <= caps@.len(),
    ensures
        is_strip(caps@.subrange(lo as int, hi as int), n as int, strip@),
{
    let ghost seg = caps@.subrange(lo as int, hi as int);
    let len = hi - lo;
    let take = if n < len { n } else { len };
    let mut strip: Vec<ClipRef> = Vec::new();
    let mut k: usize = 0;
    while k < take
        invariant
            take == strip_take(len as int, n as int),
            lo <= hi <= caps@.len(),
            len == hi - lo,
            seg == caps@.subrange(lo as int, hi as int),
            k <= take,
            strip.len() == k,
            forall|p: int|
                0 <= p < k ==> same_clip(
                    #[trigger] strip@[p],
                    seg[strip_index(len as int, n as int, p)].clip,
                ),
        decreases take - k,
    {
        proof {
            lemma_strip_index_bound(len as int, n as int, k as int);
        }
        let idx: usize = if take == 1 {
            0
        } else {
            let kk = k as u128;
            let span = (len - 1) as u128;
            assert(kk * span <= 0xffff_ffff_ffff_ffff_ffff_ffff_ffff_ffffu128) by (nonlinear_arith)
                requires
                    kk <= 0xffff_ffff_ffff_ffffu128,
                    span <= 0xffff_ffff_ffff_ffffu128,
            ;
            let q = kk * span / ((take - 1) as u128);
            assert(q == strip_index(len as int, n as int, k as int));
            q as usize
        };
        strip.push(copy_clip(&caps[lo + idx].clip));
        k = k + 1;
    }
    strip
}

/// Captures, **sorted by `at` ascending**, clustered by time: a gap strictly
/// greater than `gap` seconds between consecutive captures starts a new session.
/// Videos and photos cluster together, so a photo or panorama shot mid-session
/// rides along with it, and a run of photos with no video forms its own session.
pub fn cluster_sessions(caps: &[ClipRec], gap: i64) -> (out: Vec<Session>)
    requires
        byte_sum(caps@) <= u64::MAX,
    ensures
        out.len() == spans(caps@, gap, 0).len(),
        forall|k: int|
            0 <= k < out.len() ==> is_session(
                caps@,
                spans(caps@, gap, 0)[k].0,
                spans(caps@, gap, 0)[k].1,
                k,
                #[trigger] out@[k],
            ),
{
    let ghost all = spans(caps@, gap, 0);
    let ghost mut done: Seq<(int, int)> = Seq::empty();
    let mut out: Vec<Session> = Vec::new();
    let mut i: usize = 0;
    while i < caps.len()
        invariant
            i <= caps.len(),
            byte_sum(caps@) <= u64::MAX,
            all == spans(caps@, gap, 0),
            all == done + spans(caps@, gap, i as int),
            done.len() == out.len(),
            out.len() <= i,
            forall|k: int|
                0 <= k < out.len() ==> is_session(
                    caps@,
                    done[k].0,
                    done[k].1,
                    k,
                    #[trigger] out@[k],
                ),
        decreases caps.len() - i,
    {
        // The session that starts at `i` runs to `j`.
        let mut j = i;
        while j + 1 < caps.len() && (caps[j + 1].at as i128) - (caps[j].at as i128) <= gap as i128
            invariant
                i <= j < caps.len(),
                run_end(caps@, gap, i as int) == run_end(caps@, gap, j as int),
            decreases caps.len() - j,
        {
            j = j + 1;
        }
        let ghost seg = caps@.subrange(i as int, j + 1);

        // Owners, how many are already imported, how many are trash, how many photos.
        let mut owners: Vec<String> = Vec::new();
        let mut owned: usize = 0;
        let mut discarded: usize = 0;
        let mut photos: usize = 0;
        let mut bytes: u64 = 0;
        let mut t = i;
        while t <= j
            invariant
                i <= t <= j + 1,
                j < caps.len(),
                byte_sum(caps@) <= u64::MAX,
                photos == photo_count(caps@.subrange(i as int, t as int)),
                owned == owned_count(caps@.subrange(i as int, t as int)),
                discarded == discarded_count(caps@.subrange(i as int, t as int)),
                bytes == byte_sum(caps@.subrange(i as int, t as int)),
                names(owners@) == owners_list(caps@.subrange(i as int, t as int)),
            decreases j + 1 - t,
        {
            let ghost pre = caps@.subrange(i as int, t as int);
            let ghost next = caps@.subrange(i as int, t + 1);
            proof {
                assert(next.drop_last() =~= pre);
                assert(next.last() == caps@[t as int]);
                lemma_counts_bounded(pre);
                lemma_byte_sum_within(caps@, i as int, t + 1);
            }
            let r = &caps[t];
            if r.photo {
                photos = photos + 1;
            }
            if r.discarded {
                discarded = discarded + 1;
            } else {
                match &r.owner {
                    Some(o) => {
                        owned = owned + 1;
                        if !has_name(&owners, o) {
                            let ghost before = owners@;
                            owners.push(o.clone());
                            proof {
                                assert(names(owners@) =~= names(before).push(o@));
                            }
                        }
                    },
                    None => {},
                }
            }
            bytes = bytes + r.bytes;
            t = t + 1;
        }
        proof {
            lemma_counts_bounded(seg);
            lemma_run_end(caps@, gap, i as int);
        }
        let captures = j - i + 1;
        let strip = contact_strip(caps, i, j + 1, STRIP_MAX);
        let session = Session {
            index: out.len() + 1,
            start: caps[i].at,
            end: caps[j].at,
            captures,
            photos,
            bytes,
            owners,
            // Fully imported = every capture already owned (a discarded one, being
            // unowned, keeps a session out of "imported" until it's cleared).
            imported: owned == captures,
            // Discarded items are handled (thrown away), so they aren't "new".
            new_captures: captures - owned - discarded,
            discarded,
            strip,
            safe: false,  // filled in by the caller once trip share state is known
        };
        proof {
            assert(spans(caps@, gap, i as int) == seq![(i as int, j as int)] + spans(caps@, gap, j + 1));
            done = done.push((i as int, j as int));
        }
        out.push(session);
        i = j + 1;
        proof {
            assert(all =~= done + spans(caps@, gap, i as int));
        }
    }
    proof {
        assert(done =~= all);
    }
    out
}

} // verus!
