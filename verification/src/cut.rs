//! Cut a trip's marked ranges into `clips/`: the names the clips get, the
//! master each mark resolves to, and when a cut is refused. Each output is
//! `clips/<stem>_c<NN>[_<slug>].mp4`; an output that already exists is left alone,
//! so a cut is safe to re-run. Running ffmpeg is the caller's.
use crate::paths::{file_name, file_name_spec};
use crate::text::{chars_of, dec, push_str, str_eq, trim_char_range, trim_end_char, trim_start_char, u64_dec};
use vstd::prelude::*;

verus! {

/// An ASCII letter or digit.
pub open spec fn ascii_alnum(c: char) -> bool {
    ('0' <= c && c <= '9') || ('a' <= c && c <= 'z') || ('A' <= c && c <= 'Z')
}

/// A label with every run of other characters collapsed to one `-`, and whether
/// it ends in such a run.
pub open spec fn slug_raw(s: Seq<char>) -> (Seq<char>, bool)
    decreases s.len(),
{
    if s.len() == 0 {
        (Seq::empty(), false)
    } else {
        let (r, dash) = slug_raw(s.drop_last());
        let c = s.last();
        if ascii_alnum(c) {
            (r.push(c), false)
        } else if !dash {
            (r.push('-'), true)
        } else {
            (r, true)
        }
    }
}

/// A mark label as a file-name slug: runs of anything but ASCII letters and
/// digits become a single `-`, with the dashes at either end trimmed.
pub open spec fn slug_spec(label: Seq<char>) -> Seq<char> {
    trim_end_char(trim_start_char(slug_raw(label).0, '-'), '-')
}

pub fn slugify(label: &str) -> (s: String)
    ensures
        s@ == slug_spec(label@),
{
    let v = chars_of(label);
    let mut raw: Vec<char> = Vec::new();
    let mut dash = false;
    let mut i: usize = 0;
    while i < v.len()
        invariant
            i <= v@.len(),
            (raw@, dash) == slug_raw(v@.take(i as int)),
        decreases v@.len() - i,
    {
        proof {
            assert(v@.take(i + 1).drop_last() =~= v@.take(i as int));
        }
        let c = v[i];
        if ('0' <= c && c <= '9') || ('a' <= c && c <= 'z') || ('A' <= c && c <= 'Z') {
            raw.push(c);
            dash = false;
        } else if !dash {
            raw.push('-');
            dash = true;
        }
        i = i + 1;
    }
    proof {
        assert(v@.take(i as int) =~= v@);
        assert(raw@.subrange(0, raw@.len() as int) =~= raw@);
    }
    trim_char_range(raw.as_slice(), 0, raw.len(), '-', true, true)
}

/// `n` in decimal, zero-padded to at least two digits.
pub open spec fn two_digits(n: nat) -> Seq<char> {
    if n < 10 { seq!['0'] + dec(n) } else { dec(n) }
}

/// A cut clip's file name: `<stem>_c<NN>.mp4`, with `_<slug>` before the
/// extension when the mark's label slugs to something.
pub open spec fn clip_name_spec(stem: Seq<char>, n: nat, label: Seq<char>) -> Seq<char> {
    let slug = slug_spec(label);
    stem + "_c"@ + two_digits(n) + (if slug.len() == 0 { Seq::empty() } else { seq!['_'] + slug }) + ".mp4"@
}

pub fn clip_name(stem: &str, n: u64, label: &str) -> (s: String)
    ensures
        s@ == clip_name_spec(stem@, n as nat, label@),
{
    let slug = slugify(label);
    let mut s = stem.to_string();
    push_str(&mut s, "_c");
    if n < 10 {
        s.push('0');
    }
    push_str(&mut s, u64_dec(n).as_str());
    if slug.as_str().unicode_len() > 0 {
        s.push('_');
        push_str(&mut s, slug.as_str());
    }
    push_str(&mut s, ".mp4");
    proof {
        assert(s@ =~= clip_name_spec(stem@, n as nat, label@));
    }
    s
}

/// The master a mark resolves to: its stored path when that file exists, else
/// the one master in the trip with the same file name (a trip renamed after its
/// marks were written); none when there is no such master, or more than one.
pub open spec fn locate_spec(master: Seq<char>, exists_now: bool, masters: Seq<Seq<char>>) -> Option<Seq<char>> {
    if exists_now {
        Some(master)
    } else {
        let base = file_name_spec(master);
        let hits = masters.filter(|m: Seq<char>| file_name_spec(m) == base);
        if base.len() > 0 && hits.len() == 1 {
            Some(hits[0])
        } else {
            None
        }
    }
}

/// Resolve a mark's master; `exists_now` is whether its stored path is a file,
/// `masters` the trip's masters.
pub fn locate(master: &str, exists_now: bool, masters: &[String]) -> (r: Option<String>)
    ensures
        match r {
            Some(p) => locate_spec(master@, exists_now, crate::text::views(masters@)) == Some(p@),
            None => locate_spec(master@, exists_now, crate::text::views(masters@)) is None,
        },
{
    if exists_now {
        return Some(master.to_string());
    }
    let base = file_name(master);
    let ghost mv = crate::text::views(masters@);
    let ghost pred = |m: Seq<char>| file_name_spec(m) == base@;
    proof {
        reveal(Seq::filter);
        assert(mv.take(0).filter(pred).len() == 0);
    }
    let mut hit: Option<usize> = None;
    let mut count: usize = 0;
    let mut i: usize = 0;
    while i < masters.len()
        invariant
            i <= masters@.len(),
            mv == crate::text::views(masters@),
            pred == (|m: Seq<char>| file_name_spec(m) == base@),
            count == mv.take(i as int).filter(pred).len(),
            count <= i,
            count == 0 <==> hit is None,
            hit matches Some(h) ==> h < i && mv.take(i as int).filter(pred)[0] == mv[h as int],
        decreases masters@.len() - i,
    {
        let ghost f0 = mv.take(i as int).filter(pred);
        proof {
            reveal(Seq::filter);
            let s1 = mv.take(i + 1);
            assert(s1.drop_last() =~= mv.take(i as int));
            assert(s1.last() == mv[i as int]);
            assert(s1.filter(pred) == (if pred(mv[i as int]) { f0.push(mv[i as int]) } else { f0 }));
            assert(pred(mv[i as int]) == (file_name_spec(masters@[i as int]@) == base@));
            if f0.len() > 0 {
                assert(f0.push(mv[i as int])[0] == f0[0]);
            }
        }
        let name = file_name(masters[i].as_str());
        if str_eq(name.as_str(), base.as_str()) {
            if count == 0 {
                hit = Some(i);
            }
            count = count + 1;
        }
        i = i + 1;
    }
    proof {
        assert(mv.take(i as int) =~= mv);
        reveal(Seq::filter);
    }
    if base.as_str().unicode_len() > 0 && count == 1 {
        match hit {
            Some(h) => Some(masters[h].clone()),
            None => None,
        }
    } else {
        None
    }
}

/// Why a cut is refused, if it is: no trip by that name, or no marks to cut.
pub open spec fn cut_refusal(trip: Seq<char>, is_trip: bool, marks: nat) -> Option<Seq<char>> {
    if !is_trip {
        Some("no such trip: "@ + trip)
    } else if marks == 0 {
        Some("no marks to cut in '"@ + trip + "' — review it first"@)
    } else {
        None
    }
}

/// Check a cut of a (validly named) trip that holds `marks` marks.
pub fn cut_check(trip: &str, is_trip: bool, marks: usize) -> (r: Result<(), String>)
    ensures
        match r {
            Ok(()) => cut_refusal(trip@, is_trip, marks as nat) is None,
            Err(e) => cut_refusal(trip@, is_trip, marks as nat) == Some(e@),
        },
{
    if !is_trip {
        let mut e = "no such trip: ".to_string();
        push_str(&mut e, trip);
        return Err(e);
    }
    if marks == 0 {
        let mut e = "no marks to cut in '".to_string();
        push_str(&mut e, trip);
        push_str(&mut e, "' — review it first");
        return Err(e);
    }
    Ok(())
}

} // verus!

verus! {

proof fn lemma_slug_raw_chars(s: Seq<char>)
    ensures
        forall|i: int| 0 <= i < slug_raw(s).0.len() ==> ascii_alnum(#[trigger] slug_raw(s).0[i]) || slug_raw(s).0[i] == '-',
        slug_raw(s).1 <==> (slug_raw(s).0.len() > 0 && slug_raw(s).0.last() == '-'),
        forall|i: int| 0 <= i < slug_raw(s).0.len() - 1 ==> !(#[trigger] slug_raw(s).0[i] == '-' && slug_raw(s).0[i + 1] == '-'),
    decreases s.len(),
{
    if s.len() > 0 {
        lemma_slug_raw_chars(s.drop_last());
        let (r, d) = slug_raw(s.drop_last());
        assert forall|i: int| 0 <= i < slug_raw(s).0.len() - 1 implies !(#[trigger] slug_raw(s).0[i] == '-' && slug_raw(
            s,
        ).0[i + 1] == '-') by {
            if i < r.len() - 1 {
                assert(slug_raw(s).0[i] == r[i] && slug_raw(s).0[i + 1] == r[i + 1]);
            }
        }
    }
}

proof fn lemma_trim_start_suffix(s: Seq<char>, c: char)
    ensures
        exists|k: int| 0 <= k <= s.len() && trim_start_char(s, c) == s.skip(k),
        trim_start_char(s, c).len() > 0 ==> trim_start_char(s, c)[0] != c,
    decreases s.len(),
{
    if s.len() > 0 && s[0] == c {
        lemma_trim_start_suffix(s.drop_first(), c);
        let k = choose|k: int| 0 <= k <= s.drop_first().len() && trim_start_char(s.drop_first(), c) == s.drop_first().skip(k);
        assert(s.drop_first().skip(k) =~= s.skip(k + 1));
    } else {
        assert(s.skip(0) =~= s);
    }
}

proof fn lemma_trim_end_prefix(s: Seq<char>, c: char)
    ensures
        exists|k: int| 0 <= k <= s.len() && trim_end_char(s, c) == s.take(k),
        trim_end_char(s, c).len() > 0 ==> trim_end_char(s, c).last() != c,
    decreases s.len(),
{
    if s.len() > 0 && s.last() == c {
        lemma_trim_end_prefix(s.drop_last(), c);
        let k = choose|k: int| 0 <= k <= s.drop_last().len() && trim_end_char(s.drop_last(), c) == s.drop_last().take(k);
        assert(s.drop_last().take(k) =~= s.take(k));
    } else {
        assert(s.take(s.len() as int) =~= s);
    }
}

/// A slug is fit for a file name: only ASCII letters, digits and single dashes,
/// never a dash at either end.
pub proof fn lemma_slug_shape(label: Seq<char>)
    ensures
        ({
            let g = slug_spec(label);
            &&& forall|i: int| 0 <= i < g.len() ==> ascii_alnum(#[trigger] g[i]) || g[i] == '-'
            &&& forall|i: int| 0 <= i < g.len() - 1 ==> !(#[trigger] g[i] == '-' && g[i + 1] == '-')
            &&& g.len() > 0 ==> g[0] != '-' && g.last() != '-'
        }),
{
    let r = slug_raw(label).0;
    lemma_slug_raw_chars(label);
    let a = trim_start_char(r, '-');
    lemma_trim_start_suffix(r, '-');
    let k1 = choose|k: int| 0 <= k <= r.len() && a == r.skip(k);
    let g = trim_end_char(a, '-');
    lemma_trim_end_prefix(a, '-');
    let k2 = choose|k: int| 0 <= k <= a.len() && g == a.take(k);
    assert forall|i: int| 0 <= i < g.len() implies g[i] == r[k1 + i] by {}
    assert forall|i: int| 0 <= i < g.len() implies ascii_alnum(#[trigger] g[i]) || g[i] == '-' by {
        assert(g[i] == r[k1 + i]);
    }
    assert forall|i: int| 0 <= i < g.len() - 1 implies !(#[trigger] g[i] == '-' && g[i + 1] == '-') by {
        assert(g[i] == r[k1 + i] && g[i + 1] == r[k1 + i + 1]);
    }
    if g.len() > 0 {
        assert(g[0] == a[0]);
    }
}

/// What became of one mark when its trip was cut.
#[derive(Clone, Copy, PartialEq, Eq, Structural, Debug)]
pub enum CutOutcome {
    /// A new clip was written.
    Made,
    /// The clip was there already and was left alone.
    Skipped,
    /// The mark's master could not be found, or ffmpeg failed.
    Failed,
}

/// The fate of one mark: a mark whose master is not found fails; one whose clip
/// is there already is skipped (never cut again); else it is made when ffmpeg
/// wrote the clip, and failed when it did not.
pub fn cut_outcome(located: bool, clip_exists: bool, ffmpeg_ok: bool) -> (r: CutOutcome)
    ensures
        !located ==> r == CutOutcome::Failed,
        located && clip_exists ==> r == CutOutcome::Skipped,
        located && !clip_exists ==> r == (if ffmpeg_ok { CutOutcome::Made } else { CutOutcome::Failed }),
{
    if !located {
        CutOutcome::Failed
    } else if clip_exists {
        CutOutcome::Skipped
    } else if ffmpeg_ok {
        CutOutcome::Made
    } else {
        CutOutcome::Failed
    }
}

/// How many of the outcomes are `o`.
pub open spec fn outcome_count(os: Seq<CutOutcome>, o: CutOutcome) -> nat
    decreases os.len(),
{
    if os.len() == 0 {
        0
    } else {
        outcome_count(os.drop_last(), o) + if os.last() == o { 1nat } else { 0nat }
    }
}

/// Every mark is counted once: made, skipped and failed add up to the marks.
pub proof fn lemma_counts_cover(os: Seq<CutOutcome>)
    ensures
        outcome_count(os, CutOutcome::Made) + outcome_count(os, CutOutcome::Skipped) + outcome_count(
            os,
            CutOutcome::Failed,
        ) == os.len(),
    decreases os.len(),
{
    if os.len() > 0 {
        lemma_counts_cover(os.drop_last());
    }
}

/// Cutting a trip again when every clip is already there makes nothing: every
/// mark is skipped, and none fails.
pub proof fn lemma_recut_makes_nothing(os: Seq<CutOutcome>)
    requires
        forall|i: int| 0 <= i < os.len() ==> #[trigger] os[i] == CutOutcome::Skipped,
    ensures
        outcome_count(os, CutOutcome::Made) == 0,
        outcome_count(os, CutOutcome::Failed) == 0,
        outcome_count(os, CutOutcome::Skipped) == os.len(),
    decreases os.len(),
{
    if os.len() > 0 {
        lemma_recut_makes_nothing(os.drop_last());
    }
}

/// The counts of a cut, from what became of each mark: (made, skipped, failed).
pub fn cut_counts(outcomes: &[CutOutcome]) -> (r: (usize, usize, usize))
    ensures
        r.0 == outcome_count(outcomes@, CutOutcome::Made),
        r.1 == outcome_count(outcomes@, CutOutcome::Skipped),
        r.2 == outcome_count(outcomes@, CutOutcome::Failed),
        r.0 + r.1 + r.2 == outcomes@.len(),
{
    let (mut made, mut skipped, mut failed) = (0usize, 0usize, 0usize);
    let mut i: usize = 0;
    while i < outcomes.len()
        invariant
            i <= outcomes@.len(),
            made == outcome_count(outcomes@.take(i as int), CutOutcome::Made),
            skipped == outcome_count(outcomes@.take(i as int), CutOutcome::Skipped),
            failed == outcome_count(outcomes@.take(i as int), CutOutcome::Failed),
            made + skipped + failed == i,
        decreases outcomes@.len() - i,
    {
        proof {
            assert(outcomes@.take(i + 1).drop_last() =~= outcomes@.take(i as int));
        }
        match outcomes[i] {
            CutOutcome::Made => made = made + 1,
            CutOutcome::Skipped => skipped = skipped + 1,
            CutOutcome::Failed => failed = failed + 1,
        }
        i = i + 1;
    }
    proof {
        assert(outcomes@.take(i as int) =~= outcomes@);
    }
    (made, skipped, failed)
}

} // verus!
