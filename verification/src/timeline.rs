//! Hand a trip's marks to Kdenlive as one editable timeline: the project profile
//! (majority format, exact stock-profile match, conforming a rate Kdenlive would
//! refuse), the segments the marks become, the escaping the MLT XML needs, and the
//! stable ids that keep a rebuilt project byte-identical.
use crate::digest::{hex_encode, hex_of, sha1_digest, sha1_of};
use crate::paths::{file_name, file_name_spec};
use crate::text::{
    chars_of, dec, dec_i, first_at, i64_dec, lex_lt, lex_order, lines_of, lines_spec, parse_u64,
    push_str, slice_string, str_eq, trim, trim_range, u64_dec, uint_text,
};
use crate::text::{lemma_lex_irreflexive, lemma_lex_total, lemma_lex_transitive};
use vstd::prelude::*;
use vstd::string::StringSliceAdditionalSpecFns;

verus! {

/// The video format a timeline is built in. One project has one profile, so a trip
/// mixing formats (real ones do — 4K DJI at 23.976 alongside a 30 fps phone clip)
/// conforms everything to the majority.
#[derive(Clone, Copy, Debug, PartialEq, Eq, Structural)]
pub struct Profile {
    pub width: u32,
    pub height: u32,
    pub fps_num: u32,
    pub fps_den: u32,
    pub sar_num: u32,
    pub sar_den: u32,
}

pub open spec fn default_profile() -> Profile {
    Profile { width: 1920, height: 1080, fps_num: 30, fps_den: 1, sar_num: 1, sar_den: 1 }
}

impl Default for Profile {
    /// 1080p30 — only reached when nothing could be probed, in which case the
    /// timeline is empty anyway and the profile is cosmetic.
    fn default() -> (p: Profile)
        ensures
            p == default_profile(),
    {
        Profile { width: 1920, height: 1080, fps_num: 30, fps_den: 1, sar_num: 1, sar_den: 1 }
    }
}

/// Greatest common divisor, `max(a, 1)` when `b` is zero.
pub open spec fn gcd_spec(a: nat, b: nat) -> nat
    decreases b,
{
    if b == 0 {
        if a == 0 { 1 } else { a }
    } else {
        gcd_spec(b, a % b)
    }
}

fn gcd(a: u64, b: u64) -> (g: u64)
    ensures
        g == gcd_spec(a as nat, b as nat),
    decreases b,
{
    if b == 0 {
        if a == 0 { 1 } else { a }
    } else {
        gcd(b, a % b)
    }
}

pub open spec fn at_least_one(x: u32) -> nat {
    if x == 0 { 1 } else { x as nat }
}

/// The display aspect of a profile, reduced: pixel width times the sample
/// aspect's numerator over pixel height times its denominator.
pub open spec fn dar_spec(p: Profile) -> (nat, nat) {
    let w: nat = (p.width * at_least_one(p.sar_num)) as nat;
    let h: nat = (p.height * at_least_one(p.sar_den)) as nat;
    let g = gcd_spec(w, h);
    (w / g, h / g)
}

proof fn lemma_gcd_positive(a: nat, b: nat)
    ensures
        gcd_spec(a, b) >= 1,
    decreases b,
{
    if b != 0 {
        lemma_gcd_positive(b, a % b);
    }
}

/// A rate's value rounded to the nearest integer, halves away from zero.
pub open spec fn round_ratio(n: nat, d: nat) -> nat {
    (2 * n + d) / (2 * d)
}

/// How a rate reads: a whole number when it is within a thousandth of one, else
/// rounded to two decimals (halves up). A zero denominator reads as 30.
pub open spec fn rate_text(n: nat, d: nat) -> Seq<char> {
    if d == 0 {
        dec(30)
    } else {
        let k = round_ratio(n, d);
        let diff = if n >= k * d { n - k * d } else { k * d - n };
        if 1000 * diff <= d {
            dec(k)
        } else {
            let c = (200 * n + d) / (2 * d);
            dec(c / 100) + seq!['.'] + dec((c % 100) / 10) + dec(c % 10)
        }
    }
}

impl Profile {
    /// Display aspect, reduced. Computed from the real pixel dimensions rather than
    /// assumed 16:9 — the library has 1080x1920 portrait drone footage in it, which
    /// a hardcoded 16:9 would letterbox into a sliver.
    pub fn dar(&self) -> (r: (u64, u64))
        ensures
            r.0 == dar_spec(*self).0,
            r.1 == dar_spec(*self).1,
    {
        let sn: u64 = if self.sar_num == 0 { 1 } else { self.sar_num as u64 };
        let sd: u64 = if self.sar_den == 0 { 1 } else { self.sar_den as u64 };
        assert(self.width * sn <= u64::MAX) by (nonlinear_arith)
            requires
                self.width <= u32::MAX,
                sn <= u32::MAX,
        ;
        assert(self.height * sd <= u64::MAX) by (nonlinear_arith)
            requires
                self.height <= u32::MAX,
                sd <= u32::MAX,
        ;
        let w = self.width as u64 * sn;
        let h = self.height as u64 * sd;
        let g = gcd(w, h);
        proof {
            lemma_gcd_positive(w as nat, h as nat);
        }
        (w / g, h / g)
    }

    /// Short human description for the toast and the `<profile description=…>`:
    /// `3840×2160 · 23.98 fps`.
    pub fn describe(&self) -> (s: String)
        ensures
            s@ == dec(self.width as nat) + seq!['×'] + dec(self.height as nat) + " · "@ + rate_text(
                self.fps_num as nat,
                self.fps_den as nat,
            ) + " fps"@,
    {
        let mut s = u64_dec(self.width as u64);
        s.push('×');
        push_str(&mut s, u64_dec(self.height as u64).as_str());
        push_str(&mut s, " · ");
        push_str(&mut s, rate(self.fps_num as u64, self.fps_den as u64).as_str());
        push_str(&mut s, " fps");
        s
    }
}

fn rate(n: u64, d: u64) -> (s: String)
    requires
        n <= u32::MAX,
        d <= u32::MAX,
    ensures
        s@ == rate_text(n as nat, d as nat),
{
    if d == 0 {
        return u64_dec(30);
    }
    let k = (2 * n + d) / (2 * d);
    assert(k * d <= 2 * n + d) by (nonlinear_arith)
        requires
            k == (2 * n + d) / (2 * d),
            d > 0,
    {
        assert(k * (2 * d) <= 2 * n + d);
    }
    let kd = k * d;
    let diff = if n >= kd { n - kd } else { kd - n };
    if 1000 * diff <= d {
        u64_dec(k)
    } else {
        let c = (200 * n + d) / (2 * d);
        let mut s = u64_dec(c / 100);
        s.push('.');
        push_str(&mut s, u64_dec((c % 100) / 10).as_str());
        push_str(&mut s, u64_dec(c % 10).as_str());
        s
    }
}

/// How often `p` occurs among `ps`.
pub open spec fn occurrences(ps: Seq<Profile>, p: Profile) -> nat
    decreases ps.len(),
{
    if ps.len() == 0 {
        0
    } else {
        occurrences(ps.drop_last(), p) + if ps.last() == p { 1nat } else { 0nat }
    }
}

/// Where `p` first occurs among `ps` (`ps.len()` when it does not).
pub open spec fn first_index(ps: Seq<Profile>, p: Profile) -> int
    decreases ps.len(),
{
    if ps.len() == 0 {
        0
    } else if ps[0] == p {
        0
    } else {
        1 + first_index(ps.drop_first(), p)
    }
}

/// `r` is the majority profile of `ps`: it occurs at least as often as any other,
/// and of those that occur as often it comes first; the default when `ps` is empty.
pub open spec fn is_majority(ps: Seq<Profile>, r: Profile) -> bool {
    if ps.len() == 0 {
        r == default_profile()
    } else {
        &&& ps.contains(r)
        &&& forall|i: int| 0 <= i < ps.len() ==> occurrences(ps, #[trigger] ps[i]) <= occurrences(ps, r)
        &&& forall|i: int|
            0 <= i < ps.len() && occurrences(ps, #[trigger] ps[i]) == occurrences(ps, r) ==> first_index(ps, r)
                <= first_index(ps, ps[i])
    }
}

proof fn lemma_occurrences_push(ps: Seq<Profile>, x: Profile, p: Profile)
    ensures
        occurrences(ps.push(x), p) == occurrences(ps, p) + if x == p { 1nat } else { 0nat },
{
    assert(ps.push(x).drop_last() =~= ps);
}

proof fn lemma_first_index(ps: Seq<Profile>, p: Profile, i: int)
    requires
        0 <= i <= ps.len(),
        forall|j: int| 0 <= j < i ==> ps[j] != p,
        i == ps.len() || ps[i] == p,
    ensures
        first_index(ps, p) == i,
    decreases ps.len(),
{
    if ps.len() > 0 && i > 0 {
        lemma_first_index(ps.drop_first(), p, i - 1);
    }
}

proof fn lemma_first_index_bounds(ps: Seq<Profile>, p: Profile)
    ensures
        0 <= first_index(ps, p) <= ps.len(),
        forall|j: int| 0 <= j < first_index(ps, p) ==> ps[j] != p,
        first_index(ps, p) < ps.len() ==> ps[first_index(ps, p)] == p,
    decreases ps.len(),
{
    if ps.len() > 0 && ps[0] != p {
        lemma_first_index_bounds(ps.drop_first(), p);
        assert forall|j: int| 0 <= j < first_index(ps, p) implies ps[j] != p by {
            if j > 0 {
                assert(ps[j] == ps.drop_first()[j - 1]);
            }
        }
    }
}

/// Pick the project profile: the format most of the marked footage is already in.
/// Ties break toward the first master in timeline order, so a 50/50 trip is at
/// least predictable.
pub fn choose_profile(profiles: &[Profile]) -> (r: Profile)
    ensures
        is_majority(profiles@, r),
{
    let ps = profiles;
    let n = ps.len();
    if n == 0 {
        return Profile::default();
    }
    // Distinct profiles in order of first appearance, with their counts so far.
    let mut kinds: Vec<Profile> = Vec::new();
    let mut counts: Vec<usize> = Vec::new();
    let mut i: usize = 0;
    while i < n
        invariant
            n == ps@.len(),
            i <= n,
            kinds@.len() == counts@.len(),
            forall|a: int, b: int| 0 <= a < b < kinds@.len() ==> kinds@[a] != kinds@[b],
            forall|a: int| 0 <= a < kinds@.len() ==> counts@[a] == occurrences(ps@.take(i as int), #[trigger] kinds@[a]),
            forall|a: int| 0 <= a < kinds@.len() ==> first_index(ps@, #[trigger] kinds@[a]) < i,
            forall|a: int, b: int| 0 <= a < b < kinds@.len() ==> first_index(ps@, kinds@[a]) < first_index(ps@, kinds@[b]),
            forall|j: int| 0 <= j < i ==> kinds@.contains(#[trigger] ps@[j]),
            forall|a: int| 0 <= a < kinds@.len() ==> counts@[a] <= i,
        decreases n - i,
    {
        let p = ps[i];
        let ghost pre = ps@.take(i as int);
        proof {
            assert(ps@.take(i + 1) =~= pre.push(p));
        }
        let mut k: usize = 0;
        while k < kinds.len() && kinds[k] != p
            invariant
                k <= kinds@.len(),
                forall|a: int| 0 <= a < k ==> kinds@[a] != p,
            decreases kinds@.len() - k,
        {
            k = k + 1;
        }
        let ghost ok = kinds@;
        let ghost oc = counts@;
        if k < kinds.len() {
            let c = counts[k];
            counts.set(k, c + 1);
            proof {
                assert(kinds@[k as int] == p);
            }
        } else {
            proof {
                assert(!ok.contains(p));
                assert forall|j: int| 0 <= j < i implies ps@[j] != p by {
                    assert(ok.contains(ps@[j]));
                }
                assert(!pre.contains(p)) by {
                    if pre.contains(p) {
                        let j = choose|j: int| 0 <= j < pre.len() && pre[j] == p;
                        assert(ps@[j] == p);
                    }
                }
                lemma_occurrences_absent(pre, p);
                lemma_first_index(ps@, p, i as int);
            }
            kinds.push(p);
            counts.push(1);
            proof {
                assert(kinds@ == ok.push(p));
                assert(kinds@[k as int] == p);
            }
        }
        proof {
            assert forall|a: int| 0 <= a < kinds@.len() implies counts@[a] == occurrences(
                ps@.take(i + 1),
                #[trigger] kinds@[a],
            ) by {
                lemma_occurrences_push(pre, p, kinds@[a]);
                if a != k {
                    assert(kinds@[a] == ok[a]);
                    assert(kinds@[a] != p);
                }
            }
            assert forall|j: int| 0 <= j < i + 1 implies kinds@.contains(#[trigger] ps@[j]) by {
                if j == i {
                    assert(kinds@[k as int] == ps@[j]);
                } else {
                    assert(ok.contains(ps@[j]));
                    let a = choose|a: int| 0 <= a < ok.len() && ok[a] == ps@[j];
                    assert(kinds@[a] == ps@[j]);
                }
            }
        }
        i = i + 1;
    }
    proof {
        assert(ps@.take(n as int) =~= ps@);
        assert(kinds@.contains(ps@[0]));
    }
    // The first kind with the highest count.
    let mut best: usize = 0;
    let mut j: usize = 1;
    while j < kinds.len()
        invariant
            kinds@.len() == counts@.len(),
            kinds@.len() >= 1,
            best < j <= kinds@.len(),
            forall|a: int| 0 <= a < j ==> counts@[a] <= counts@[best as int],
            forall|a: int| 0 <= a < best ==> counts@[a] < counts@[best as int],
        decreases kinds@.len() - j,
    {
        if counts[j] > counts[best] {
            best = j;
        }
        j = j + 1;
    }
    let r = kinds[best];
    proof {
        assert(kinds@.len() >= 1) by {
            assert(kinds@.contains(ps@[0]));
        }
        assert(ps@.contains(r)) by {
            lemma_first_index_bounds(ps@, r);
        }
        assert forall|x: int| 0 <= x < ps@.len() implies occurrences(ps@, #[trigger] ps@[x]) <= occurrences(ps@, r) by {
            assert(kinds@.contains(ps@[x]));
        }
        assert forall|x: int|
            0 <= x < ps@.len() && occurrences(ps@, #[trigger] ps@[x]) == occurrences(ps@, r) implies first_index(ps@, r)
                <= first_index(ps@, ps@[x]) by {
            assert(kinds@.contains(ps@[x]));
            let a = choose|a: int| 0 <= a < kinds@.len() && kinds@[a] == ps@[x];
            if a < best {
                assert(counts@[a] < counts@[best as int]);
            }
        }
    }
    r
}

proof fn lemma_occurrences_absent(ps: Seq<Profile>, p: Profile)
    requires
        !ps.contains(p),
    ensures
        occurrences(ps, p) == 0,
    decreases ps.len(),
{
    if ps.len() > 0 {
        assert(!ps.drop_last().contains(p)) by {
            if ps.drop_last().contains(p) {
                let k = choose|k: int| 0 <= k < ps.drop_last().len() && ps.drop_last()[k] == p;
                assert(ps[k] == p);
            }
        }
        lemma_occurrences_absent(ps.drop_last(), p);
        assert(ps.last() != p) by {
            if ps.last() == p {
                assert(ps[ps.len() - 1] == p);
            }
        }
    }
}

/// The name `match_profile` picks: the least (in `String` order) of the
/// candidates' names whose profile is exactly `want`.
pub open spec fn is_least_match(cands: Seq<(String, Profile)>, want: Profile, name: Seq<char>) -> bool {
    &&& exists|i: int| 0 <= i < cands.len() && cands[i].1 == want && (#[trigger] cands[i]).0@ == name
    &&& forall|i: int| 0 <= i < cands.len() && (#[trigger] cands[i]).1 == want ==> !lex_lt(cands[i].0@, name)
}

/// Match a profile against a set of `(name, profile)` candidates, exactly. Pure, so
/// the matching rule is testable without depending on which MLT build is installed.
/// Ties break on name so the choice is deterministic.
pub fn match_profile(candidates: &[(String, Profile)], want: &Profile) -> (r: Option<String>)
    ensures
        match r {
            Some(n) => is_least_match(candidates@, *want, n@),
            None => forall|i: int| 0 <= i < candidates@.len() ==> (#[trigger] candidates@[i]).1 != *want,
        },
{
    let mut best: Option<usize> = None;
    let mut i: usize = 0;
    while i < candidates.len()
        invariant
            i <= candidates@.len(),
            match best {
                Some(b) => b < i && candidates@[b as int].1 == *want && forall|j: int|
                    0 <= j < i && (#[trigger] candidates@[j]).1 == *want ==> !lex_lt(
                        candidates@[j].0@,
                        candidates@[b as int].0@,
                    ),
                None => forall|j: int| 0 <= j < i ==> (#[trigger] candidates@[j]).1 != *want,
            },
        decreases candidates@.len() - i,
    {
        if candidates[i].1 == *want {
            match best {
                Some(b) => {
                    let x = chars_of(candidates[i].0.as_str());
                    let y = chars_of(candidates[b].0.as_str());
                    if lex_order(x.as_slice(), y.as_slice()) < 0 {
                        proof {
                            assert forall|j: int|
                                0 <= j < i + 1 && (#[trigger] candidates@[j]).1 == *want implies !lex_lt(
                                candidates@[j].0@,
                                candidates@[i as int].0@,
                            ) by {
                                if j < i {
                                    if lex_lt(candidates@[j].0@, candidates@[i as int].0@) {
                                        lemma_lex_transitive(
                                            candidates@[j].0@,
                                            candidates@[i as int].0@,
                                            candidates@[b as int].0@,
                                        );
                                    }
                                } else {
                                    lemma_lex_irreflexive(candidates@[i as int].0@);
                                }
                            }
                        }
                        best = Some(i);
                    }
                },
                None => {
                    proof {
                        lemma_lex_irreflexive(candidates@[i as int].0@);
                    }
                    best = Some(i);
                },
            }
        }
        i = i + 1;
    }
    match best {
        Some(b) => Some(candidates[b].0.clone()),
        None => None,
    }
}

} // verus!

verus! {

/// A number as `str::parse::<u32>` reads it.
pub open spec fn u32_text(s: Seq<char>) -> Option<u32> {
    match uint_text(s) {
        Some(v) => if v <= u32::MAX { Some(v as u32) } else { None },
        None => None,
    }
}

fn parse_u32(s: &str) -> (r: Option<u32>)
    ensures
        r == u32_text(s@),
{
    match parse_u64(s) {
        Some(v) => if v <= u32::MAX as u64 { Some(v as u32) } else { None },
        None => None,
    }
}

/// A ratio `n/d` (or `n:d`) of two positive numbers, as ffprobe and MLT write
/// rates and aspects; cut at the first `/`, else at the first `:`.
pub open spec fn ratio_spec(s: Seq<char>) -> Option<(u32, u32)> {
    let i = crate::text::idx_of(s, '/');
    let cut = if i < s.len() { i } else { crate::text::idx_of(s, ':') };
    if cut >= s.len() {
        None
    } else {
        match (u32_text(trim(s.take(cut))), u32_text(trim(s.skip(cut + 1)))) {
            (Some(n), Some(d)) => if n > 0 && d > 0 { Some((n, d)) } else { None },
            _ => None,
        }
    }
}

pub fn parse_ratio(s: &str) -> (r: Option<(u32, u32)>)
    ensures
        r == ratio_spec(s@),
{
    let v = chars_of(s);
    let n = v.len();
    let i = crate::text::find_char(v.as_slice(), '/');
    let cut = if i < n { i } else { crate::text::find_char(v.as_slice(), ':') };
    if cut >= n {
        return None;
    }
    let a = trim_range(v.as_slice(), 0, cut);
    let b = trim_range(v.as_slice(), cut + 1, n);
    proof {
        assert(v@.subrange(0, cut as int) =~= s@.take(cut as int));
        assert(v@.subrange(cut + 1, n as int) =~= s@.skip(cut + 1));
    }
    match (parse_u32(a.as_str()), parse_u32(b.as_str())) {
        (Some(x), Some(y)) => if x > 0 && y > 0 { Some((x, y)) } else { None },
        _ => None,
    }
}

/// The text after `key=` on the first line that starts with it.
pub open spec fn key_value(lines: Seq<Seq<char>>, key: Seq<char>) -> Option<Seq<char>>
    decreases lines.len(),
{
    if lines.len() == 0 {
        None
    } else if crate::text::has_prefix(lines[0], key + seq!['=']) {
        Some(lines[0].skip(key.len() as int + 1))
    } else {
        key_value(lines.drop_first(), key)
    }
}

pub open spec fn key_u32(lines: Seq<Seq<char>>, key: Seq<char>) -> Option<u32> {
    match key_value(lines, key) {
        Some(v) => u32_text(trim(v)),
        None => None,
    }
}

/// The profile an MLT profile file (`key=value` lines) describes: width, height
/// and frame rate must be there; the sample aspect defaults to square.
pub open spec fn profile_file_spec(text: Seq<char>) -> Option<Profile> {
    let ls = lines_spec(text);
    match (
        key_u32(ls, "width"@),
        key_u32(ls, "height"@),
        key_u32(ls, "frame_rate_num"@),
        key_u32(ls, "frame_rate_den"@),
    ) {
        (Some(w), Some(h), Some(n), Some(d)) => Some(
            Profile {
                width: w,
                height: h,
                fps_num: n,
                fps_den: d,
                sar_num: match key_u32(ls, "sample_aspect_num"@) {
                    Some(x) => x,
                    None => 1,
                },
                sar_den: match key_u32(ls, "sample_aspect_den"@) {
                    Some(x) => x,
                    None => 1,
                },
            },
        ),
        _ => None,
    }
}

fn key_u32_of(lines: &Vec<String>, key: &str) -> (r: Option<u32>)
    ensures
        r == key_u32(lines@.map_values(|l: String| l@), key@),
{
    let ghost ls = lines@.map_values(|l: String| l@);
    let mut pre = String::new();
    push_str(&mut pre, key);
    pre.push('=');
    let mut i: usize = 0;
    proof {
        assert(ls.skip(0) =~= ls);
    }
    while i < lines.len()
        invariant
            i <= lines@.len(),
            ls == lines@.map_values(|l: String| l@),
            pre@ == key@ + seq!['='],
            key_value(ls, key@) == key_value(ls.skip(i as int), key@),
        decreases lines@.len() - i,
    {
        let lc = chars_of(lines[i].as_str());
        proof {
            assert(ls.skip(i as int)[0] == lines@[i as int]@);
            assert(ls.skip(i as int).drop_first() =~= ls.skip(i + 1));
        }
        if crate::text::starts_with(lc.as_slice(), pre.as_str()) {
            let n = lc.len();
            let k = pre.as_str().unicode_len();
            let v = trim_range(lc.as_slice(), k, n);
            proof {
                assert(lc@.subrange(k as int, n as int) =~= lc@.skip(key@.len() as int + 1));
            }
            return parse_u32(v.as_str());
        }
        i = i + 1;
    }
    proof {
        assert(ls.skip(i as int) =~= Seq::<Seq<char>>::empty());
    }
    None
}

/// Parse an MLT profile file (`key=value` lines, as in `/usr/share/mlt-7/profiles`).
pub fn parse_profile_file(text: &str) -> (r: Option<Profile>)
    ensures
        r == profile_file_spec(text@),
{
    let v = chars_of(text);
    let lines = lines_of(v.as_slice());
    let ghost ls = lines_spec(text@);
    proof {
        assert(lines@.map_values(|l: String| l@) =~= ls);
    }
    let w = key_u32_of(&lines, "width");
    let h = key_u32_of(&lines, "height");
    let n = key_u32_of(&lines, "frame_rate_num");
    let d = key_u32_of(&lines, "frame_rate_den");
    let sn = key_u32_of(&lines, "sample_aspect_num");
    let sd = key_u32_of(&lines, "sample_aspect_den");
    match (w, h, n, d) {
        (Some(w), Some(h), Some(n), Some(d)) => Some(
            Profile {
                width: w,
                height: h,
                fps_num: n,
                fps_den: d,
                sar_num: match sn {
                    Some(x) => x,
                    None => 1,
                },
                sar_den: match sd {
                    Some(x) => x,
                    None => 1,
                },
            },
        ),
        _ => None,
    }
}

pub open spec fn has_match(cands: Seq<(String, Profile)>, want: Profile) -> bool {
    exists|i: int| 0 <= i < cands.len() && (#[trigger] cands[i]).1 == want
}

/// `r` is what the stock-profile lookup gives over `dirs` (searched in order):
/// the least exactly-matching name of the first directory that has a match, or
/// `None` when none has.
pub open spec fn stock_result(dirs: Seq<Vec<(String, Profile)>>, want: Profile, r: Option<Seq<char>>) -> bool {
    match r {
        Some(n) => exists|k: int|
            0 <= k < dirs.len() && is_least_match((#[trigger] dirs[k])@, want, n) && forall|j: int|
                0 <= j < k ==> !has_match(dirs[j]@, want),
        None => forall|k: int| 0 <= k < dirs.len() ==> !has_match((#[trigger] dirs[k])@, want),
    }
}

/// The name of the stock MLT profile matching `want`, if there is one, given
/// the profile directories' `(file name, profile)` entries in search order.
///
/// This is not cosmetic. `kdenlive:docproperties.profile` *is* the project profile:
/// point it at a name Kdenlive can't resolve and it blocks on a modal at load;
/// leave it out and Kdenlive silently falls back to its own default (PAL 720x576).
/// Only a real name does the right thing, so it's looked up rather than invented.
pub fn stock_profile_name(dirs: &[Vec<(String, Profile)>], want: &Profile) -> (r: Option<String>)
    ensures
        stock_result(dirs@, *want, match r {
            Some(n) => Some(n@),
            None => None,
        }),
{
    let mut k: usize = 0;
    while k < dirs.len()
        invariant
            k <= dirs@.len(),
            forall|j: int| 0 <= j < k ==> !has_match((#[trigger] dirs@[j])@, *want),
        decreases dirs@.len() - k,
    {
        match match_profile(dirs[k].as_slice(), want) {
            Some(n) => {
                proof {
                    assert(is_least_match(dirs@[k as int]@, *want, n@));
                }
                return Some(n);
            },
            None => {},
        }
        k = k + 1;
    }
    None
}

/// A profile with its rate rounded to the nearest whole number (at least 1).
pub open spec fn rounded_rate(p: Profile) -> Profile {
    let k = round_ratio(p.fps_num as nat, p.fps_den as nat);
    Profile { fps_num: if k == 0 { 1 } else { k as u32 }, fps_den: 1, ..p }
}

/// Bring a project profile to something Kdenlive will open without arguing.
///
/// Kdenlive refuses **fractional frame rates on non-standard geometry** with a modal
/// on every open, and no custom profile avoids it. So when nothing standard
/// matches, the rate is rounded to the nearest integer — 23.976 becomes 24, a 0.1%
/// difference, under one frame across a 30 s timeline. Footage that does match a
/// stock profile is left exactly alone. Returns the profile, its stock name if
/// any, and whether the rate was changed.
pub fn conform(profile: &Profile, dirs: &[Vec<(String, Profile)>]) -> (r: (Profile, Option<String>, bool))
    ensures
        ({
            let id = match r.1 {
                Some(n) => Some(n@),
                None => None,
            };
            if has_stock(dirs@, *profile) {
                r.0 == *profile && stock_result(dirs@, *profile, id) && id is Some && !r.2
            } else if profile.fps_den <= 1 {
                r.0 == *profile && id is None && !r.2
            } else {
                r.0 == rounded_rate(*profile) && stock_result(dirs@, r.0, id) && r.2
            }
        }),
{
    match stock_profile_name(dirs, profile) {
        Some(id) => {
            proof {
                let k = choose|k: int|
                    0 <= k < dirs@.len() && is_least_match((#[trigger] dirs@[k])@, *profile, id@) && forall|j: int|
                        0 <= j < k ==> !has_match(dirs@[j]@, *profile);
                let i = choose|i: int|
                    0 <= i < dirs@[k]@.len() && dirs@[k]@[i].1 == *profile && (#[trigger] dirs@[k]@[i]).0@ == id@;
                assert(has_match(dirs@[k]@, *profile));
            }
            return (*profile, Some(id), false);
        },
        None => {},
    }
    if profile.fps_den <= 1 {
        // Already an integer rate — Kdenlive builds its own profile silently.
        return (*profile, None, false);
    }
    let n = profile.fps_num as u64;
    let d = profile.fps_den as u64;
    let k = (2 * n + d) / (2 * d);
    assert(k <= n) by (nonlinear_arith)
        requires
            k == (2 * n + d) / (2 * d),
            d >= 2,
    {
        assert(k * (2 * d) <= 2 * n + d);
        assert(2 * n + d < (n + 1) * (2 * d));
    }
    let rounded = Profile { fps_num: if k == 0 { 1 } else { k as u32 }, fps_den: 1, ..*profile };
    // The rounded rate may itself land on a stock profile; take it if so.
    let id = stock_profile_name(dirs, &rounded);
    (rounded, id, true)
}

/// Some directory has a stock profile exactly matching `want`.
pub open spec fn has_stock(dirs: Seq<Vec<(String, Profile)>>, want: Profile) -> bool {
    exists|k: int| 0 <= k < dirs.len() && has_match((#[trigger] dirs[k])@, want)
}

} // verus!

verus! {

/// How one character is written in XML attribute or text content: the five
/// markup characters as entities, the control characters XML 1.0 forbids as a
/// space (tab and line breaks kept), everything else as itself.
pub open spec fn xml_char(c: char) -> Seq<char> {
    if c == '&' {
        "&amp;"@
    } else if c == '<' {
        "&lt;"@
    } else if c == '>' {
        "&gt;"@
    } else if c == '"' {
        "&quot;"@
    } else if c == '\'' {
        "&apos;"@
    } else if (c as u32) < 0x20 && c != '\t' && c != '\n' && c != '\r' {
        seq![' ']
    } else {
        seq![c]
    }
}

pub open spec fn xml_escaped(s: Seq<char>) -> Seq<char>
    decreases s.len(),
{
    if s.len() == 0 {
        Seq::empty()
    } else {
        xml_escaped(s.drop_last()) + xml_char(s.last())
    }
}

/// XML attribute/text escaping. Labels are user text and masters really do have
/// spaces and ampersands in them (`26-06-20 14-36-45 4297.mov`), so this is not
/// theoretical.
pub fn xml_escape(s: &str) -> (r: String)
    ensures
        r@ == xml_escaped(s@),
{
    let v = chars_of(s);
    let mut out = String::new();
    let mut i: usize = 0;
    while i < v.len()
        invariant
            i <= v@.len(),
            v@ == s@,
            out@ == xml_escaped(v@.take(i as int)),
        decreases v@.len() - i,
    {
        let c = v[i];
        proof {
            assert(v@.take(i + 1).drop_last() =~= v@.take(i as int));
            assert(v@.take(i + 1).last() == c);
        }
        let ghost before = out@;
        if c == '&' {
            push_str(&mut out, "&amp;");
        } else if c == '<' {
            push_str(&mut out, "&lt;");
        } else if c == '>' {
            push_str(&mut out, "&gt;");
        } else if c == '"' {
            push_str(&mut out, "&quot;");
        } else if c == '\'' {
            push_str(&mut out, "&apos;");
        } else if (c as u32) < 0x20 && c != '\t' && c != '\n' && c != '\r' {
            // XML 1.0 forbids these outright; a stray control byte in a label would
            // otherwise produce a file no parser will read.
            out.push(' ');
        } else {
            out.push(c);
        }
        proof {
            assert(out@ =~= before + xml_char(c));
        }
        i = i + 1;
    }
    proof {
        assert(v@.take(i as int) =~= v@);
    }
    out
}

/// How one character is written in a JSON string here: quote, backslash and the
/// common line controls by letter, other control characters as `\u00XX`.
pub open spec fn json_char(c: char) -> Seq<char> {
    if c == '"' {
        seq!['\\', '"']
    } else if c == '\\' {
        seq!['\\', '\\']
    } else if c == '\n' {
        seq!['\\', 'n']
    } else if c == '\r' {
        seq!['\\', 'r']
    } else if c == '\t' {
        seq!['\\', 't']
    } else if (c as u32) < 0x20 {
        seq![
            '\\',
            'u',
            '0',
            '0',
            crate::digest::hex_digit(((c as u32) / 16) as nat),
            crate::digest::hex_digit(((c as u32) % 16) as nat),
        ]
    } else {
        seq![c]
    }
}

pub open spec fn json_escaped(s: Seq<char>) -> Seq<char>
    decreases s.len(),
{
    if s.len() == 0 {
        Seq::empty()
    } else {
        json_escaped(s.drop_last()) + json_char(s.last())
    }
}

fn hex_nibble(n: u32) -> (c: char)
    requires
        n < 16,
    ensures
        c == crate::digest::hex_digit(n as nat),
{
    if n < 10 {
        crate::text::digit(n as u64)
    } else if n == 10 {
        'a'
    } else if n == 11 {
        'b'
    } else if n == 12 {
        'c'
    } else if n == 13 {
        'd'
    } else if n == 14 {
        'e'
    } else {
        'f'
    }
}

/// Escaping for a JSON string that is *itself* inside an XML text node (the
/// guides property). Both layers apply: JSON first, then the caller's
/// `xml_escape`.
pub fn json_escape(s: &str) -> (r: String)
    ensures
        r@ == json_escaped(s@),
{
    let v = chars_of(s);
    let mut out = String::new();
    let mut i: usize = 0;
    while i < v.len()
        invariant
            i <= v@.len(),
            v@ == s@,
            out@ == json_escaped(v@.take(i as int)),
        decreases v@.len() - i,
    {
        let c = v[i];
        proof {
            assert(v@.take(i + 1).drop_last() =~= v@.take(i as int));
            assert(v@.take(i + 1).last() == c);
        }
        let ghost before = out@;
        if c == '"' {
            out.push('\\');
            out.push('"');
        } else if c == '\\' {
            out.push('\\');
            out.push('\\');
        } else if c == '\n' {
            out.push('\\');
            out.push('n');
        } else if c == '\r' {
            out.push('\\');
            out.push('r');
        } else if c == '\t' {
            out.push('\\');
            out.push('t');
        } else if (c as u32) < 0x20 {
            let code = c as u32;
            out.push('\\');
            out.push('u');
            out.push('0');
            out.push('0');
            out.push(hex_nibble(code / 16));
            out.push(hex_nibble(code % 16));
        } else {
            out.push(c);
        }
        proof {
            assert(out@ =~= before + json_char(c));
        }
        i = i + 1;
    }
    proof {
        assert(v@.take(i as int) =~= v@);
    }
    out
}

/// One marker record: `{"comment":…,"pos":…,"type":0,"duration":0}`.
pub open spec fn marker_entry(pos: i64, comment: Seq<char>) -> Seq<char> {
    "{\"comment\":\""@ + json_escaped(comment) + "\",\"pos\":"@ + dec_i(pos as int)
        + ",\"type\":0,\"duration\":0}"@
}

pub open spec fn marker_entries(entries: Seq<(i64, String)>) -> Seq<char>
    decreases entries.len(),
{
    if entries.len() == 0 {
        Seq::empty()
    } else if entries.len() == 1 {
        marker_entry(entries[0].0, entries[0].1@)
    } else {
        marker_entries(entries.drop_last()) + seq![','] + marker_entry(
            entries.last().0,
            entries.last().1@,
        )
    }
}

/// A JSON array of `{comment, pos, type, duration}` records. Kdenlive uses the
/// same serializer for timeline guides and clip markers, so both are built here.
/// `pos` is in **frames**, which is the detail worth getting wrong once.
pub fn marker_json(entries: &[(i64, String)]) -> (s: String)
    ensures
        s@ == seq!['['] + marker_entries(entries@) + seq![']'],
{
    let mut s = String::new();
    s.push('[');
    let mut i: usize = 0;
    while i < entries.len()
        invariant
            i <= entries@.len(),
            s@ == seq!['['] + marker_entries(entries@.take(i as int)),
        decreases entries@.len() - i,
    {
        proof {
            assert(entries@.take(i + 1).drop_last() =~= entries@.take(i as int));
            assert(entries@.take(i + 1).last() == entries@[i as int]);
        }
        if i > 0 {
            s.push(',');
        }
        push_str(&mut s, "{\"comment\":\"");
        push_str(&mut s, json_escape(entries[i].1.as_str()).as_str());
        push_str(&mut s, "\",\"pos\":");
        push_str(&mut s, i64_dec(entries[i].0).as_str());
        push_str(&mut s, ",\"type\":0,\"duration\":0}");
        i = i + 1;
        proof {
            if i == 1 {
                assert(entries@.take(1) =~= seq![entries@[0]]);
            }
            assert(s@ =~= seq!['['] + marker_entries(entries@.take(i as int)));
        }
    }
    s.push(']');
    proof {
        assert(entries@.take(i as int) =~= entries@);
    }
    s
}

/// A mark's label when it names something: trimmed, not empty, and not the
/// app's own `hl` sentinel for an unnamed highlight.
pub open spec fn named_spec(label: Seq<char>) -> Option<Seq<char>> {
    let l = trim(label);
    if l.len() > 0 && l != "hl"@ { Some(l) } else { None }
}

/// The app's own sentinel for an unnamed highlight — `h` writes this label, and the
/// UI already treats it as "no name" everywhere it renders a mark. The timeline
/// follows the same rule so a ruler full of guides reading "hl" never happens.
pub fn named(label: &str) -> (r: Option<String>)
    ensures
        match r {
            Some(l) => named_spec(label@) == Some(l@),
            None => named_spec(label@) is None,
        },
{
    let v = chars_of(label);
    let l = trim_range(v.as_slice(), 0, v.len());
    proof {
        assert(v@.subrange(0, v@.len() as int) =~= label@);
    }
    if l.as_str().unicode_len() > 0 && !str_eq(l.as_str(), "hl") {
        Some(l)
    } else {
        None
    }
}

/// One mark resolved onto the timeline: which master, which frames of it, and what
/// to call it. `out_f` is inclusive, matching MLT.
#[derive(Clone, Debug)]
pub struct Segment {
    pub master: String,
    /// Master basename — the bin clip's name.
    pub name: String,
    /// The mark's label, or empty when unnamed (`hl`).
    pub label: String,
    pub in_f: i64,
    pub out_f: i64,
}

impl Segment {
    pub fn frames(&self) -> (n: i64)
        requires
            i64::MIN <= self.out_f - self.in_f,
            self.out_f - self.in_f + 1 <= i64::MAX,
        ensures
            n == self.out_f - self.in_f + 1,
    {
        self.out_f - self.in_f + 1
    }

    /// What the ruler guide says: the name you gave the mark, else the clip it came
    /// from. A guide per segment is the "marks copied into the GUI" part.
    pub fn guide(&self) -> (g: String)
        ensures
            g@ == match named_spec(self.label@) {
                Some(l) => l,
                None => self.name@,
            },
    {
        match named(self.label.as_str()) {
            Some(l) => l,
            None => self.name.clone(),
        }
    }
}

/// A master as the bin sees it: the whole file, however long it is.
#[derive(Clone, Debug)]
pub struct Source {
    pub master: String,
    pub name: String,
    pub length_f: i64,
    /// Does it carry audio? A still-image capture or a silent clip gets no audio
    /// entry, rather than an audio clip that renders as silence.
    pub has_audio: bool,
    /// The proxy already built for this master under `<trip>/.proxies/`, when
    /// there is one; it carries the same frame count and rate as the master, so it
    /// can stand in frame-for-frame.
    pub proxy: Option<String>,
}

impl Source {
    /// What a producer's `resource` should point at: the proxy when we have one.
    /// Kdenlive keeps the master in `kdenlive:originalurl` and swaps back to it for
    /// rendering, so this costs nothing in output quality.
    pub fn resource(&self) -> (r: &String)
        ensures
            r@ == match self.proxy {
                Some(p) => p@,
                None => self.master@,
            },
    {
        match &self.proxy {
            Some(p) => p,
            None => &self.master,
        }
    }
}

/// The UUID variant nibble for a hex digit: `8`, `9`, `a` or `b`.
pub open spec fn variant_of(h: char) -> char {
    if h == '0' || h == '1' || h == '2' || h == '3' || h == '8' {
        '8'
    } else if h == '4' || h == '5' || h == '9' {
        '9'
    } else if h == '6' || h == '7' || h == 'a' {
        'a'
    } else {
        'b'
    }
}

/// Forty hex digits shaped as a braced v4 UUID: version nibble `4`, variant
/// nibble in `8..=b`.
pub open spec fn uuid_shape(h: Seq<char>) -> Seq<char> {
    seq!['{'] + h.subrange(0, 8) + seq!['-'] + h.subrange(8, 12) + seq!['-', '4'] + h.subrange(13, 16)
        + seq!['-', variant_of(h[16])] + h.subrange(17, 20) + seq!['-'] + h.subrange(20, 32) + seq!['}']
}

/// A timeline UUID has the braced 8-4-4-4-12 shape QUuid accepts: 38 characters,
/// braces at the ends, dashes between the groups, version nibble `4` and a
/// variant nibble among `8`, `9`, `a`, `b`; every other character is a character
/// of the hex text it was made from.
pub proof fn lemma_uuid_shape(h: Seq<char>)
    requires
        h.len() >= 32,
    ensures
        uuid_shape(h).len() == 38,
        uuid_shape(h)[0] == '{',
        uuid_shape(h)[37] == '}',
        uuid_shape(h)[9] == '-' && uuid_shape(h)[14] == '-' && uuid_shape(h)[19] == '-' && uuid_shape(h)[24] == '-',
        uuid_shape(h)[15] == '4',
        uuid_shape(h)[20] == '8' || uuid_shape(h)[20] == '9' || uuid_shape(h)[20] == 'a' || uuid_shape(h)[20] == 'b',
        forall|i: int| 1 <= i < 9 ==> #[trigger] uuid_shape(h)[i] == h[i - 1],
        forall|i: int| 10 <= i < 14 ==> #[trigger] uuid_shape(h)[i] == h[i - 2],
        forall|i: int| 16 <= i < 19 ==> #[trigger] uuid_shape(h)[i] == h[i - 3],
        forall|i: int| 21 <= i < 24 ==> #[trigger] uuid_shape(h)[i] == h[i - 4],
        forall|i: int| 25 <= i < 37 ==> #[trigger] uuid_shape(h)[i] == h[i - 5],
{
    let u = uuid_shape(h);
    assert(u.len() == 38);
}

proof fn lemma_hex_len(b: Seq<u8>)
    ensures
        hex_of(b).len() == 2 * b.len(),
    decreases b.len(),
{
    if b.len() > 0 {
        lemma_hex_len(b.drop_last());
    }
}

/// Kdenlive keys clips and sequences by UUID. These are derived from a stable seed
/// (the SHA-1 of its UTF-8 bytes) rather than randomised, so rebuilding a trip's
/// timeline produces a byte-identical file. Kdenlive parses these with QUuid,
/// which rejects anything malformed and then silently drops the clip.
pub fn uuid_from(seed: &str) -> (u: String)
    ensures
        u@ == uuid_shape(hex_of(sha1_of(seed.spec_bytes()))),
{
    let digest = sha1_digest(seed.as_bytes());
    let hex = hex_encode(digest.as_slice());
    let h = chars_of(hex.as_str());
    proof {
        lemma_hex_len(digest@);
    }
    let v = h[16];
    let variant = if v == '0' || v == '1' || v == '2' || v == '3' || v == '8' {
        '8'
    } else if v == '4' || v == '5' || v == '9' {
        '9'
    } else if v == '6' || v == '7' || v == 'a' {
        'a'
    } else {
        'b'
    };
    let mut u = String::new();
    u.push('{');
    push_str(&mut u, slice_string(h.as_slice(), 0, 8).as_str());
    u.push('-');
    push_str(&mut u, slice_string(h.as_slice(), 8, 12).as_str());
    u.push('-');
    u.push('4');
    push_str(&mut u, slice_string(h.as_slice(), 13, 16).as_str());
    u.push('-');
    u.push(variant);
    push_str(&mut u, slice_string(h.as_slice(), 17, 20).as_str());
    u.push('-');
    push_str(&mut u, slice_string(h.as_slice(), 20, 32).as_str());
    u.push('}');
    proof {
        assert(u@ =~= uuid_shape(h@));
    }
    u
}

} // verus!

verus! {

// ---- the MLT project text ----

/// The UUID a seed text gives.
pub open spec fn uuid_spec(seed: Seq<char>) -> Seq<char> {
    uuid_shape(hex_of(sha1_of(vstd::utf8::encode_utf8(seed))))
}

/// One `<property>` line.
pub open spec fn prop_text(indent: Seq<char>, name: Seq<char>, value: Seq<char>) -> Seq<char> {
    indent + "<property name=\""@ + xml_escaped(name) + "\">"@ + xml_escaped(value) + "</property>\n"@
}

fn prop(out: &mut String, indent: &str, name: &str, value: &str)
    ensures
        final(out)@ == old(out)@ + prop_text(indent@, name@, value@),
{
    push_str(out, indent);
    push_str(out, "<property name=\"");
    push_str(out, xml_escape(name).as_str());
    push_str(out, "\">");
    push_str(out, xml_escape(value).as_str());
    push_str(out, "</property>\n");
    proof {
        assert(out@ =~= old(out)@ + prop_text(indent@, name@, value@));
    }
}

/// The value of a hex digit.
pub open spec fn hex_value_of(c: char) -> nat {
    if '0' <= c && c <= '9' {
        (c as u32 - '0' as u32) as nat
    } else if 'a' <= c && c <= 'f' {
        (c as u32 - 'a' as u32 + 10) as nat
    } else {
        0
    }
}

/// The number lower-case hex digits spell.
pub open spec fn hex_number(s: Seq<char>) -> nat
    decreases s.len(),
{
    if s.len() == 0 {
        0
    } else {
        hex_number(s.drop_last()) * 16 + hex_value_of(s.last())
    }
}

/// The document id Kdenlive keeps in `documentid`: stable digits from the title's
/// SHA-1, so a rebuild is byte-identical.
pub open spec fn doc_id_spec(title: Seq<char>) -> Seq<char> {
    let h = hex_of(sha1_of(vstd::utf8::encode_utf8(title)));
    dec(1_000_000_000_000 + hex_number(h.take(12)) % 900_000_000_000)
}

fn hex_value(c: char) -> (v: u64)
    ensures
        v == hex_value_of(c),
        v < 16,
{
    if '0' <= c && c <= '9' {
        (c as u32 - '0' as u32) as u64
    } else if 'a' <= c && c <= 'f' {
        (c as u32 - 'a' as u32 + 10) as u64
    } else {
        0
    }
}

fn doc_id(title: &str) -> (s: String)
    ensures
        s@ == doc_id_spec(title@),
{
    let digest = sha1_digest(title.as_bytes());
    let hex = hex_encode(digest.as_slice());
    let h = chars_of(hex.as_str());
    proof {
        lemma_hex_len(digest@);
    }
    let mut n: u64 = 0;
    let mut i: usize = 0;
    while i < 12
        invariant
            i <= 12,
            h@.len() == 40,
            n == hex_number(h@.take(i as int)),
            n < pow16(i as nat),
        decreases 12 - i,
    {
        proof {
            assert(h@.take(i + 1).drop_last() =~= h@.take(i as int));
            assert(h@.take(i + 1).last() == h@[i as int]);
            lemma_pow16_bound(i as nat);
        }
        let d = hex_value(h[i]);
        n = n * 16 + d;
        i = i + 1;
    }
    u64_dec(1_000_000_000_000 + n % 900_000_000_000)
}

pub open spec fn pow16(k: nat) -> nat
    decreases k,
{
    if k == 0 { 1 } else { 16 * pow16((k - 1) as nat) }
}

proof fn lemma_pow16_bound(k: nat)
    requires
        k < 12,
    ensures
        pow16(k) <= 17592186044416nat,
        pow16(k + 1) == 16 * pow16(k),
{
    assert(pow16(0) == 1);
    assert(pow16(1) == 16);
    assert(pow16(2) == 256);
    assert(pow16(3) == 4096);
    assert(pow16(4) == 65536);
    assert(pow16(5) == 1048576);
    assert(pow16(6) == 16777216);
    assert(pow16(7) == 268435456);
    assert(pow16(8) == 4294967296);
    assert(pow16(9) == 68719476736);
    assert(pow16(10) == 1099511627776);
    assert(pow16(11) == 17592186044416);
    if k == 0 {} else if k == 1 {} else if k == 2 {} else if k == 3 {} else if k == 4 {} else if k == 5 {}
    else if k == 6 {} else if k == 7 {} else if k == 8 {} else if k == 9 {} else if k == 10 {} else {}
}

/// Where a master sits among the sources (the first with that path), or the
/// count when none does.
pub open spec fn source_index(sources: Seq<Source>, m: Seq<char>) -> int
    decreases sources.len(),
{
    if sources.len() == 0 {
        0
    } else if sources[0].master@ == m {
        0
    } else {
        1 + source_index(sources.drop_first(), m)
    }
}

/// A master's bin id: its place among the sources counted from 2 (Kdenlive keeps
/// 1 for the sequence), or 2 when it is not among them.
pub open spec fn bin_id_spec(sources: Seq<Source>, m: Seq<char>) -> nat {
    let i = source_index(sources, m);
    (if i < sources.len() { i } else { 0 }) as nat + 2
}

proof fn lemma_source_index(sources: Seq<Source>, m: Seq<char>)
    ensures
        0 <= source_index(sources, m) <= sources.len(),
        forall|j: int| 0 <= j < source_index(sources, m) ==> sources[j].master@ != m,
        source_index(sources, m) < sources.len() ==> sources[source_index(sources, m)].master@ == m,
    decreases sources.len(),
{
    if sources.len() > 0 && sources[0].master@ != m {
        lemma_source_index(sources.drop_first(), m);
        assert forall|j: int| 0 <= j < source_index(sources, m) implies sources[j].master@ != m by {
            if j > 0 {
                assert(sources[j] == sources.drop_first()[j - 1]);
            }
        }
    }
}

proof fn lemma_source_index_at(sources: Seq<Source>, m: Seq<char>, i: int)
    requires
        0 <= i <= sources.len(),
        forall|j: int| 0 <= j < i ==> sources[j].master@ != m,
        i == sources.len() || sources[i].master@ == m,
    ensures
        source_index(sources, m) == i,
    decreases sources.len(),
{
    if sources.len() > 0 && i > 0 {
        assert forall|j: int| 0 <= j < i - 1 implies sources.drop_first()[j].master@ != m by {
            assert(sources.drop_first()[j] == sources[j + 1]);
        }
        lemma_source_index_at(sources.drop_first(), m, i - 1);
    }
}

fn bin_id(sources: &[Source], m: &str) -> (id: u64)
    requires
        sources@.len() < u64::MAX - 2,
    ensures
        id == bin_id_spec(sources@, m@),
{
    let mut i: usize = 0;
    while i < sources.len() && !str_eq(sources[i].master.as_str(), m)
        invariant
            i <= sources@.len(),
            forall|j: int| 0 <= j < i ==> sources@[j].master@ != m@,
        decreases sources@.len() - i,
    {
        i = i + 1;
    }
    proof {
        lemma_source_index_at(sources@, m@, i as int);
    }
    if i < sources.len() {
        i as u64 + 2
    } else {
        2
    }
}

/// The frames each segment spans, summed.
pub open spec fn frames_sum(segs: Seq<Segment>) -> int
    decreases segs.len(),
{
    if segs.len() == 0 {
        0
    } else {
        frames_sum(segs.drop_last()) + (segs.last().out_f - segs.last().in_f + 1)
    }
}

/// Every segment's frame count, and every running total of them, fits an `i64`.
pub open spec fn frames_fit(segs: Seq<Segment>) -> bool {
    &&& forall|k: int| 0 <= k <= segs.len() ==> i64::MIN <= #[trigger] frames_sum(segs.take(k)) <= i64::MAX
    &&& forall|k: int|
        0 <= k < segs.len() ==> i64::MIN <= (#[trigger] segs[k]).out_f - segs[k].in_f && segs[k].out_f
            - segs[k].in_f + 1 <= i64::MAX
}

/// The timeline's length in frames: the segments' total, at least 1.
pub open spec fn total_spec(segs: Seq<Segment>) -> int {
    if frames_sum(segs) >= 1 { frames_sum(segs) } else { 1 }
}

fn total_frames(segs: &[Segment]) -> (t: i64)
    requires
        frames_fit(segs@),
    ensures
        t == total_spec(segs@),
{
    let mut sum: i64 = 0;
    let mut i: usize = 0;
    while i < segs.len()
        invariant
            i <= segs@.len(),
            frames_fit(segs@),
            sum == frames_sum(segs@.take(i as int)),
        decreases segs@.len() - i,
    {
        proof {
            assert(segs@.take(i + 1).drop_last() =~= segs@.take(i as int));
            assert(segs@.take(i + 1).last() == segs@[i as int]);
            assert(i64::MIN <= frames_sum(segs@.take(i + 1)) <= i64::MAX);
            assert(i64::MIN <= segs@[i as int].out_f - segs@[i as int].in_f);
        }
        let f = segs[i].frames();
        sum = sum + f;
        i = i + 1;
    }
    proof {
        assert(segs@.take(i as int) =~= segs@);
    }
    if sum >= 1 { sum } else { 1 }
}

/// Some source carries sound.
pub open spec fn any_audio_spec(sources: Seq<Source>) -> bool {
    exists|i: int| 0 <= i < sources.len() && (#[trigger] sources[i]).has_audio
}

/// Some source has a proxy.
pub open spec fn any_proxy_spec(sources: Seq<Source>) -> bool {
    exists|i: int| 0 <= i < sources.len() && (#[trigger] sources[i]).proxy is Some
}

fn any_audio(sources: &[Source]) -> (b: bool)
    ensures
        b == any_audio_spec(sources@),
{
    let mut i: usize = 0;
    while i < sources.len()
        invariant
            i <= sources@.len(),
            forall|j: int| 0 <= j < i ==> !(#[trigger] sources@[j]).has_audio,
        decreases sources@.len() - i,
    {
        if sources[i].has_audio {
            return true;
        }
        i = i + 1;
    }
    false
}

fn any_proxy(sources: &[Source]) -> (b: bool)
    ensures
        b == any_proxy_spec(sources@),
{
    let mut i: usize = 0;
    while i < sources.len()
        invariant
            i <= sources@.len(),
            forall|j: int| 0 <= j < i ==> (#[trigger] sources@[j]).proxy is None,
        decreases sources@.len() - i,
    {
        if sources[i].proxy.is_some() {
            return true;
        }
        i = i + 1;
    }
    false
}

/// A source's length in frames, at least 1.
pub open spec fn src_len(s: Source) -> int {
    if s.length_f >= 1 { s.length_f as int } else { 1 }
}

/// The guide text each segment's mark reads as.
pub open spec fn guide_spec(s: Segment) -> Seq<char> {
    match named_spec(s.label@) {
        Some(l) => l,
        None => s.name@,
    }
}

/// The `(position in source, guide)` markers of the marks on master `m`.
pub open spec fn source_marks(segs: Seq<Segment>, m: Seq<char>) -> Seq<(i64, Seq<char>)>
    decreases segs.len(),
{
    if segs.len() == 0 {
        Seq::empty()
    } else {
        let before = source_marks(segs.drop_last(), m);
        if segs.last().master@ == m {
            before.push((segs.last().in_f, guide_spec(segs.last())))
        } else {
            before
        }
    }
}

/// The `(timeline position, guide)` ruler guides: each segment at the running
/// total of the frames before it.
pub open spec fn timeline_guides(segs: Seq<Segment>) -> Seq<(i64, Seq<char>)>
    decreases segs.len(),
{
    if segs.len() == 0 {
        Seq::empty()
    } else {
        timeline_guides(segs.drop_last()).push(
            (frames_sum(segs.drop_last()) as i64, guide_spec(segs.last())),
        )
    }
}

/// A marker list as `marker_json` writes it.
pub open spec fn markers_text(entries: Seq<(i64, Seq<char>)>) -> Seq<char> {
    seq!['['] + marker_entries_v(entries) + seq![']']
}

pub open spec fn marker_entries_v(entries: Seq<(i64, Seq<char>)>) -> Seq<char>
    decreases entries.len(),
{
    if entries.len() == 0 {
        Seq::empty()
    } else if entries.len() == 1 {
        marker_entry(entries[0].0, entries[0].1)
    } else {
        marker_entries_v(entries.drop_last()) + seq![','] + marker_entry(entries.last().0, entries.last().1)
    }
}

proof fn lemma_marker_entries_v(entries: Seq<(i64, String)>)
    ensures
        marker_entries(entries) == marker_entries_v(entries.map_values(|e: (i64, String)| (e.0, e.1@))),
    decreases entries.len(),
{
    let v = entries.map_values(|e: (i64, String)| (e.0, e.1@));
    if entries.len() > 1 {
        lemma_marker_entries_v(entries.drop_last());
        assert(v.drop_last() =~= entries.drop_last().map_values(|e: (i64, String)| (e.0, e.1@)));
    }
}

} // verus!

verus! {

pub open spec fn sec_header(title: Seq<char>, root: Seq<char>) -> Seq<char> {
    "<?xml version=\"1.0\" encoding=\"utf-8\"?>\n"@ + "<mlt LC_NUMERIC=\"C\" version=\"7.0.0\" producer=\"main_bin\" title=\""@
        + xml_escaped(title) + "\" root=\""@ + xml_escaped(root) + "\">\n"@
}

pub open spec fn describe_spec(p: Profile) -> Seq<char> {
    dec(p.width as nat) + seq!['×'] + dec(p.height as nat) + " · "@ + rate_text(p.fps_num as nat, p.fps_den as nat)
        + " fps"@
}

pub open spec fn sec_profile(p: Profile) -> Seq<char> {
    "  <profile description=\""@ + xml_escaped(describe_spec(p)) + "\" width=\""@ + dec(p.width as nat)
        + "\" height=\""@ + dec(p.height as nat) + "\" progressive=\"1\" sample_aspect_num=\""@ + dec(
        p.sar_num as nat,
    ) + "\" sample_aspect_den=\""@ + dec(p.sar_den as nat) + "\" display_aspect_num=\""@ + dec(dar_spec(p).0)
        + "\" display_aspect_den=\""@ + dec(dar_spec(p).1) + "\" frame_rate_num=\""@ + dec(p.fps_num as nat)
        + "\" frame_rate_den=\""@ + dec(p.fps_den as nat) + "\" colorspace=\"709\"/>\n"@
}

/// The resource a source's producers point at: its proxy when it has one.
pub open spec fn resource_spec(s: Source) -> Seq<char> {
    match s.proxy {
        Some(p) => p@,
        None => s.master@,
    }
}

/// The opening of a source's bin clip, through its playback properties, given its
/// id, length and last frame as text.
#[verifier::opaque]
pub open spec fn bin_head(id: Seq<char>, len: Seq<char>, out: Seq<char>, resource: Seq<char>, audio: bool) -> Seq<char> {
    "  <producer id=\"bin"@ + id + "\" in=\"0\" out=\""@ + out + "\">\n"@ + prop_text("   "@, "length"@, len)
        + prop_text("   "@, "eof"@, "continue"@) + prop_text("   "@, "resource"@, resource) + prop_text(
        "   "@,
        "mlt_service"@,
        "avformat-novalidate"@,
    ) + prop_text("   "@, "seekable"@, "1"@) + prop_text("   "@, "audio_index"@, if audio { "0"@ } else { "-1"@ })
        + prop_text("   "@, "video_index"@, "0"@) + prop_text("   "@, "mute_on_pause"@, "0"@)
}

/// The proxy wiring of a source that has a proxy.
pub open spec fn proxy_props(s: Source) -> Seq<char> {
    match s.proxy {
        Some(p) => prop_text("   "@, "kdenlive:originalurl"@, s.master@) + prop_text("   "@, "kdenlive:proxy"@, p@),
        None => Seq::empty(),
    }
}

/// The rest of a source's bin clip: its ids, name, length and markers (given as
/// the marker list's text, or `None` when no mark is on it).
#[verifier::opaque]
pub open spec fn bin_tail(uuid: Seq<char>, id: Seq<char>, name: Seq<char>, len: Seq<char>, markers: Option<Seq<char>>) -> Seq<char> {
    prop_text("   "@, "kdenlive:control_uuid"@, uuid) + prop_text("   "@, "kdenlive:id"@, id) + prop_text(
        "   "@,
        "kdenlive:clip_type"@,
        "0"@,
    ) + prop_text("   "@, "kdenlive:clipname"@, name) + prop_text("   "@, "kdenlive:duration"@, len) + prop_text(
        "   "@,
        "kdenlive:folderid"@,
        "-1"@,
    ) + (match markers {
        Some(m) => prop_text("   "@, "kdenlive:markers"@, m),
        None => Seq::empty(),
    }) + "  </producer>\n"@
}

/// A source's bin clip, spanning the whole master, with a marker per mark on it.
pub open spec fn sec_bin_producer(sources: Seq<Source>, segs: Seq<Segment>, s: Source) -> Seq<char> {
    let id = dec(bin_id_spec(sources, s.master@));
    let len = dec_i(src_len(s));
    let marks = source_marks(segs, s.master@);
    bin_head(id, len, dec_i(src_len(s) - 1), resource_spec(s), s.has_audio) + proxy_props(s) + bin_tail(
        uuid_spec(s.master@),
        id,
        s.name@,
        len,
        if marks.len() > 0 { Some(markers_text(marks)) } else { None },
    )
}

pub open spec fn sec_bin_producers(sources: Seq<Source>, segs: Seq<Segment>, k: int) -> Seq<char>
    decreases k,
{
    if k <= 0 {
        Seq::empty()
    } else {
        sec_bin_producers(sources, segs, k - 1) + sec_bin_producer(sources, segs, sources[k - 1])
    }
}

pub open spec fn sec_black(last: int) -> Seq<char> {
    "  <producer id=\"black_track\" in=\"0\" out=\""@ + dec_i(last) + "\">\n"@ + prop_text(
        "   "@,
        "length"@,
        "2147483647"@,
    ) + prop_text("   "@, "eof"@, "continue"@) + prop_text("   "@, "resource"@, "black"@) + prop_text(
        "   "@,
        "aspect_ratio"@,
        "1"@,
    ) + prop_text("   "@, "mlt_service"@, "color"@) + prop_text("   "@, "kdenlive:playlistid"@, "black_track"@)
        + prop_text("   "@, "mlt_image_format"@, "rgba"@) + prop_text("   "@, "set.test_audio"@, "0"@)
        + "  </producer>\n"@
}

/// The opening of one timeline half of a source, given its id, length and last
/// frame as text.
#[verifier::opaque]
pub open spec fn half_head(id: Seq<char>, len: Seq<char>, out: Seq<char>, resource: Seq<char>, audio: bool) -> Seq<char> {
    "  <producer id=\""@ + (if audio { "a"@ } else { "v"@ }) + id + "\" in=\"0\" out=\""@ + out + "\">\n"@
        + prop_text("   "@, "length"@, len) + prop_text("   "@, "eof"@, "pause"@) + prop_text(
        "   "@,
        "resource"@,
        resource,
    ) + prop_text("   "@, "mlt_service"@, "avformat-novalidate"@) + prop_text("   "@, "seekable"@, "1"@)
}

/// The rest of one timeline half: which streams it plays, and its ids.
#[verifier::opaque]
pub open spec fn half_tail(uuid: Seq<char>, id: Seq<char>, audio: bool) -> Seq<char> {
    prop_text("   "@, "audio_index"@, if audio { "0"@ } else { "-1"@ }) + prop_text(
        "   "@,
        "video_index"@,
        if audio { "-1"@ } else { "0"@ },
    ) + prop_text("   "@, "mute_on_pause"@, "0"@) + (if audio {
        prop_text("   "@, "set.test_image"@, "1"@)
    } else {
        prop_text("   "@, "set.test_audio"@, "1"@)
    }) + prop_text("   "@, "kdenlive:control_uuid"@, uuid) + prop_text("   "@, "kdenlive:id"@, id) + "  </producer>\n"@
}

/// One timeline half of a source: its picture (`v`) or its sound (`a`).
pub open spec fn sec_half(sources: Seq<Source>, s: Source, audio: bool) -> Seq<char> {
    let id = dec(bin_id_spec(sources, s.master@));
    half_head(id, dec_i(src_len(s)), dec_i(src_len(s) - 1), resource_spec(s), audio) + half_tail(
        uuid_spec(s.master@),
        id,
        audio,
    )
}

pub open spec fn sec_halves(sources: Seq<Source>, k: int) -> Seq<char>
    decreases k,
{
    if k <= 0 {
        Seq::empty()
    } else {
        let s = sources[k - 1];
        sec_halves(sources, k - 1) + sec_half(sources, s, false) + (if s.has_audio {
            sec_half(sources, s, true)
        } else {
            Seq::empty()
        })
    }
}

/// A segment's entry on a track: `v` for the picture, `a` for the sound.
pub open spec fn sec_entry(sources: Seq<Source>, s: Segment, tag: Seq<char>) -> Seq<char> {
    let id = dec(bin_id_spec(sources, s.master@));
    "   <entry producer=\""@ + tag + id + "\" in=\""@ + dec_i(s.in_f as int) + "\" out=\""@ + dec_i(s.out_f as int)
        + "\">\n"@ + prop_text("    "@, "kdenlive:id"@, id) + "   </entry>\n"@
}

pub open spec fn sec_video_entries(sources: Seq<Source>, segs: Seq<Segment>, k: int) -> Seq<char>
    decreases k,
{
    if k <= 0 {
        Seq::empty()
    } else {
        sec_video_entries(sources, segs, k - 1) + sec_entry(sources, segs[k - 1], "v"@)
    }
}

pub open spec fn sec_video(sources: Seq<Source>, segs: Seq<Segment>, last: int) -> Seq<char> {
    "  <playlist id=\"playlist0\">\n"@ + sec_video_entries(sources, segs, segs.len() as int) + "  </playlist>\n"@
        + "  <playlist id=\"playlist1\"/>\n"@ + "  <tractor id=\"tractor0\" in=\"0\" out=\""@ + dec_i(last)
        + "\">\n"@ + prop_text("   "@, "kdenlive:track_name"@, "V1"@) + prop_text(
        "   "@,
        "kdenlive:trackheight"@,
        "70"@,
    ) + prop_text("   "@, "kdenlive:timeline_active"@, "1"@) + prop_text("   "@, "kdenlive:collapsed"@, "0"@)
        + "   <track hide=\"audio\" producer=\"playlist0\"/>\n"@
        + "   <track hide=\"audio\" producer=\"playlist1\"/>\n"@ + "  </tractor>\n"@
}

/// Whether a segment's master carries sound (the first source with its path).
pub open spec fn seg_has_audio(sources: Seq<Source>, s: Segment) -> bool {
    let i = source_index(sources, s.master@);
    i < sources.len() && sources[i].has_audio
}

/// A segment on the audio track: its sound, or a gap of the same length for a
/// silent source, never a skipped entry (that would desync the whole track).
pub open spec fn sec_audio_entry(sources: Seq<Source>, s: Segment) -> Seq<char> {
    if seg_has_audio(sources, s) {
        sec_entry(sources, s, "a"@)
    } else {
        "   <blank length=\""@ + dec_i(s.out_f - s.in_f + 1) + "\"/>\n"@
    }
}

pub open spec fn sec_audio_entries(sources: Seq<Source>, segs: Seq<Segment>, k: int) -> Seq<char>
    decreases k,
{
    if k <= 0 {
        Seq::empty()
    } else {
        sec_audio_entries(sources, segs, k - 1) + sec_audio_entry(sources, segs[k - 1])
    }
}

pub open spec fn sec_audio(sources: Seq<Source>, segs: Seq<Segment>, last: int) -> Seq<char> {
    "  <playlist id=\"playlist2\">\n"@ + sec_audio_entries(sources, segs, segs.len() as int) + "  </playlist>\n"@
        + "  <playlist id=\"playlist3\"/>\n"@ + "  <tractor id=\"tractor1\" in=\"0\" out=\""@ + dec_i(last)
        + "\">\n"@ + prop_text("   "@, "kdenlive:audio_track"@, "1"@) + prop_text(
        "   "@,
        "kdenlive:track_name"@,
        "A1"@,
    ) + prop_text("   "@, "kdenlive:trackheight"@, "70"@) + prop_text("   "@, "kdenlive:timeline_active"@, "1"@)
        + prop_text("   "@, "kdenlive:collapsed"@, "0"@) + "   <track hide=\"video\" producer=\"playlist2\"/>\n"@
        + "   <track hide=\"video\" producer=\"playlist3\"/>\n"@ + "  </tractor>\n"@
}

} // verus!

verus! {

/// The sequence tractor's opening and first properties, given its texts.
#[verifier::opaque]
pub open spec fn seq_props_a(seq_uuid: Seq<char>, last: Seq<char>, title: Seq<char>, total: Seq<char>, doc_uuid: Seq<char>, any: bool) -> Seq<char> {
    "  <tractor id=\""@ + seq_uuid + "\" in=\"0\" out=\""@ + last + "\">\n"@ + prop_text("   "@, "kdenlive:uuid"@, seq_uuid)
        + prop_text("   "@, "kdenlive:clipname"@, title) + prop_text("   "@, "kdenlive:producer_type"@, "17"@)
        + prop_text("   "@, "kdenlive:id"@, "1"@) + prop_text("   "@, "kdenlive:duration"@, total) + prop_text(
        "   "@,
        "kdenlive:maxduration"@,
        total,
    ) + prop_text("   "@, "kdenlive:sequenceproperties.documentuuid"@, doc_uuid) + prop_text(
        "   "@,
        "kdenlive:sequenceproperties.hasAudio"@,
        if any { "1"@ } else { "0"@ },
    )
}

/// The sequence tractor's remaining properties: track count, view, ruler guides.
#[verifier::opaque]
pub open spec fn seq_props_b(any: bool, guides: Seq<char>, ctl_uuid: Seq<char>) -> Seq<char> {
    prop_text("   "@, "kdenlive:sequenceproperties.hasVideo"@, "1"@) + prop_text(
        "   "@,
        "kdenlive:sequenceproperties.tracksCount"@,
        if any { "2"@ } else { "1"@ },
    ) + prop_text("   "@, "kdenlive:sequenceproperties.activeTrack"@, "1"@) + prop_text(
        "   "@,
        "kdenlive:sequenceproperties.position"@,
        "0"@,
    ) + prop_text("   "@, "kdenlive:sequenceproperties.zoom"@, "8"@) + prop_text(
        "   "@,
        "kdenlive:sequenceproperties.guides"@,
        guides,
    ) + prop_text("   "@, "kdenlive:sequenceproperties.groups"@, "[]"@) + prop_text(
        "   "@,
        "kdenlive:control_uuid"@,
        ctl_uuid,
    )
}

/// The sequence's tracks, and the audio mix transition when there is sound.
#[verifier::opaque]
pub open spec fn seq_tracks(any: bool) -> Seq<char> {
    "   <track producer=\"black_track\"/>\n"@ + (if any {
        "   <track producer=\"tractor1\"/>\n"@
    } else {
        Seq::empty()
    }) + "   <track producer=\"tractor0\"/>\n"@ + (if any {
        "   <transition id=\"transition0\">\n"@ + prop_text("    "@, "a_track"@, "0"@) + prop_text(
            "    "@,
            "b_track"@,
            "1"@,
        ) + prop_text("    "@, "mlt_service"@, "mix"@) + prop_text("    "@, "sum"@, "1"@) + prop_text(
            "    "@,
            "accepts_blanks"@,
            "1"@,
        ) + prop_text("    "@, "always_active"@, "1"@) + prop_text("    "@, "internal_added"@, "237"@)
            + "   </transition>\n"@
    } else {
        Seq::empty()
    })
}

/// The video compositing transition, and the sequence's close.
#[verifier::opaque]
pub open spec fn seq_end(any: bool) -> Seq<char> {
    "   <transition id=\"transition1\">\n"@ + prop_text("    "@, "a_track"@, "0"@) + prop_text(
        "    "@,
        "b_track"@,
        if any { "2"@ } else { "1"@ },
    ) + prop_text("    "@, "mlt_service"@, "qtblend"@) + prop_text("    "@, "kdenlive_id"@, "qtblend"@)
        + prop_text("    "@, "always_active"@, "1"@) + prop_text("    "@, "internal_added"@, "237"@)
        + "   </transition>\n"@ + "  </tractor>\n"@
}

/// The sequence Kdenlive opens as the timeline, with a ruler guide per segment.
pub open spec fn sec_sequence(title: Seq<char>, segs: Seq<Segment>, any: bool, total: int) -> Seq<char> {
    seq_props_a(
        uuid_spec("reel/seq/"@ + title),
        dec_i(total - 1),
        title,
        dec_i(total),
        uuid_spec("reel/doc/"@ + title),
        any,
    ) + seq_props_b(any, markers_text(timeline_guides(segs)), uuid_spec("reel/ctl/"@ + title)) + seq_tracks(any)
        + seq_end(any)
}

pub open spec fn sec_bin_entries(sources: Seq<Source>, k: int) -> Seq<char>
    decreases k,
{
    if k <= 0 {
        Seq::empty()
    } else {
        let s = sources[k - 1];
        sec_bin_entries(sources, k - 1) + "   <entry producer=\"bin"@ + dec(bin_id_spec(sources, s.master@))
            + "\" in=\"0\" out=\""@ + dec_i(src_len(s) - 1) + "\"/>\n"@
    }
}

/// The bin playlist's opening and document properties.
#[verifier::opaque]
pub open spec fn bin_props_a(doc_uuid: Seq<char>, doc_id: Seq<char>, profile_id: Option<Seq<char>>) -> Seq<char> {
    "  <playlist id=\"main_bin\">\n"@ + prop_text("   "@, "kdenlive:docproperties.version"@, "1.1"@) + prop_text(
        "   "@,
        "kdenlive:docproperties.patchversion"@,
        "1"@,
    ) + prop_text("   "@, "kdenlive:docproperties.uuid"@, doc_uuid) + prop_text(
        "   "@,
        "kdenlive:docproperties.documentid"@,
        doc_id,
    ) + (match profile_id {
        Some(id) => prop_text("   "@, "kdenlive:docproperties.profile"@, id),
        None => Seq::empty(),
    })
}

/// The bin playlist's timeline and proxy properties.
#[verifier::opaque]
pub open spec fn bin_props_b(seq_uuid: Seq<char>, proxies: bool) -> Seq<char> {
    prop_text("   "@, "kdenlive:docproperties.activetimeline"@, seq_uuid) + prop_text(
        "   "@,
        "kdenlive:docproperties.opensequences"@,
        seq_uuid,
    ) + prop_text("   "@, "kdenlive:docproperties.audioChannels"@, "2"@) + prop_text(
        "   "@,
        "kdenlive:docproperties.enableproxy"@,
        if proxies { "1"@ } else { "0"@ },
    ) + prop_text("   "@, "kdenlive:docproperties.generateproxy"@, "0"@) + prop_text(
        "   "@,
        "kdenlive:docproperties.enableexternalproxy"@,
        "0"@,
    ) + prop_text("   "@, "kdenlive:docproperties.generateimageproxy"@, "0"@) + prop_text(
        "   "@,
        "kdenlive:sequenceFolder"@,
        "-1"@,
    ) + prop_text("   "@, "xml_retain"@, "1"@)
}

/// The bin: the document's properties, an entry per master, and the sequence.
pub open spec fn sec_bin(
    title: Seq<char>,
    profile_id: Option<Seq<char>>,
    sources: Seq<Source>,
    total: int,
) -> Seq<char> {
    let seq_uuid = uuid_spec("reel/seq/"@ + title);
    bin_props_a(uuid_spec("reel/doc/"@ + title), doc_id_spec(title), profile_id) + bin_props_b(
        seq_uuid,
        any_proxy_spec(sources),
    ) + sec_bin_entries(sources, sources.len() as int) + "   <entry producer=\""@ + seq_uuid
        + "\" in=\"0\" out=\""@ + dec_i(total - 1) + "\"/>\n"@ + "  </playlist>\n"@
}

pub open spec fn sec_project(title: Seq<char>, total: int) -> Seq<char> {
    let seq_uuid = uuid_spec("reel/seq/"@ + title);
    let last = total - 1;
    "  <tractor id=\"projecttractor\" in=\"0\" out=\""@ + dec_i(last) + "\">\n"@ + prop_text(
        "   "@,
        "kdenlive:projectTractor"@,
        "1"@,
    ) + "   <track producer=\""@ + seq_uuid + "\" in=\"0\" out=\""@ + dec_i(last) + "\"/>\n"@ + "  </tractor>\n"@
        + "</mlt>\n"@
}

/// The whole `.kdenlive` project: header and profile; a bin clip per master
/// spanning all of it; the black background; the picture and sound halves of each
/// master; the video track (and the audio track when anything has sound); the
/// sequence Kdenlive opens as the timeline, with a ruler guide per segment; the
/// bin; and the project tractor.
pub open spec fn timeline_text(
    title: Seq<char>,
    root: Seq<char>,
    profile: Profile,
    profile_id: Option<Seq<char>>,
    sources: Seq<Source>,
    segs: Seq<Segment>,
) -> Seq<char> {
    let total = total_spec(segs);
    let any = any_audio_spec(sources);
    sec_header(title, root) + sec_profile(profile) + sec_bin_producers(sources, segs, sources.len() as int)
        + sec_black(total - 1) + sec_halves(sources, sources.len() as int) + sec_video(sources, segs, total - 1)
        + (if any { sec_audio(sources, segs, total - 1) } else { Seq::empty() }) + sec_sequence(
        title,
        segs,
        any,
        total,
    ) + sec_bin(title, profile_id, sources, total) + sec_project(title, total)
}

} // verus!

verus! {

fn w_header(out: &mut String, title: &str, root: &str)
    ensures
        final(out)@ == old(out)@ + sec_header(title@, root@),
{
    push_str(out, "<?xml version=\"1.0\" encoding=\"utf-8\"?>\n");
    push_str(out, "<mlt LC_NUMERIC=\"C\" version=\"7.0.0\" producer=\"main_bin\" title=\"");
    push_str(out, xml_escape(title).as_str());
    push_str(out, "\" root=\"");
    push_str(out, xml_escape(root).as_str());
    push_str(out, "\">\n");
    proof {
        assert(out@ =~= old(out)@ + sec_header(title@, root@));
    }
}

#[verifier::spinoff_prover]
#[verifier::rlimit(40)]
fn w_profile(out: &mut String, p: &Profile)
    ensures
        final(out)@ == old(out)@ + sec_profile(*p),
{
    let (dn, dd) = p.dar();
    push_str(out, "  <profile description=\"");
    push_str(out, xml_escape(p.describe().as_str()).as_str());
    push_str(out, "\" width=\"");
    push_str(out, u64_dec(p.width as u64).as_str());
    push_str(out, "\" height=\"");
    push_str(out, u64_dec(p.height as u64).as_str());
    push_str(out, "\" progressive=\"1\" sample_aspect_num=\"");
    push_str(out, u64_dec(p.sar_num as u64).as_str());
    push_str(out, "\" sample_aspect_den=\"");
    push_str(out, u64_dec(p.sar_den as u64).as_str());
    push_str(out, "\" display_aspect_num=\"");
    push_str(out, u64_dec(dn).as_str());
    push_str(out, "\" display_aspect_den=\"");
    push_str(out, u64_dec(dd).as_str());
    push_str(out, "\" frame_rate_num=\"");
    push_str(out, u64_dec(p.fps_num as u64).as_str());
    push_str(out, "\" frame_rate_den=\"");
    push_str(out, u64_dec(p.fps_den as u64).as_str());
    push_str(out, "\" colorspace=\"709\"/>\n");
    proof {
        assert(out@ =~= old(out)@ + sec_profile(*p));
    }
}

/// The markers of the marks on master `m`.
fn marks_on(segs: &[Segment], m: &str) -> (r: Vec<(i64, String)>)
    ensures
        r@.map_values(|e: (i64, String)| (e.0, e.1@)) == source_marks(segs@, m@),
{
    let mut r: Vec<(i64, String)> = Vec::new();
    let mut j: usize = 0;
    while j < segs.len()
        invariant
            j <= segs@.len(),
            r@.map_values(|e: (i64, String)| (e.0, e.1@)) == source_marks(segs@.take(j as int), m@),
        decreases segs@.len() - j,
    {
        proof {
            assert(segs@.take(j + 1).drop_last() =~= segs@.take(j as int));
            assert(segs@.take(j + 1).last() == segs@[j as int]);
        }
        if str_eq(segs[j].master.as_str(), m) {
            let ghost before = r@;
            r.push((segs[j].in_f, segs[j].guide()));
            proof {
                assert(r@.map_values(|e: (i64, String)| (e.0, e.1@)) =~= before.map_values(
                    |e: (i64, String)| (e.0, e.1@),
                ).push((segs@[j as int].in_f, guide_spec(segs@[j as int]))));
            }
        }
        j = j + 1;
    }
    proof {
        assert(segs@.take(j as int) =~= segs@);
    }
    r
}

#[verifier::spinoff_prover]
#[verifier::rlimit(40)]
fn w_bin_head(out: &mut String, id: &str, len: &str, last: &str, resource: &str, audio: bool)
    ensures
        final(out)@ == old(out)@ + bin_head(id@, len@, last@, resource@, audio),
{
    push_str(out, "  <producer id=\"bin");
    push_str(out, id);
    push_str(out, "\" in=\"0\" out=\"");
    push_str(out, last);
    push_str(out, "\">\n");
    prop(out, "   ", "length", len);
    prop(out, "   ", "eof", "continue");
    prop(out, "   ", "resource", resource);
    prop(out, "   ", "mlt_service", "avformat-novalidate");
    prop(out, "   ", "seekable", "1");
    prop(out, "   ", "audio_index", if audio { "0" } else { "-1" });
    prop(out, "   ", "video_index", "0");
    prop(out, "   ", "mute_on_pause", "0");
    proof {
        reveal(bin_head);
        assert(out@ =~= old(out)@ + bin_head(id@, len@, last@, resource@, audio));
    }
}

#[verifier::spinoff_prover]
#[verifier::rlimit(40)]
fn w_bin_tail(out: &mut String, uuid: &str, id: &str, name: &str, len: &str, markers: Option<&str>)
    ensures
        final(out)@ == old(out)@ + bin_tail(uuid@, id@, name@, len@, crate::media::opt_str(markers)),
{
    prop(out, "   ", "kdenlive:control_uuid", uuid);
    prop(out, "   ", "kdenlive:id", id);
    prop(out, "   ", "kdenlive:clip_type", "0");
    prop(out, "   ", "kdenlive:clipname", name);
    prop(out, "   ", "kdenlive:duration", len);
    prop(out, "   ", "kdenlive:folderid", "-1");
    match markers {
        Some(m) => prop(out, "   ", "kdenlive:markers", m),
        None => {},
    }
    push_str(out, "  </producer>\n");
    proof {
        reveal(bin_tail);
        assert(out@ =~= old(out)@ + bin_tail(uuid@, id@, name@, len@, crate::media::opt_str(markers)));
    }
}

fn w_bin_producer(out: &mut String, sources: &[Source], segs: &[Segment], k: usize)
    requires
        k < sources@.len(),
        sources@.len() < u64::MAX - 2,
    ensures
        final(out)@ == old(out)@ + sec_bin_producer(sources@, segs@, sources@[k as int]),
{
    let s = &sources[k];
    let id = u64_dec(bin_id(sources, s.master.as_str()));
    let lenv: i64 = if s.length_f >= 1 { s.length_f } else { 1 };
    let len = i64_dec(lenv);
    let last = i64_dec(lenv - 1);
    w_bin_head(out, id.as_str(), len.as_str(), last.as_str(), s.resource().as_str(), s.has_audio);
    let ghost mid = out@;
    // Proxy wiring: `resource` is the proxy, the master rides along in
    // `originalurl`, and Kdenlive swaps back to it to render.
    match &s.proxy {
        Some(p) => {
            prop(out, "   ", "kdenlive:originalurl", s.master.as_str());
            prop(out, "   ", "kdenlive:proxy", p.as_str());
        },
        None => {},
    }
    proof {
        assert(out@ =~= mid + proxy_props(*s));
    }
    let marks = marks_on(segs, s.master.as_str());
    proof {
        lemma_marker_entries_v(marks@);
    }
    let uuid = uuid_from(s.master.as_str());
    if marks.len() > 0 {
        let mj = marker_json(marks.as_slice());
        w_bin_tail(out, uuid.as_str(), id.as_str(), s.name.as_str(), len.as_str(), Some(mj.as_str()));
    } else {
        w_bin_tail(out, uuid.as_str(), id.as_str(), s.name.as_str(), len.as_str(), None);
    }
    proof {
        assert(out@ =~= old(out)@ + sec_bin_producer(sources@, segs@, sources@[k as int]));
    }
}

#[verifier::spinoff_prover]
#[verifier::rlimit(40)]
fn w_black(out: &mut String, last: i64)
    ensures
        final(out)@ == old(out)@ + sec_black(last as int),
{
    push_str(out, "  <producer id=\"black_track\" in=\"0\" out=\"");
    push_str(out, i64_dec(last).as_str());
    push_str(out, "\">\n");
    prop(out, "   ", "length", "2147483647");
    prop(out, "   ", "eof", "continue");
    prop(out, "   ", "resource", "black");
    prop(out, "   ", "aspect_ratio", "1");
    prop(out, "   ", "mlt_service", "color");
    prop(out, "   ", "kdenlive:playlistid", "black_track");
    prop(out, "   ", "mlt_image_format", "rgba");
    prop(out, "   ", "set.test_audio", "0");
    push_str(out, "  </producer>\n");
    proof {
        assert(out@ =~= old(out)@ + sec_black(last as int));
    }
}

#[verifier::spinoff_prover]
#[verifier::rlimit(40)]
fn w_half_head(out: &mut String, id: &str, len: &str, last: &str, resource: &str, audio: bool)
    ensures
        final(out)@ == old(out)@ + half_head(id@, len@, last@, resource@, audio),
{
    push_str(out, "  <producer id=\"");
    push_str(out, if audio { "a" } else { "v" });
    push_str(out, id);
    push_str(out, "\" in=\"0\" out=\"");
    push_str(out, last);
    push_str(out, "\">\n");
    prop(out, "   ", "length", len);
    prop(out, "   ", "eof", "pause");
    prop(out, "   ", "resource", resource);
    prop(out, "   ", "mlt_service", "avformat-novalidate");
    prop(out, "   ", "seekable", "1");
    proof {
        reveal(half_head);
        assert(out@ =~= old(out)@ + half_head(id@, len@, last@, resource@, audio));
    }
}

#[verifier::spinoff_prover]
#[verifier::rlimit(40)]
fn w_half_tail(out: &mut String, uuid: &str, id: &str, audio: bool)
    ensures
        final(out)@ == old(out)@ + half_tail(uuid@, id@, audio),
{
    prop(out, "   ", "audio_index", if audio { "0" } else { "-1" });
    prop(out, "   ", "video_index", if audio { "-1" } else { "0" });
    prop(out, "   ", "mute_on_pause", "0");
    if audio {
        prop(out, "   ", "set.test_image", "1");
    } else {
        prop(out, "   ", "set.test_audio", "1");
    }
    prop(out, "   ", "kdenlive:control_uuid", uuid);
    prop(out, "   ", "kdenlive:id", id);
    push_str(out, "  </producer>\n");
    proof {
        reveal(half_tail);
        assert(out@ =~= old(out)@ + half_tail(uuid@, id@, audio));
    }
}

fn w_half(out: &mut String, sources: &[Source], k: usize, audio: bool)
    requires
        k < sources@.len(),
        sources@.len() < u64::MAX - 2,
    ensures
        final(out)@ == old(out)@ + sec_half(sources@, sources@[k as int], audio),
{
    let s = &sources[k];
    let id = u64_dec(bin_id(sources, s.master.as_str()));
    let lenv: i64 = if s.length_f >= 1 { s.length_f } else { 1 };
    let len = i64_dec(lenv);
    let last = i64_dec(lenv - 1);
    w_half_head(out, id.as_str(), len.as_str(), last.as_str(), s.resource().as_str(), audio);
    let uuid = uuid_from(s.master.as_str());
    w_half_tail(out, uuid.as_str(), id.as_str(), audio);
    proof {
        assert(out@ =~= old(out)@ + sec_half(sources@, sources@[k as int], audio));
    }
}

fn w_entry(out: &mut String, sources: &[Source], s: &Segment, tag: &str)
    requires
        sources@.len() < u64::MAX - 2,
    ensures
        final(out)@ == old(out)@ + sec_entry(sources@, *s, tag@),
{
    let id = u64_dec(bin_id(sources, s.master.as_str()));
    push_str(out, "   <entry producer=\"");
    push_str(out, tag);
    push_str(out, id.as_str());
    push_str(out, "\" in=\"");
    push_str(out, i64_dec(s.in_f).as_str());
    push_str(out, "\" out=\"");
    push_str(out, i64_dec(s.out_f).as_str());
    push_str(out, "\">\n");
    prop(out, "    ", "kdenlive:id", id.as_str());
    push_str(out, "   </entry>\n");
    proof {
        assert(out@ =~= old(out)@ + sec_entry(sources@, *s, tag@));
    }
}

#[verifier::spinoff_prover]
#[verifier::rlimit(40)]
fn w_video(out: &mut String, sources: &[Source], segs: &[Segment], last: i64)
    requires
        sources@.len() < u64::MAX - 2,
    ensures
        final(out)@ == old(out)@ + sec_video(sources@, segs@, last as int),
{
    push_str(out, "  <playlist id=\"playlist0\">\n");
    let ghost start = out@;
    let mut j: usize = 0;
    while j < segs.len()
        invariant
            j <= segs@.len(),
            sources@.len() < u64::MAX - 2,
            out@ == start + sec_video_entries(sources@, segs@, j as int),
        decreases segs@.len() - j,
    {
        w_entry(out, sources, &segs[j], "v");
        j = j + 1;
        proof {
            assert(out@ =~= start + sec_video_entries(sources@, segs@, j as int));
        }
    }
    push_str(out, "  </playlist>\n");
    push_str(out, "  <playlist id=\"playlist1\"/>\n");
    push_str(out, "  <tractor id=\"tractor0\" in=\"0\" out=\"");
    push_str(out, i64_dec(last).as_str());
    push_str(out, "\">\n");
    prop(out, "   ", "kdenlive:track_name", "V1");
    prop(out, "   ", "kdenlive:trackheight", "70");
    prop(out, "   ", "kdenlive:timeline_active", "1");
    prop(out, "   ", "kdenlive:collapsed", "0");
    push_str(out, "   <track hide=\"audio\" producer=\"playlist0\"/>\n");
    push_str(out, "   <track hide=\"audio\" producer=\"playlist1\"/>\n");
    push_str(out, "  </tractor>\n");
    proof {
        assert(out@ =~= old(out)@ + sec_video(sources@, segs@, last as int));
    }
}

fn has_audio_source(sources: &[Source], m: &str) -> (b: bool)
    ensures
        ({
            let i = source_index(sources@, m@);
            b == (i < sources@.len() && sources@[i].has_audio)
        }),
{
    let mut i: usize = 0;
    while i < sources.len() && !str_eq(sources[i].master.as_str(), m)
        invariant
            i <= sources@.len(),
            forall|j: int| 0 <= j < i ==> sources@[j].master@ != m@,
        decreases sources@.len() - i,
    {
        i = i + 1;
    }
    proof {
        lemma_source_index_at(sources@, m@, i as int);
    }
    i < sources.len() && sources[i].has_audio
}

#[verifier::spinoff_prover]
#[verifier::rlimit(40)]
fn w_audio(out: &mut String, sources: &[Source], segs: &[Segment], last: i64)
    requires
        sources@.len() < u64::MAX - 2,
        frames_fit(segs@),
    ensures
        final(out)@ == old(out)@ + sec_audio(sources@, segs@, last as int),
{
    push_str(out, "  <playlist id=\"playlist2\">\n");
    let ghost start = out@;
    let mut j: usize = 0;
    while j < segs.len()
        invariant
            j <= segs@.len(),
            sources@.len() < u64::MAX - 2,
            frames_fit(segs@),
            out@ == start + sec_audio_entries(sources@, segs@, j as int),
        decreases segs@.len() - j,
    {
        let s = &segs[j];
        let ghost before = out@;
        if has_audio_source(sources, s.master.as_str()) {
            w_entry(out, sources, s, "a");
        } else {
            proof {
                assert(i64::MIN <= segs@[j as int].out_f - segs@[j as int].in_f);
            }
            push_str(out, "   <blank length=\"");
            push_str(out, i64_dec(s.frames()).as_str());
            push_str(out, "\"/>\n");
        }
        proof {
            assert(out@ =~= before + sec_audio_entry(sources@, segs@[j as int]));
        }
        j = j + 1;
        proof {
            assert(out@ =~= start + sec_audio_entries(sources@, segs@, j as int));
        }
    }
    push_str(out, "  </playlist>\n");
    push_str(out, "  <playlist id=\"playlist3\"/>\n");
    push_str(out, "  <tractor id=\"tractor1\" in=\"0\" out=\"");
    push_str(out, i64_dec(last).as_str());
    push_str(out, "\">\n");
    prop(out, "   ", "kdenlive:audio_track", "1");
    prop(out, "   ", "kdenlive:track_name", "A1");
    prop(out, "   ", "kdenlive:trackheight", "70");
    prop(out, "   ", "kdenlive:timeline_active", "1");
    prop(out, "   ", "kdenlive:collapsed", "0");
    push_str(out, "   <track hide=\"video\" producer=\"playlist2\"/>\n");
    push_str(out, "   <track hide=\"video\" producer=\"playlist3\"/>\n");
    push_str(out, "  </tractor>\n");
    proof {
        assert(out@ =~= old(out)@ + sec_audio(sources@, segs@, last as int));
    }
}

} // verus!

verus! {

/// The ruler guides: each segment's guide at the running total before it.
fn guides_of(segs: &[Segment]) -> (r: Vec<(i64, String)>)
    requires
        frames_fit(segs@),
    ensures
        r@.map_values(|e: (i64, String)| (e.0, e.1@)) == timeline_guides(segs@),
{
    let mut r: Vec<(i64, String)> = Vec::new();
    let mut pos: i64 = 0;
    let mut j: usize = 0;
    while j < segs.len()
        invariant
            j <= segs@.len(),
            frames_fit(segs@),
            pos == frames_sum(segs@.take(j as int)),
            r@.map_values(|e: (i64, String)| (e.0, e.1@)) == timeline_guides(segs@.take(j as int)),
        decreases segs@.len() - j,
    {
        proof {
            assert(segs@.take(j + 1).drop_last() =~= segs@.take(j as int));
            assert(segs@.take(j + 1).last() == segs@[j as int]);
            assert(i64::MIN <= frames_sum(segs@.take(j + 1)) <= i64::MAX);
            assert(i64::MIN <= segs@[j as int].out_f - segs@[j as int].in_f);
        }
        let ghost before = r@;
        r.push((pos, segs[j].guide()));
        proof {
            assert(r@.map_values(|e: (i64, String)| (e.0, e.1@)) =~= before.map_values(
                |e: (i64, String)| (e.0, e.1@),
            ).push((pos, guide_spec(segs@[j as int]))));
        }
        pos = pos + segs[j].frames();
        j = j + 1;
    }
    proof {
        assert(segs@.take(j as int) =~= segs@);
    }
    r
}

/// The seed text `prefix` followed by `title`.
fn seeded(prefix: &str, title: &str) -> (s: String)
    ensures
        s@ == prefix@ + title@,
{
    let mut s = String::new();
    push_str(&mut s, prefix);
    push_str(&mut s, title);
    proof {
        assert(s@ =~= prefix@ + title@);
    }
    s
}

#[verifier::spinoff_prover]
#[verifier::rlimit(40)]
fn w_seq_props_a(out: &mut String, seq_uuid: &str, last: &str, title: &str, total: &str, doc_uuid: &str, any: bool)
    ensures
        final(out)@ == old(out)@ + seq_props_a(seq_uuid@, last@, title@, total@, doc_uuid@, any),
{
    push_str(out, "  <tractor id=\"");
    push_str(out, seq_uuid);
    push_str(out, "\" in=\"0\" out=\"");
    push_str(out, last);
    push_str(out, "\">\n");
    prop(out, "   ", "kdenlive:uuid", seq_uuid);
    prop(out, "   ", "kdenlive:clipname", title);
    prop(out, "   ", "kdenlive:producer_type", "17");
    prop(out, "   ", "kdenlive:id", "1");
    prop(out, "   ", "kdenlive:duration", total);
    prop(out, "   ", "kdenlive:maxduration", total);
    prop(out, "   ", "kdenlive:sequenceproperties.documentuuid", doc_uuid);
    prop(out, "   ", "kdenlive:sequenceproperties.hasAudio", if any { "1" } else { "0" });
    proof {
        reveal(seq_props_a);
        assert(out@ =~= old(out)@ + seq_props_a(seq_uuid@, last@, title@, total@, doc_uuid@, any));
    }
}

#[verifier::spinoff_prover]
#[verifier::rlimit(40)]
fn w_seq_props_b(out: &mut String, any: bool, guides: &str, ctl_uuid: &str)
    ensures
        final(out)@ == old(out)@ + seq_props_b(any, guides@, ctl_uuid@),
{
    prop(out, "   ", "kdenlive:sequenceproperties.hasVideo", "1");
    prop(out, "   ", "kdenlive:sequenceproperties.tracksCount", if any { "2" } else { "1" });
    prop(out, "   ", "kdenlive:sequenceproperties.activeTrack", "1");
    prop(out, "   ", "kdenlive:sequenceproperties.position", "0");
    prop(out, "   ", "kdenlive:sequenceproperties.zoom", "8");
    // The marks on the ruler. This property, on this element: the document-level
    // `guides` is a legacy upgrade target, and writing there loses them.
    prop(out, "   ", "kdenlive:sequenceproperties.guides", guides);
    prop(out, "   ", "kdenlive:sequenceproperties.groups", "[]");
    prop(out, "   ", "kdenlive:control_uuid", ctl_uuid);
    proof {
        reveal(seq_props_b);
        assert(out@ =~= old(out)@ + seq_props_b(any, guides@, ctl_uuid@));
    }
}

#[verifier::spinoff_prover]
#[verifier::rlimit(40)]
fn w_seq_tracks(out: &mut String, any: bool)
    ensures
        final(out)@ == old(out)@ + seq_tracks(any),
{
    push_str(out, "   <track producer=\"black_track\"/>\n");
    if any {
        push_str(out, "   <track producer=\"tractor1\"/>\n");
    }
    push_str(out, "   <track producer=\"tractor0\"/>\n");
    if any {
        push_str(out, "   <transition id=\"transition0\">\n");
        prop(out, "    ", "a_track", "0");
        prop(out, "    ", "b_track", "1");
        prop(out, "    ", "mlt_service", "mix");
        prop(out, "    ", "sum", "1");
        prop(out, "    ", "accepts_blanks", "1");
        prop(out, "    ", "always_active", "1");
        prop(out, "    ", "internal_added", "237");
        push_str(out, "   </transition>\n");
    }
    proof {
        reveal(seq_tracks);
        assert(out@ =~= old(out)@ + seq_tracks(any));
    }
}

#[verifier::spinoff_prover]
#[verifier::rlimit(40)]
fn w_seq_end(out: &mut String, any: bool)
    ensures
        final(out)@ == old(out)@ + seq_end(any),
{
    push_str(out, "   <transition id=\"transition1\">\n");
    prop(out, "    ", "a_track", "0");
    prop(out, "    ", "b_track", if any { "2" } else { "1" });
    prop(out, "    ", "mlt_service", "qtblend");
    prop(out, "    ", "kdenlive_id", "qtblend");
    prop(out, "    ", "always_active", "1");
    prop(out, "    ", "internal_added", "237");
    push_str(out, "   </transition>\n");
    push_str(out, "  </tractor>\n");
    proof {
        reveal(seq_end);
        assert(out@ =~= old(out)@ + seq_end(any));
    }
}

fn w_sequence(out: &mut String, title: &str, segs: &[Segment], any: bool, total: i64)
    requires
        frames_fit(segs@),
        i64::MIN < total,
    ensures
        final(out)@ == old(out)@ + sec_sequence(title@, segs@, any, total as int),
{
    let seq_uuid = uuid_from(seeded("reel/seq/", title).as_str());
    let doc_uuid = uuid_from(seeded("reel/doc/", title).as_str());
    let ctl_uuid = uuid_from(seeded("reel/ctl/", title).as_str());
    let guides = guides_of(segs);
    proof {
        lemma_marker_entries_v(guides@);
    }
    let gtext = marker_json(guides.as_slice());
    w_seq_props_a(
        out,
        seq_uuid.as_str(),
        i64_dec(total - 1).as_str(),
        title,
        i64_dec(total).as_str(),
        doc_uuid.as_str(),
        any,
    );
    w_seq_props_b(out, any, gtext.as_str(), ctl_uuid.as_str());
    w_seq_tracks(out, any);
    w_seq_end(out, any);
    proof {
        assert(out@ =~= old(out)@ + sec_sequence(title@, segs@, any, total as int));
    }
}


#[verifier::spinoff_prover]
#[verifier::rlimit(40)]
fn w_bin_props_a(out: &mut String, doc_uuid: &str, doc_id: &str, profile_id: Option<&str>)
    ensures
        final(out)@ == old(out)@ + bin_props_a(doc_uuid@, doc_id@, crate::media::opt_str(profile_id)),
{
    push_str(out, "  <playlist id=\"main_bin\">\n");
    prop(out, "   ", "kdenlive:docproperties.version", "1.1");
    prop(out, "   ", "kdenlive:docproperties.patchversion", "1");
    prop(out, "   ", "kdenlive:docproperties.uuid", doc_uuid);
    prop(out, "   ", "kdenlive:docproperties.documentid", doc_id);
    match profile_id {
        Some(id) => prop(out, "   ", "kdenlive:docproperties.profile", id),
        None => {},
    }
    proof {
        reveal(bin_props_a);
        assert(out@ =~= old(out)@ + bin_props_a(doc_uuid@, doc_id@, crate::media::opt_str(profile_id)));
    }
}

#[verifier::spinoff_prover]
#[verifier::rlimit(40)]
fn w_bin_props_b(out: &mut String, seq_uuid: &str, proxies: bool)
    ensures
        final(out)@ == old(out)@ + bin_props_b(seq_uuid@, proxies),
{
    prop(out, "   ", "kdenlive:docproperties.activetimeline", seq_uuid);
    prop(out, "   ", "kdenlive:docproperties.opensequences", seq_uuid);
    prop(out, "   ", "kdenlive:docproperties.audioChannels", "2");
    // Proxies are on when any were found, so Kdenlive uses them; it is never asked
    // to build its own.
    prop(out, "   ", "kdenlive:docproperties.enableproxy", if proxies { "1" } else { "0" });
    prop(out, "   ", "kdenlive:docproperties.generateproxy", "0");
    prop(out, "   ", "kdenlive:docproperties.enableexternalproxy", "0");
    prop(out, "   ", "kdenlive:docproperties.generateimageproxy", "0");
    prop(out, "   ", "kdenlive:sequenceFolder", "-1");
    prop(out, "   ", "xml_retain", "1");
    proof {
        reveal(bin_props_b);
        assert(out@ =~= old(out)@ + bin_props_b(seq_uuid@, proxies));
    }
}

fn w_bin(out: &mut String, title: &str, profile_id: Option<&str>, sources: &[Source], total: i64)
    requires
        sources@.len() < u64::MAX - 2,
        i64::MIN < total,
    ensures
        final(out)@ == old(out)@ + sec_bin(title@, crate::media::opt_str(profile_id), sources@, total as int),
{
    let seq_uuid = uuid_from(seeded("reel/seq/", title).as_str());
    let doc_uuid = uuid_from(seeded("reel/doc/", title).as_str());
    w_bin_props_a(out, doc_uuid.as_str(), doc_id(title).as_str(), profile_id);
    w_bin_props_b(out, seq_uuid.as_str(), any_proxy(sources));
    let ghost start = out@;
    let mut k: usize = 0;
    while k < sources.len()
        invariant
            k <= sources@.len(),
            sources@.len() < u64::MAX - 2,
            out@ == start + sec_bin_entries(sources@, k as int),
        decreases sources@.len() - k,
    {
        let s = &sources[k];
        let lenv: i64 = if s.length_f >= 1 { s.length_f } else { 1 };
        push_str(out, "   <entry producer=\"bin");
        push_str(out, u64_dec(bin_id(sources, s.master.as_str())).as_str());
        push_str(out, "\" in=\"0\" out=\"");
        push_str(out, i64_dec(lenv - 1).as_str());
        push_str(out, "\"/>\n");
        k = k + 1;
        proof {
            assert(out@ =~= start + sec_bin_entries(sources@, k as int));
        }
    }
    push_str(out, "   <entry producer=\"");
    push_str(out, seq_uuid.as_str());
    push_str(out, "\" in=\"0\" out=\"");
    push_str(out, i64_dec(total - 1).as_str());
    push_str(out, "\"/>\n");
    push_str(out, "  </playlist>\n");
    proof {
        assert(out@ =~= old(out)@ + sec_bin(title@, crate::media::opt_str(profile_id), sources@, total as int));
    }
}

fn w_project(out: &mut String, title: &str, total: i64)
    requires
        i64::MIN < total,
    ensures
        final(out)@ == old(out)@ + sec_project(title@, total as int),
{
    let seq_uuid = uuid_from(seeded("reel/seq/", title).as_str());
    let last = i64_dec(total - 1);
    push_str(out, "  <tractor id=\"projecttractor\" in=\"0\" out=\"");
    push_str(out, last.as_str());
    push_str(out, "\">\n");
    prop(out, "   ", "kdenlive:projectTractor", "1");
    push_str(out, "   <track producer=\"");
    push_str(out, seq_uuid.as_str());
    push_str(out, "\" in=\"0\" out=\"");
    push_str(out, last.as_str());
    push_str(out, "\"/>\n");
    push_str(out, "  </tractor>\n");
    push_str(out, "</mlt>\n");
    proof {
        assert(out@ =~= old(out)@ + sec_project(title@, total as int));
    }
}

/// The whole `.kdenlive` project for a cut: pure text, no filesystem, so its
/// frame arithmetic can be checked without rendering a video. `sources` carries
/// each master's full length, so every bin clip spans its whole file and its edges
/// can be dragged outward in Kdenlive.
#[verifier::spinoff_prover]
#[verifier::rlimit(100)]
pub fn timeline_xml(
    title: &str,
    root: &str,
    profile: &Profile,
    profile_id: Option<&str>,
    sources: &[Source],
    segs: &[Segment],
) -> (x: String)
    requires
        sources@.len() < u64::MAX - 2,
        frames_fit(segs@),
    ensures
        x@ == timeline_text(title@, root@, *profile, crate::media::opt_str(profile_id), sources@, segs@),
{
    let total = total_frames(segs);
    let last = total - 1;
    let any = any_audio(sources);
    let mut x = String::new();
    w_header(&mut x, title, root);
    w_profile(&mut x, profile);
    let ghost a = x@;
    let mut k: usize = 0;
    while k < sources.len()
        invariant
            k <= sources@.len(),
            sources@.len() < u64::MAX - 2,
            x@ == a + sec_bin_producers(sources@, segs@, k as int),
        decreases sources@.len() - k,
    {
        w_bin_producer(&mut x, sources, segs, k);
        k = k + 1;
    }
    w_black(&mut x, last);
    let ghost b = x@;
    let mut k: usize = 0;
    while k < sources.len()
        invariant
            k <= sources@.len(),
            sources@.len() < u64::MAX - 2,
            x@ == b + sec_halves(sources@, k as int),
        decreases sources@.len() - k,
    {
        let ghost before = x@;
        w_half(&mut x, sources, k, false);
        // A silent master gets no audio half at all.
        if sources[k].has_audio {
            w_half(&mut x, sources, k, true);
        }
        proof {
            assert(x@ =~= before + sec_half(sources@, sources@[k as int], false) + (if sources@[k as int].has_audio {
                sec_half(sources@, sources@[k as int], true)
            } else {
                Seq::empty()
            }));
        }
        k = k + 1;
    }
    w_video(&mut x, sources, segs, last);
    if any {
        w_audio(&mut x, sources, segs, last);
    }
    let ghost c = x@;
    w_sequence(&mut x, title, segs, any, total);
    w_bin(&mut x, title, profile_id, sources, total);
    w_project(&mut x, title, total);
    proof {
        assert(x@ =~= timeline_text(title@, root@, *profile, crate::media::opt_str(profile_id), sources@, segs@));
    }
    x
}


/// A segment's clip name: the master's file name, or `clip` when it has none.
pub open spec fn seg_name_spec(master: Seq<char>) -> Seq<char> {
    let f = file_name_spec(master);
    if f.len() == 0 || f == ".."@ { "clip"@ } else { f }
}

/// The segment a mark becomes, given where its start and (exclusive) end fall as
/// frame indices at the master's rate: the start clamped to the master's last
/// frame, the inclusive out one frame before the end, kept between the start and
/// that last frame, so it is never past the media and never inverted.
pub open spec fn segment_spec(start_f: i64, end_f: i64, length_f: i64) -> (int, int) {
    let last: int = if length_f - 1 >= 0 { length_f - 1 } else { 0 };
    let in_f: int = if start_f < last { start_f as int } else { last };
    let e: int = end_f - 1;
    let out_f: int = if e < in_f { in_f } else if e > last { last } else { e };
    (in_f, out_f)
}

pub fn segment_of(master: &str, label: &str, start_f: i64, end_f: i64, length_f: i64) -> (s: Segment)
    requires
        start_f >= 0,
        end_f >= 0,
        length_f >= 1,
    ensures
        s.master@ == master@,
        s.name@ == seg_name_spec(master@),
        s.label@ == label@,
        s.in_f == segment_spec(start_f, end_f, length_f).0,
        s.out_f == segment_spec(start_f, end_f, length_f).1,
{
    let f = file_name(master);
    let name = if f.as_str().unicode_len() == 0 || str_eq(f.as_str(), "..") {
        proof {
            reveal_strlit("..");
        }
        "clip".to_string()
    } else {
        proof {
            reveal_strlit("..");
        }
        f
    };
    proof {
        reveal_strlit("clip");
    }
    let last: i64 = if length_f - 1 >= 0 { length_f - 1 } else { 0 };
    let in_f: i64 = if start_f < last { start_f } else { last };
    let e: i64 = end_f - 1;
    let out_f: i64 = if e < in_f { in_f } else if e > last { last } else { e };
    Segment { master: master.to_string(), name, label: label.to_string(), in_f, out_f }
}

} // verus!

verus! {

/// The indices of the segments whose master no earlier segment uses: the bin, in
/// first-use order.
pub open spec fn first_uses(segs: Seq<Segment>) -> Seq<int>
    decreases segs.len(),
{
    if segs.len() == 0 {
        Seq::empty()
    } else {
        let before = first_uses(segs.drop_last());
        let n = segs.len() - 1;
        if exists|j: int| 0 <= j < n && (#[trigger] segs[j]).master@ == segs[n].master@ {
            before
        } else {
            before.push(n)
        }
    }
}

pub fn bin_order(segs: &[Segment]) -> (r: Vec<usize>)
    ensures
        r@.map_values(|i: usize| i as int) == first_uses(segs@),
{
    let mut r: Vec<usize> = Vec::new();
    let mut i: usize = 0;
    while i < segs.len()
        invariant
            i <= segs@.len(),
            r@.map_values(|k: usize| k as int) == first_uses(segs@.take(i as int)),
        decreases segs@.len() - i,
    {
        let ghost pre = segs@.take(i + 1);
        proof {
            assert(pre.drop_last() =~= segs@.take(i as int));
            assert(pre.last() == segs@[i as int]);
        }
        let mut j: usize = 0;
        let mut seen = false;
        while j < i
            invariant
                j <= i < segs@.len(),
                seen == exists|k: int| 0 <= k < j && (#[trigger] segs@[k]).master@ == segs@[i as int].master@,
            decreases i - j,
        {
            if str_eq(segs[j].master.as_str(), segs[i].master.as_str()) {
                seen = true;
            }
            j = j + 1;
        }
        proof {
            assert(seen == exists|k: int| 0 <= k < i && (#[trigger] pre[k]).master@ == pre[i as int].master@) by {
                if seen {
                    let k = choose|k: int| 0 <= k < i && (#[trigger] segs@[k]).master@ == segs@[i as int].master@;
                    assert(pre[k] == segs@[k]);
                }
                if exists|k: int| 0 <= k < i && (#[trigger] pre[k]).master@ == pre[i as int].master@ {
                    let k = choose|k: int| 0 <= k < i && (#[trigger] pre[k]).master@ == pre[i as int].master@;
                    assert(pre[k] == segs@[k]);
                }
            }
        }
        if !seen {
            let ghost r0 = r@.map_values(|k: usize| k as int);
            r.push(i);
            proof {
                assert(r@.map_values(|k: usize| k as int) =~= r0.push(i as int));
            }
        }
        i = i + 1;
    }
    proof {
        assert(segs@.take(i as int) =~= segs@);
    }
    r
}

/// A segment's master as a bin source: its full length in frames as probed, but
/// never shorter than the segment reaches (`out + 1`), with sound when the probe
/// found some, and its cached review proxy when one exists.
pub fn source_for(seg: &Segment, probed_len: Option<i64>, has_audio: Option<bool>, proxy: Option<String>) -> (s: Source)
    requires
        seg.out_f < i64::MAX,
    ensures
        s.master@ == seg.master@,
        s.name@ == seg.name@,
        s.length_f == ({
            let reach = seg.out_f + 1;
            let l = match probed_len {
                Some(n) => n as int,
                None => reach,
            };
            if l >= reach { l } else { reach }
        }),
        s.has_audio == (has_audio == Some(true)),
        s.proxy == proxy,
{
    let reach = seg.out_f + 1;
    let l = match probed_len {
        Some(n) => n,
        None => reach,
    };
    Source {
        master: seg.master.clone(),
        name: seg.name.clone(),
        length_f: if l >= reach { l } else { reach },
        has_audio: match has_audio {
            Some(b) => b,
            None => false,
        },
        proxy,
    }
}

/// Why a timeline is not built for a (validly named) trip, if it is not: no such
/// trip, no marks, or none of the marks' footage on disk.
pub open spec fn timeline_refusal(trip: Seq<char>, is_trip: bool, marks: nat, segments: nat) -> Option<Seq<char>> {
    if !is_trip {
        Some("no such trip: "@ + trip)
    } else if marks == 0 {
        Some("no marks in '"@ + trip + "' — review it first"@)
    } else if segments == 0 {
        Some("no footage behind the marks in '"@ + trip
            + "' — the raw is archived or missing, so there's nothing to build a timeline from. Restore it first."@)
    } else {
        None
    }
}

pub fn timeline_check(trip: &str, is_trip: bool, marks: usize, segments: usize) -> (r: Result<(), String>)
    ensures
        match r {
            Ok(()) => timeline_refusal(trip@, is_trip, marks as nat, segments as nat) is None,
            Err(e) => timeline_refusal(trip@, is_trip, marks as nat, segments as nat) == Some(e@),
        },
{
    if !is_trip {
        let mut e = "no such trip: ".to_string();
        push_str(&mut e, trip);
        return Err(e);
    }
    if marks == 0 {
        let mut e = "no marks in '".to_string();
        push_str(&mut e, trip);
        push_str(&mut e, "' — review it first");
        return Err(e);
    }
    if segments == 0 {
        let mut e = "no footage behind the marks in '".to_string();
        push_str(&mut e, trip);
        push_str(
            &mut e,
            "' — the raw is archived or missing, so there's nothing to build a timeline from. Restore it first.",
        );
        return Err(e);
    }
    Ok(())
}

/// A trip's project title: `reel: <trip>`.
pub fn project_title(trip: &str) -> (t: String)
    ensures
        t@ == "reel: "@ + trip@,
{
    let mut t = "reel: ".to_string();
    push_str(&mut t, trip);
    t
}

/// Where a trip's project is written: `<trip folder>/<trip>.kdenlive`.
pub fn project_path(dir: &str, trip: &str) -> (p: String)
    ensures
        p@ == crate::paths::join_spec(dir@, trip@ + ".kdenlive"@),
{
    let mut name = trip.to_string();
    push_str(&mut name, ".kdenlive");
    crate::paths::join(dir, name.as_str())
}

} // verus!

verus! {

/// A mark's segment never runs past its master's last frame and is never
/// inverted: a master of `length_f` frames (at least one) gives
/// `0 <= in <= out <= length_f - 1` whenever the mark starts at or after frame 0,
/// so even a zero-width mark is a one-frame clip.
pub proof fn lemma_segment_in_media(start_f: i64, end_f: i64, length_f: i64)
    requires
        length_f >= 1,
        start_f >= 0,
        end_f > i64::MIN,
    ensures
        0 <= segment_spec(start_f, end_f, length_f).0 <= segment_spec(start_f, end_f, length_f).1 <= length_f - 1,
{
}

/// `w` occurs somewhere in `t`.
pub open spec fn occurs(t: Seq<char>, w: Seq<char>) -> bool {
    exists|i: int| 0 <= i && i + w.len() <= t.len() && #[trigger] t.subrange(i, i + w.len()) == w
}

proof fn lemma_occurs_self(w: Seq<char>)
    ensures
        occurs(w, w),
{
    assert(w.subrange(0int, 0int + w.len()) =~= w);
}

proof fn lemma_occurs_in(a: Seq<char>, t: Seq<char>, b: Seq<char>, w: Seq<char>)
    requires
        occurs(t, w),
    ensures
        occurs(a + t, w),
        occurs(t + b, w),
        occurs(a + t + b, w),
{
    let i = choose|i: int| 0 <= i && i + w.len() <= t.len() && #[trigger] t.subrange(i, i + w.len()) == w;
    assert((a + t).subrange(a.len() + i, a.len() + i + w.len()) =~= w);
    assert((t + b).subrange(i, i + w.len()) =~= w);
    assert((a + t + b).subrange(a.len() + i, a.len() + i + w.len()) =~= w);
}

proof fn lemma_producers_hold(sources: Seq<Source>, segs: Seq<Segment>, k: int, i: int)
    requires
        0 <= i < k <= sources.len(),
    ensures
        occurs(sec_bin_producers(sources, segs, k), sec_bin_producer(sources, segs, sources[i])),
    decreases k,
{
    let pre = sec_bin_producers(sources, segs, k - 1);
    let last = sec_bin_producer(sources, segs, sources[k - 1]);
    if i == k - 1 {
        lemma_occurs_self(last);
        lemma_occurs_in(pre, last, Seq::empty(), last);
    } else {
        lemma_producers_hold(sources, segs, k - 1, i);
        lemma_occurs_in(Seq::empty(), pre, last, sec_bin_producer(sources, segs, sources[i]));
    }
}

/// What occurs in the bin producers occurs in the whole project text.
#[verifier::spinoff_prover]
#[verifier::rlimit(40)]
proof fn lemma_text_holds_producers(
    title: Seq<char>,
    root: Seq<char>,
    profile: Profile,
    profile_id: Option<Seq<char>>,
    sources: Seq<Source>,
    segs: Seq<Segment>,
    w: Seq<char>,
)
    requires
        occurs(sec_bin_producers(sources, segs, sources.len() as int), w),
    ensures
        occurs(timeline_text(title, root, profile, profile_id, sources, segs), w),
{
    let total = total_spec(segs);
    let any = any_audio_spec(sources);
    let x1 = sec_header(title, root) + sec_profile(profile) + sec_bin_producers(sources, segs, sources.len() as int);
    lemma_occurs_in(sec_header(title, root) + sec_profile(profile), sec_bin_producers(sources, segs, sources.len() as int), Seq::empty(), w);
    let x2 = x1 + sec_black(total - 1);
    lemma_occurs_in(Seq::empty(), x1, sec_black(total - 1), w);
    let x3 = x2 + sec_halves(sources, sources.len() as int);
    lemma_occurs_in(Seq::empty(), x2, sec_halves(sources, sources.len() as int), w);
    let x4 = x3 + sec_video(sources, segs, total - 1);
    lemma_occurs_in(Seq::empty(), x3, sec_video(sources, segs, total - 1), w);
    let au = if any { sec_audio(sources, segs, total - 1) } else { Seq::empty() };
    let x5 = x4 + au;
    lemma_occurs_in(Seq::empty(), x4, au, w);
    let x6 = x5 + sec_sequence(title, segs, any, total);
    lemma_occurs_in(Seq::empty(), x5, sec_sequence(title, segs, any, total), w);
    let x7 = x6 + sec_bin(title, profile_id, sources, total);
    lemma_occurs_in(Seq::empty(), x6, sec_bin(title, profile_id, sources, total), w);
    let x8 = x7 + sec_project(title, total);
    lemma_occurs_in(Seq::empty(), x7, sec_project(title, total), w);
    assert(timeline_text(title, root, profile, profile_id, sources, segs) == x8);
}

/// A source with a proxy is wired to it: the project names the proxy and, as its
/// original, the master.
#[verifier::spinoff_prover]
#[verifier::rlimit(40)]
pub proof fn lemma_proxy_wired(
    title: Seq<char>,
    root: Seq<char>,
    profile: Profile,
    profile_id: Option<Seq<char>>,
    sources: Seq<Source>,
    segs: Seq<Segment>,
    i: int,
)
    requires
        0 <= i < sources.len(),
        sources[i].proxy is Some,
    ensures
        occurs(
            timeline_text(title, root, profile, profile_id, sources, segs),
            prop_text("   "@, "kdenlive:proxy"@, sources[i].proxy.unwrap()@),
        ),
        occurs(
            timeline_text(title, root, profile, profile_id, sources, segs),
            prop_text("   "@, "kdenlive:originalurl"@, sources[i].master@),
        ),
{
    let s = sources[i];
    let p = s.proxy.unwrap();
    let a = prop_text("   "@, "kdenlive:originalurl"@, s.master@);
    let b = prop_text("   "@, "kdenlive:proxy"@, p@);
    assert(proxy_props(s) == a + b);
    let id = dec(bin_id_spec(sources, s.master@));
    let len = dec_i(src_len(s));
    let marks = source_marks(segs, s.master@);
    let head = bin_head(id, len, dec_i(src_len(s) - 1), resource_spec(s), s.has_audio);
    let tail = bin_tail(
        uuid_spec(s.master@),
        id,
        s.name@,
        len,
        if marks.len() > 0 { Some(markers_text(marks)) } else { None },
    );
    assert(sec_bin_producer(sources, segs, s) == head + (a + b) + tail);
    lemma_producers_hold(sources, segs, sources.len() as int, i);
    lemma_occurs_self(b);
    lemma_occurs_in(a, b, Seq::empty(), b);
    lemma_occurs_in(head, a + b, tail, b);
    assert(occurs(sec_bin_producers(sources, segs, sources.len() as int), b)) by {
        let sp = sec_bin_producer(sources, segs, s);
        let j = choose|j: int| 0 <= j && j + sp.len() <= sec_bin_producers(sources, segs, sources.len() as int).len()
            && #[trigger] sec_bin_producers(sources, segs, sources.len() as int).subrange(j, j + sp.len()) == sp;
        let k = choose|k: int| 0 <= k && k + b.len() <= sp.len() && #[trigger] sp.subrange(k, k + b.len()) == b;
        assert(sec_bin_producers(sources, segs, sources.len() as int).subrange(j + k, j + k + b.len()) =~= b);
    }
    lemma_text_holds_producers(title, root, profile, profile_id, sources, segs, b);
    lemma_occurs_self(a);
    lemma_occurs_in(Seq::empty(), a, b, a);
    lemma_occurs_in(head, a + b, tail, a);
    assert(occurs(sec_bin_producers(sources, segs, sources.len() as int), a)) by {
        let sp = sec_bin_producer(sources, segs, s);
        let j = choose|j: int| 0 <= j && j + sp.len() <= sec_bin_producers(sources, segs, sources.len() as int).len()
            && #[trigger] sec_bin_producers(sources, segs, sources.len() as int).subrange(j, j + sp.len()) == sp;
        let k = choose|k: int| 0 <= k && k + a.len() <= sp.len() && #[trigger] sp.subrange(k, k + a.len()) == a;
        assert(sec_bin_producers(sources, segs, sources.len() as int).subrange(j + k, j + k + a.len()) =~= a);
    }
    lemma_text_holds_producers(title, root, profile, profile_id, sources, segs, a);
}

/// The project's proxy switch is on exactly when some source has a proxy: its
/// `kdenlive:docproperties.enableproxy` property reads `1` then and `0` otherwise.
#[verifier::spinoff_prover]
#[verifier::rlimit(40)]
pub proof fn lemma_proxy_switch(
    title: Seq<char>,
    root: Seq<char>,
    profile: Profile,
    profile_id: Option<Seq<char>>,
    sources: Seq<Source>,
    segs: Seq<Segment>,
)
    ensures
        occurs(
            timeline_text(title, root, profile, profile_id, sources, segs),
            prop_text(
                "   "@,
                "kdenlive:docproperties.enableproxy"@,
                if any_proxy_spec(sources) { "1"@ } else { "0"@ },
            ),
        ),
{
    reveal(bin_props_b);
    let total = total_spec(segs);
    let any = any_audio_spec(sources);
    let w = prop_text(
        "   "@,
        "kdenlive:docproperties.enableproxy"@,
        if any_proxy_spec(sources) { "1"@ } else { "0"@ },
    );
    let seq_uuid = uuid_spec("reel/seq/"@ + title);
    let pa = prop_text("   "@, "kdenlive:docproperties.activetimeline"@, seq_uuid) + prop_text(
        "   "@,
        "kdenlive:docproperties.opensequences"@,
        seq_uuid,
    ) + prop_text("   "@, "kdenlive:docproperties.audioChannels"@, "2"@);
    let pb = prop_text("   "@, "kdenlive:docproperties.generateproxy"@, "0"@) + prop_text(
        "   "@,
        "kdenlive:docproperties.enableexternalproxy"@,
        "0"@,
    ) + prop_text("   "@, "kdenlive:docproperties.generateimageproxy"@, "0"@) + prop_text(
        "   "@,
        "kdenlive:sequenceFolder"@,
        "-1"@,
    ) + prop_text("   "@, "xml_retain"@, "1"@);
    let props = bin_props_b(seq_uuid, any_proxy_spec(sources));
    assert(props =~= pa + w + pb);
    lemma_occurs_self(w);
    lemma_occurs_in(pa, w, pb, w);
    lemma_bin_holds_props(title, profile_id, sources, total, w);
    lemma_text_holds_bin(title, root, profile, profile_id, sources, segs, w);
}

#[verifier::spinoff_prover]
#[verifier::rlimit(40)]
proof fn lemma_bin_holds_props(title: Seq<char>, profile_id: Option<Seq<char>>, sources: Seq<Source>, total: int, w: Seq<char>)
    requires
        occurs(bin_props_b(uuid_spec("reel/seq/"@ + title), any_proxy_spec(sources)), w),
    ensures
        occurs(sec_bin(title, profile_id, sources, total), w),
{
    let seq_uuid = uuid_spec("reel/seq/"@ + title);
    let props = bin_props_b(seq_uuid, any_proxy_spec(sources));
    let a = bin_props_a(uuid_spec("reel/doc/"@ + title), doc_id_spec(title), profile_id);
    let y1 = a + props;
    lemma_occurs_in(a, props, Seq::empty(), w);
    let y2 = y1 + sec_bin_entries(sources, sources.len() as int);
    lemma_occurs_in(Seq::empty(), y1, sec_bin_entries(sources, sources.len() as int), w);
    let y3 = y2 + "   <entry producer=\""@;
    lemma_occurs_in(Seq::empty(), y2, "   <entry producer=\""@, w);
    let y4 = y3 + seq_uuid;
    lemma_occurs_in(Seq::empty(), y3, seq_uuid, w);
    let y5 = y4 + "\" in=\"0\" out=\""@;
    lemma_occurs_in(Seq::empty(), y4, "\" in=\"0\" out=\""@, w);
    let y6 = y5 + dec_i(total - 1);
    lemma_occurs_in(Seq::empty(), y5, dec_i(total - 1), w);
    let y7 = y6 + "\"/>\n"@;
    lemma_occurs_in(Seq::empty(), y6, "\"/>\n"@, w);
    let y8 = y7 + "  </playlist>\n"@;
    lemma_occurs_in(Seq::empty(), y7, "  </playlist>\n"@, w);
    assert(sec_bin(title, profile_id, sources, total) == y8);
}

#[verifier::spinoff_prover]
#[verifier::rlimit(40)]
proof fn lemma_text_holds_bin(
    title: Seq<char>,
    root: Seq<char>,
    profile: Profile,
    profile_id: Option<Seq<char>>,
    sources: Seq<Source>,
    segs: Seq<Segment>,
    w: Seq<char>,
)
    requires
        occurs(sec_bin(title, profile_id, sources, total_spec(segs)), w),
    ensures
        occurs(timeline_text(title, root, profile, profile_id, sources, segs), w),
{
    let total = total_spec(segs);
    let any = any_audio_spec(sources);
    let x7 = sec_header(title, root) + sec_profile(profile) + sec_bin_producers(sources, segs, sources.len() as int)
        + sec_black(total - 1) + sec_halves(sources, sources.len() as int) + sec_video(sources, segs, total - 1)
        + (if any { sec_audio(sources, segs, total - 1) } else { Seq::empty() }) + sec_sequence(title, segs, any, total);
    lemma_occurs_in(x7, sec_bin(title, profile_id, sources, total), sec_project(title, total), w);
    assert(timeline_text(title, root, profile, profile_id, sources, segs) == x7 + sec_bin(title, profile_id, sources, total) + sec_project(title, total));
}

proof fn lemma_guides_at(segs: Seq<Segment>)
    ensures
        timeline_guides(segs).len() == segs.len(),
        forall|k: int|
            0 <= k < segs.len() ==> #[trigger] timeline_guides(segs)[k] == (frames_sum(segs.take(k)) as i64, guide_spec(
                segs[k],
            )),
    decreases segs.len(),
{
    if segs.len() > 0 {
        let pre = segs.drop_last();
        lemma_guides_at(pre);
        assert forall|k: int| 0 <= k < segs.len() implies #[trigger] timeline_guides(segs)[k] == (frames_sum(
            segs.take(k),
        ) as i64, guide_spec(segs[k])) by {
            if k < pre.len() {
                assert(pre.take(k) =~= segs.take(k));
                assert(pre[k] == segs[k]);
            } else {
                assert(segs.take(k) =~= pre);
            }
        }
    }
}

/// Each ruler guide sits where its piece starts in the edit: the first at frame
/// 0, and each next one after the frames of the piece before it (its out frame
/// minus its in frame, plus one). There is one guide per piece, carrying that
/// piece's guide text.
pub proof fn lemma_guide_positions(segs: Seq<Segment>)
    requires
        frames_fit(segs),
    ensures
        timeline_guides(segs).len() == segs.len(),
        segs.len() > 0 ==> timeline_guides(segs)[0].0 == 0,
        forall|k: int|
            0 <= k < segs.len() - 1 ==> #[trigger] timeline_guides(segs)[k + 1].0 == timeline_guides(segs)[k].0 + (
            segs[k].out_f - segs[k].in_f + 1),
        forall|k: int| 0 <= k < segs.len() ==> (#[trigger] timeline_guides(segs)[k]).1 == guide_spec(segs[k]),
{
    lemma_guides_at(segs);
    if segs.len() > 0 {
        assert(segs.take(0) =~= Seq::<Segment>::empty());
        assert(frames_sum(segs.take(0)) == 0);
    }
    assert forall|k: int| 0 <= k < segs.len() - 1 implies #[trigger] timeline_guides(segs)[k + 1].0
        == timeline_guides(segs)[k].0 + (segs[k].out_f - segs[k].in_f + 1) by {
        assert(segs.take(k + 1).drop_last() =~= segs.take(k));
        assert(segs.take(k + 1).last() == segs[k]);
        assert(i64::MIN <= frames_sum(segs.take(k)) <= i64::MAX);
        assert(i64::MIN <= frames_sum(segs.take(k + 1)) <= i64::MAX);
        assert(timeline_guides(segs)[k].0 == frames_sum(segs.take(k)));
        assert(timeline_guides(segs)[k + 1].0 == frames_sum(segs.take(k + 1)));
    }
}

} // verus!
