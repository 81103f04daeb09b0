//! Character-level text helpers the engine's parsers and formatters share.
use vstd::prelude::*;

verus! {

/// `String::push` appends one character.
pub assume_specification[ String::push ](s: &mut String, ch: char)
    ensures
        final(s)@ == old(s)@.push(ch),
;

/// The characters of `s`, in order.
pub fn chars_of(s: &str) -> (v: Vec<char>)
    ensures
        v@ == s@,
{
    let n = s.unicode_len();
    let mut v: Vec<char> = Vec::new();
    let mut i: usize = 0;
    while i < n
        invariant
            n == s@.len(),
            i <= n,
            v@ == s@.subrange(0, i as int),
        decreases n - i,
    {
        let c = s.get_char(i);
        v.push(c);
        i = i + 1;
        assert(v@ =~= s@.subrange(0, i as int));
    }
    assert(v@ =~= s@);
    v
}

/// A `String` holding exactly `v`.
pub fn string_of(v: &[char]) -> (s: String)
    ensures
        s@ == v@,
{
    let mut s = String::new();
    let mut i: usize = 0;
    while i < v.len()
        invariant
            i <= v@.len(),
            s@ == v@.subrange(0, i as int),
        decreases v@.len() - i,
    {
        s.push(v[i]);
        i = i + 1;
        assert(s@ =~= v@.subrange(0, i as int));
    }
    assert(s@ =~= v@);
    s
}

pub open spec fn is_digit(c: char) -> bool {
    '0' <= c && c <= '9'
}

pub fn char_is_digit(c: char) -> (b: bool)
    ensures
        b == is_digit(c),
{
    '0' <= c && c <= '9'
}

} // verus!

verus! {

/// Strict lexicographic order on character sequences. UTF-8 preserves code point
/// order byte-for-byte, so this is exactly the order `String`'s `Ord` gives.
pub open spec fn lex_lt(a: Seq<char>, b: Seq<char>) -> bool
    decreases a.len(),
{
    if b.len() == 0 {
        false
    } else if a.len() == 0 {
        true
    } else if a[0] != b[0] {
        a[0] < b[0]
    } else {
        lex_lt(a.drop_first(), b.drop_first())
    }
}

pub proof fn lemma_lex_irreflexive(a: Seq<char>)
    ensures
        !lex_lt(a, a),
    decreases a.len(),
{
    if a.len() > 0 {
        lemma_lex_irreflexive(a.drop_first());
    }
}

pub proof fn lemma_lex_transitive(a: Seq<char>, b: Seq<char>, c: Seq<char>)
    requires
        lex_lt(a, b),
        lex_lt(b, c),
    ensures
        lex_lt(a, c),
    decreases a.len(),
{
    if a.len() > 0 && b.len() > 0 && c.len() > 0 {
        if a[0] == b[0] && b[0] == c[0] {
            lemma_lex_transitive(a.drop_first(), b.drop_first(), c.drop_first());
        }
    }
}

pub proof fn lemma_lex_total(a: Seq<char>, b: Seq<char>)
    requires
        a != b,
    ensures
        lex_lt(a, b) || lex_lt(b, a),
    decreases a.len(),
{
    if a.len() > 0 && b.len() > 0 && a[0] == b[0] {
        if a.drop_first() == b.drop_first() {
            assert(a =~= seq![a[0]] + a.drop_first());
            assert(b =~= seq![b[0]] + b.drop_first());
        }
        lemma_lex_total(a.drop_first(), b.drop_first());
    } else if a.len() == 0 && b.len() == 0 {
        assert(a =~= b);
    }
}

/// Three-way comparison of two character sequences: -1, 0 or 1.
pub fn lex_order(a: &[char], b: &[char]) -> (r: i8)
    ensures
        r == -1 <==> lex_lt(a@, b@),
        r == 0 <==> a@ == b@,
        r == 1 <==> lex_lt(b@, a@),
        -1 <= r <= 1,
{
    let mut i: usize = 0;
    assert(a@.subrange(0, 0) =~= b@.subrange(0, 0));
    assert(a@.subrange(0, a@.len() as int) =~= a@);
    assert(b@.subrange(0, b@.len() as int) =~= b@);
    while i < a.len() && i < b.len()
        invariant
            i <= a@.len(),
            i <= b@.len(),
            a@.subrange(0, i as int) == b@.subrange(0, i as int),
            lex_lt(a@, b@) == lex_lt(a@.subrange(i as int, a@.len() as int), b@.subrange(i as int, b@.len() as int)),
            lex_lt(b@, a@) == lex_lt(b@.subrange(i as int, b@.len() as int), a@.subrange(i as int, a@.len() as int)),
        decreases a@.len() - i,
    {
        if a[i] != b[i] {
            proof {
                let sa = a@.subrange(i as int, a@.len() as int);
                let sb = b@.subrange(i as int, b@.len() as int);
                assert(sa[0] == a@[i as int]);
                assert(sb[0] == b@[i as int]);
                if a@ == b@ {
                    assert(a@[i as int] == b@[i as int]);
                }
            }
            if a[i] < b[i] {
                return -1;
            } else {
                return 1;
            }
        }
        proof {
            let sa = a@.subrange(i as int, a@.len() as int);
            let sb = b@.subrange(i as int, b@.len() as int);
            assert(sa.drop_first() =~= a@.subrange(i + 1, a@.len() as int));
            assert(sb.drop_first() =~= b@.subrange(i + 1, b@.len() as int));
            assert(a@.subrange(0, i + 1) =~= a@.subrange(0, i as int).push(a@[i as int]));
            assert(b@.subrange(0, i + 1) =~= b@.subrange(0, i as int).push(b@[i as int]));
        }
        i = i + 1;
    }
    proof {
        let sa = a@.subrange(i as int, a@.len() as int);
        let sb = b@.subrange(i as int, b@.len() as int);
        if a@.len() == b@.len() {
            assert(a@ =~= a@.subrange(0, i as int));
            assert(b@ =~= b@.subrange(0, i as int));
        } else {
            if a@ == b@ {
                assert(false);
            }
        }
    }
    if a.len() == b.len() {
        0
    } else if a.len() < b.len() {
        -1
    } else {
        1
    }
}

/// Whether two texts are the same characters.
pub fn str_eq(a: &str, b: &str) -> (r: bool)
    ensures
        r == (a@ == b@),
{
    let va = chars_of(a);
    let vb = chars_of(b);
    lex_order(va.as_slice(), vb.as_slice()) == 0
}

} // verus!

verus! {

/// Index of the first `c` in `s`, or `s.len()` when there is none.
pub open spec fn idx_of(s: Seq<char>, c: char) -> int
    decreases s.len(),
{
    if s.len() == 0 {
        0
    } else if s[0] == c {
        0
    } else {
        1 + idx_of(s.drop_first(), c)
    }
}

/// Index of the last `c` in `s`, or -1 when there is none.
pub open spec fn ridx_of(s: Seq<char>, c: char) -> int
    decreases s.len(),
{
    if s.len() == 0 {
        -1
    } else if s.last() == c {
        s.len() - 1
    } else {
        ridx_of(s.drop_last(), c)
    }
}

pub proof fn lemma_idx_of(s: Seq<char>, c: char, i: int)
    requires
        0 <= i <= s.len(),
        forall|j: int| 0 <= j < i ==> s[j] != c,
        i == s.len() || s[i] == c,
    ensures
        idx_of(s, c) == i,
    decreases s.len(),
{
    if s.len() > 0 && i > 0 {
        lemma_idx_of(s.drop_first(), c, i - 1);
    }
}

pub proof fn lemma_idx_of_bounds(s: Seq<char>, c: char)
    ensures
        0 <= idx_of(s, c) <= s.len(),
        forall|j: int| 0 <= j < idx_of(s, c) ==> s[j] != c,
        idx_of(s, c) < s.len() ==> s[idx_of(s, c)] == c,
    decreases s.len(),
{
    if s.len() > 0 && s[0] != c {
        lemma_idx_of_bounds(s.drop_first(), c);
        assert forall|j: int| 0 <= j < idx_of(s, c) implies s[j] != c by {
            if j > 0 {
                assert(s[j] == s.drop_first()[j - 1]);
            }
        }
    }
}

pub proof fn lemma_ridx_of(s: Seq<char>, c: char, i: int)
    requires
        -1 <= i < s.len(),
        forall|j: int| i < j < s.len() ==> s[j] != c,
        i == -1 || s[i] == c,
    ensures
        ridx_of(s, c) == i,
    decreases s.len(),
{
    if s.len() > 0 && i < s.len() - 1 {
        lemma_ridx_of(s.drop_last(), c, i);
    }
}

/// Index of the first `c` in `v` (or its length when absent).
pub fn find_char(v: &[char], c: char) -> (i: usize)
    ensures
        i == idx_of(v@, c),
        i <= v@.len(),
{
    let mut i: usize = 0;
    while i < v.len()
        invariant
            i <= v@.len(),
            forall|j: int| 0 <= j < i ==> v@[j] != c,
        decreases v@.len() - i,
    {
        if v[i] == c {
            proof { lemma_idx_of(v@, c, i as int); }
            return i;
        }
        i = i + 1;
    }
    proof { lemma_idx_of(v@, c, i as int); }
    i
}

/// Index of the last `c` in `v`, if any.
pub fn rfind_char(v: &[char], c: char) -> (r: Option<usize>)
    ensures
        ridx_of(v@, c) == (match r { Some(i) => i as int, None => -1 }),
        r matches Some(i) ==> i < v@.len() && v@[i as int] == c,
{
    let mut i: usize = v.len();
    while i > 0
        invariant
            i <= v@.len(),
            forall|j: int| i <= j < v@.len() ==> v@[j] != c,
        decreases i,
    {
        if v[i - 1] == c {
            proof { lemma_ridx_of(v@, c, i - 1); }
            return Some(i - 1);
        }
        i = i - 1;
    }
    proof { lemma_ridx_of(v@, c, -1); }
    None
}

/// Text up to (not including) the first `/`: a path's first segment.
pub open spec fn first_seg(s: Seq<char>) -> Seq<char> {
    s.take(idx_of(s, '/'))
}

/// Text after the last `/`: a path's final segment.
pub open spec fn last_seg(s: Seq<char>) -> Seq<char> {
    s.skip(ridx_of(s, '/') + 1)
}

/// A copy of `v[from..to]` as a `String`.
pub fn slice_string(v: &[char], from: usize, to: usize) -> (s: String)
    requires
        from <= to <= v@.len(),
    ensures
        s@ == v@.subrange(from as int, to as int),
{
    let mut s = String::new();
    let mut i = from;
    while i < to
        invariant
            from <= i <= to,
            to <= v@.len(),
            s@ == v@.subrange(from as int, i as int),
        decreases to - i,
    {
        s.push(v[i]);
        i = i + 1;
        assert(s@ =~= v@.subrange(from as int, i as int));
    }
    s
}

/// The first `/`-separated segment of `s` (all of it when there is no `/`).
pub fn first_segment(s: &str) -> (r: String)
    ensures
        r@ == first_seg(s@),
{
    let v = chars_of(s);
    let i = find_char(v.as_slice(), '/');
    proof { lemma_idx_of_bounds(s@, '/'); }
    slice_string(v.as_slice(), 0, i)
}

/// The last `/`-separated segment of `s` (all of it when there is no `/`).
pub fn last_segment(s: &str) -> (r: String)
    ensures
        r@ == last_seg(s@),
{
    let v = chars_of(s);
    let n = v.len();
    match rfind_char(v.as_slice(), '/') {
        Some(i) => slice_string(v.as_slice(), i + 1, n),
        None => {
            assert(s@.skip(0) =~= s@);
            slice_string(v.as_slice(), 0, v.len())
        },
    }
}

} // verus!

verus! {

/// `s` begins with `p`.
pub open spec fn has_prefix(s: Seq<char>, p: Seq<char>) -> bool {
    p.len() <= s.len() && s.take(p.len() as int) == p
}

/// Whether `v` begins with the characters of `p`.
pub fn starts_with(v: &[char], p: &str) -> (b: bool)
    ensures
        b == has_prefix(v@, p@),
{
    let pc = chars_of(p);
    if pc.len() > v.len() {
        return false;
    }
    let mut i: usize = 0;
    while i < pc.len()
        invariant
            pc@ == p@,
            pc@.len() <= v@.len(),
            i <= pc@.len(),
            forall|j: int| 0 <= j < i ==> v@[j] == pc@[j],
        decreases pc@.len() - i,
    {
        if v[i] != pc[i] {
            return false;
        }
        i = i + 1;
    }
    assert(v@.take(pc@.len() as int) =~= pc@);
    true
}

/// ASCII lower-casing of one character; other characters are unchanged.
pub open spec fn ascii_lower(c: char) -> char {
    if 'A' <= c && c <= 'Z' {
        (((c as int) + 32) as u8) as char
    } else {
        c
    }
}

pub fn to_ascii_lower(c: char) -> (r: char)
    ensures
        r == ascii_lower(c),
{
    if 'A' <= c && c <= 'Z' {
        ((c as u8) + 32) as char
    } else {
        c
    }
}

/// Equal ignoring ASCII case.
pub open spec fn eq_ignore_case(a: Seq<char>, b: Seq<char>) -> bool {
    a.len() == b.len() && forall|i: int| 0 <= i < a.len() ==> ascii_lower(#[trigger] a[i]) == ascii_lower(b[i])
}

pub fn eq_ignore_ascii_case(a: &[char], b: &str) -> (r: bool)
    ensures
        r == eq_ignore_case(a@, b@),
{
    let bc = chars_of(b);
    if a.len() != bc.len() {
        return false;
    }
    let mut i: usize = 0;
    while i < a.len()
        invariant
            bc@ == b@,
            a@.len() == bc@.len(),
            i <= a@.len(),
            forall|j: int| 0 <= j < i ==> ascii_lower(#[trigger] a@[j]) == ascii_lower(bc@[j]),
        decreases a@.len() - i,
    {
        if to_ascii_lower(a[i]) != to_ascii_lower(bc[i]) {
            return false;
        }
        i = i + 1;
    }
    true
}

/// Decimal digits of `n`, most significant first, no leading zeros ("0" for zero).
pub open spec fn dec(n: nat) -> Seq<char>
    decreases n,
{
    if n < 10 {
        seq![digit_char(n)]
    } else {
        dec(n / 10).push(digit_char(n % 10))
    }
}

pub open spec fn digit_char(d: nat) -> char {
    if d == 0 { '0' } else if d == 1 { '1' } else if d == 2 { '2' } else if d == 3 { '3' }
    else if d == 4 { '4' } else if d == 5 { '5' } else if d == 6 { '6' } else if d == 7 { '7' }
    else if d == 8 { '8' } else { '9' }
}

pub fn digit(d: u64) -> (c: char)
    requires
        d < 10,
    ensures
        c == digit_char(d as nat),
{
    if d == 0 { '0' } else if d == 1 { '1' } else if d == 2 { '2' } else if d == 3 { '3' }
    else if d == 4 { '4' } else if d == 5 { '5' } else if d == 6 { '6' } else if d == 7 { '7' }
    else if d == 8 { '8' } else { '9' }
}

/// `n` in decimal.
pub fn u64_dec(n: u64) -> (s: String)
    ensures
        s@ == dec(n as nat),
    decreases n,
{
    if n < 10 {
        let mut s = String::new();
        s.push(digit(n));
        assert(s@ =~= seq![digit_char(n as nat)]);
        s
    } else {
        let mut s = u64_dec(n / 10);
        s.push(digit(n % 10));
        s
    }
}

/// `n` in decimal, with a leading `-` when negative.
pub open spec fn dec_i(n: int) -> Seq<char> {
    if n < 0 {
        seq!['-'] + dec((-n) as nat)
    } else {
        dec(n as nat)
    }
}

pub fn i64_dec(n: i64) -> (s: String)
    ensures
        s@ == dec_i(n as int),
{
    if n < 0 {
        let m: u64 = if n == i64::MIN { 9223372036854775808u64 } else { (-n) as u64 };
        let d = u64_dec(m);
        let mut s = String::new();
        s.push('-');
        let dc = chars_of(d.as_str());
        let mut i: usize = 0;
        while i < dc.len()
            invariant
                i <= dc@.len(),
                dc@ == dec(m as nat),
                s@ == seq!['-'] + dc@.take(i as int),
            decreases dc@.len() - i,
        {
            s.push(dc[i]);
            i = i + 1;
            assert(s@ =~= seq!['-'] + dc@.take(i as int));
        }
        assert(dc@.take(i as int) =~= dc@);
        s
    } else {
        u64_dec(n as u64)
    }
}

/// Append the characters of `t` to `s`.
pub fn push_str(s: &mut String, t: &str)
    ensures
        final(s)@ == old(s)@ + t@,
{
    let tc = chars_of(t);
    let mut i: usize = 0;
    while i < tc.len()
        invariant
            tc@ == t@,
            i <= tc@.len(),
            s@ == old(s)@ + tc@.take(i as int),
        decreases tc@.len() - i,
    {
        s.push(tc[i]);
        i = i + 1;
        assert(s@ =~= old(s)@ + tc@.take(i as int));
    }
    assert(tc@.take(i as int) =~= tc@);
}

/// `s` with every `from` replaced by the text `to`.
pub open spec fn replace_char(s: Seq<char>, from: char, to: Seq<char>) -> Seq<char>
    decreases s.len(),
{
    if s.len() == 0 {
        s
    } else {
        replace_char(s.drop_last(), from, to) + if s.last() == from { to } else { seq![s.last()] }
    }
}

pub fn replace_all(v: &[char], from: char, to: &str) -> (r: String)
    ensures
        r@ == replace_char(v@, from, to@),
{
    let mut r = String::new();
    let mut i: usize = 0;
    while i < v.len()
        invariant
            i <= v@.len(),
            r@ == replace_char(v@.take(i as int), from, to@),
        decreases v@.len() - i,
    {
        assert(v@.take(i + 1).drop_last() =~= v@.take(i as int));
        if v[i] == from {
            push_str(&mut r, to);
        } else {
            r.push(v[i]);
            assert(r@ =~= replace_char(v@.take(i + 1), from, to@));
        }
        i = i + 1;
    }
    assert(v@.take(i as int) =~= v@);
    r
}

} // verus!

verus! {

/// `s` cut at every `c` (so `k` separators give `k + 1` pieces, some possibly empty).
pub open spec fn split_spec(s: Seq<char>, c: char) -> Seq<Seq<char>>
    decreases s.len(),
{
    let i = idx_of(s, c);
    if i >= s.len() {
        seq![s]
    } else {
        proof { lemma_idx_of_bounds(s, c); }
        seq![s.take(i)] + split_spec(s.skip(i + 1), c)
    }
}

proof fn lemma_split_step(s: Seq<char>, c: char, start: int, j: int)
    requires
        0 <= start <= j < s.len(),
        forall|k: int| start <= k < j ==> s[k] != c,
        s[j] == c,
    ensures
        split_spec(s.skip(start), c) == seq![s.subrange(start, j)] + split_spec(s.skip(j + 1), c),
{
    let t = s.skip(start);
    lemma_idx_of(t, c, j - start);
    assert(t.take(j - start) =~= s.subrange(start, j));
    assert(t.skip(j - start + 1) =~= s.skip(j + 1));
}

proof fn lemma_split_last(s: Seq<char>, c: char, start: int)
    requires
        0 <= start <= s.len(),
        forall|k: int| start <= k < s.len() ==> s[k] != c,
    ensures
        split_spec(s.skip(start), c) == seq![s.skip(start)],
{
    let t = s.skip(start);
    lemma_idx_of(t, c, t.len() as int);
}

/// `v` cut at every `c`.
pub fn split_at_char(v: &[char], c: char) -> (parts: Vec<String>)
    ensures
        parts@.len() == split_spec(v@, c).len(),
        forall|i: int| 0 <= i < parts@.len() ==> #[trigger] parts@[i]@ == split_spec(v@, c)[i],
{
    let mut parts: Vec<String> = Vec::new();
    let ghost mut done: Seq<Seq<char>> = Seq::empty();
    let mut start: usize = 0;
    let mut j: usize = 0;
    let n = v.len();
    assert(v@.skip(0) =~= v@);
    while j < n
        invariant
            n == v@.len(),
            start <= j <= n,
            forall|k: int| start <= k < j ==> v@[k] != c,
            parts@.len() == done.len(),
            forall|i: int| 0 <= i < parts@.len() ==> #[trigger] parts@[i]@ == done[i],
            done + split_spec(v@.skip(start as int), c) == split_spec(v@, c),
        decreases n - j,
    {
        if v[j] == c {
            let piece = slice_string(v, start, j);
            proof {
                lemma_split_step(v@, c, start as int, j as int);
                assert(done.push(piece@) + split_spec(v@.skip(j + 1), c) =~= done + split_spec(v@.skip(start as int), c));
                done = done.push(piece@);
            }
            parts.push(piece);
            start = j + 1;
        }
        j = j + 1;
    }
    let piece = slice_string(v, start, n);
    proof {
        lemma_split_last(v@, c, start as int);
        assert(v@.subrange(start as int, n as int) =~= v@.skip(start as int));
        done = done.push(piece@);
        assert(done =~= split_spec(v@, c));
    }
    parts.push(piece);
    parts
}

} // verus!

verus! {

/// The value of a decimal digit.
pub open spec fn digit_value(c: char) -> nat {
    (c as u32 - '0' as u32) as nat
}

pub open spec fn all_digits(s: Seq<char>) -> bool {
    forall|i: int| 0 <= i < s.len() ==> #[trigger] is_digit(s[i])
}

/// The number that a run of decimal digits spells (leading zeros allowed).
pub open spec fn digits_value(s: Seq<char>) -> nat
    decreases s.len(),
{
    if s.len() == 0 {
        0
    } else {
        digits_value(s.drop_last()) * 10 + digit_value(s.last())
    }
}

/// What `str::parse` reads as an unsigned integer: an optional `+`, then one or
/// more decimal digits.
pub open spec fn uint_text(s: Seq<char>) -> Option<nat> {
    let d = if s.len() > 0 && s[0] == '+' { s.skip(1) } else { s };
    if d.len() > 0 && all_digits(d) { Some(digits_value(d)) } else { None }
}

/// What `str::parse` reads as a signed integer: an optional `+` or `-`, then one
/// or more decimal digits.
pub open spec fn int_text(s: Seq<char>) -> Option<int> {
    if s.len() > 0 && s[0] == '-' {
        let d = s.skip(1);
        if d.len() > 0 && all_digits(d) { Some(-digits_value(d)) } else { None }
    } else {
        match uint_text(s) {
            Some(v) => Some(v as int),
            None => None,
        }
    }
}

proof fn lemma_digits_prefix(s: Seq<char>, n: int)
    requires
        0 <= n <= s.len(),
    ensures
        digits_value(s.take(n)) <= digits_value(s),
    decreases s.len() - n,
{
    if n < s.len() {
        lemma_digits_prefix(s, n + 1);
        assert(s.take(n + 1).drop_last() =~= s.take(n));
    } else {
        assert(s.take(n) =~= s);
    }
}

/// The value of the digits `v[from..]`, or `None` when one is not a digit, there
/// are none, or the value passes `limit`.
fn digits_upto(v: &[char], from: usize, limit: u64) -> (r: Option<u64>)
    requires
        from <= v@.len(),
    ensures
        match r {
            Some(x) => {
                let d = v@.skip(from as int);
                &&& d.len() > 0
                &&& all_digits(d)
                &&& x == digits_value(d)
                &&& x <= limit
            },
            None => {
                let d = v@.skip(from as int);
                !(d.len() > 0 && all_digits(d) && digits_value(d) <= limit)
            },
        },
{
    let ghost d = v@.skip(from as int);
    if from == v.len() {
        return None;
    }
    let mut acc: u64 = 0;
    let mut i = from;
    while i < v.len()
        invariant
            from <= i <= v@.len(),
            d == v@.skip(from as int),
            all_digits(d.take(i - from)),
            acc == digits_value(d.take(i - from)),
            acc <= limit,
        decreases v@.len() - i,
    {
        let c = v[i];
        if !char_is_digit(c) {
            proof {
                assert(d[i - from] == c);
            }
            return None;
        }
        let ghost next = d.take(i + 1 - from);
        proof {
            assert(next.drop_last() =~= d.take(i - from));
            assert(next.last() == c);
        }
        let dv = (c as u32 - '0' as u32) as u64;
        let grown = match acc.checked_mul(10) {
            Some(m) => m.checked_add(dv),
            None => None,
        };
        match grown {
            Some(g) if g <= limit => {
                acc = g;
            },
            _ => {
                proof {
                    assert(digits_value(next) > limit);
                    lemma_digits_prefix(d, i + 1 - from);
                }
                return None;
            },
        }
        i = i + 1;
        proof {
            assert forall|k: int| 0 <= k < next.len() implies #[trigger] is_digit(next[k]) by {
                if k < next.len() - 1 {
                    assert(next[k] == d.take(i - 1 - from)[k]);
                }
            }
        }
    }
    assert(d.take(i - from) =~= d);
    Some(acc)
}

/// `s` read as a `u64`, as `str::parse::<u64>` reads it.
pub fn parse_u64(s: &str) -> (r: Option<u64>)
    ensures
        r == (match uint_text(s@) {
            Some(v) => if v <= u64::MAX { Some(v as u64) } else { None },
            None => None,
        }),
{
    let v = chars_of(s);
    let from: usize = if v.len() > 0 && v[0] == '+' { 1 } else { 0 };
    proof {
        if from == 0 {
            assert(v@.skip(0) =~= v@);
        }
    }
    digits_upto(v.as_slice(), from, u64::MAX)
}

/// `s` read as an `i64`, as `str::parse::<i64>` reads it.
pub fn parse_i64(s: &str) -> (r: Option<i64>)
    ensures
        r == (match int_text(s@) {
            Some(v) => if i64::MIN <= v <= i64::MAX { Some(v as i64) } else { None },
            None => None,
        }),
{
    let v = chars_of(s);
    if v.len() > 0 && v[0] == '-' {
        match digits_upto(v.as_slice(), 1, 9223372036854775808u64) {
            Some(m) => {
                if m == 9223372036854775808u64 {
                    Some(i64::MIN)
                } else {
                    Some(-(m as i64))
                }
            },
            None => None,
        }
    } else {
        let from: usize = if v.len() > 0 && v[0] == '+' { 1 } else { 0 };
        proof {
            if from == 0 {
                assert(v@.skip(0) =~= v@);
            }
        }
        match digits_upto(v.as_slice(), from, 9223372036854775807u64) {
            Some(m) => Some(m as i64),
            None => None,
        }
    }
}

} // verus!

verus! {

/// `s` without one trailing carriage return.
pub open spec fn strip_cr(s: Seq<char>) -> Seq<char> {
    if s.len() > 0 && s.last() == '\r' { s.drop_last() } else { s }
}

pub proof fn lemma_split_nonempty(s: Seq<char>, c: char)
    ensures
        split_spec(s, c).len() >= 1,
    decreases s.len(),
{
    let i = idx_of(s, c);
    if i < s.len() {
        lemma_idx_of_bounds(s, c);
        lemma_split_nonempty(s.skip(i + 1), c);
    }
}

/// What `str::lines` yields: the text cut at each `\n`, a `\r` right before a
/// `\n` dropped with it, and no empty line after a final `\n`.
pub open spec fn lines_spec(s: Seq<char>) -> Seq<Seq<char>> {
    let parts = split_spec(s, '\n');
    let n = parts.len();
    let body = parts.take(n - 1).map_values(|p: Seq<char>| strip_cr(p));
    if parts[n - 1].len() == 0 {
        body
    } else {
        body.push(parts[n - 1])
    }
}

fn strip_cr_string(p: &String) -> (r: String)
    ensures
        r@ == strip_cr(p@),
{
    let v = chars_of(p.as_str());
    if v.len() > 0 && v[v.len() - 1] == '\r' {
        slice_string(v.as_slice(), 0, v.len() - 1)
    } else {
        string_of(v.as_slice())
    }
}

/// The lines of `v`, as `str::lines` gives them.
pub fn lines_of(v: &[char]) -> (lines: Vec<String>)
    ensures
        lines@.len() == lines_spec(v@).len(),
        forall|i: int| 0 <= i < lines@.len() ==> #[trigger] lines@[i]@ == lines_spec(v@)[i],
{
    let parts = split_at_char(v, '\n');
    proof {
        lemma_split_nonempty(v@, '\n');
    }
    let ghost sp = split_spec(v@, '\n');
    let n = parts.len();
    let mut lines: Vec<String> = Vec::new();
    let mut i: usize = 0;
    while i + 1 < n
        invariant
            n == parts@.len(),
            n == sp.len(),
            n >= 1,
            sp == split_spec(v@, '\n'),
            forall|k: int| 0 <= k < n ==> #[trigger] parts@[k]@ == sp[k],
            i + 1 <= n,
            lines@.len() == i,
            forall|k: int| 0 <= k < i ==> #[trigger] lines@[k]@ == strip_cr(sp[k]),
        decreases n - i,
    {
        lines.push(strip_cr_string(&parts[i]));
        i = i + 1;
    }
    let last = &parts[n - 1];
    let lc = chars_of(last.as_str());
    if lc.len() > 0 {
        lines.push(last.clone());
    }
    proof {
        let body = sp.take(n - 1).map_values(|p: Seq<char>| strip_cr(p));
        assert forall|k: int| 0 <= k < n - 1 implies #[trigger] body[k] == strip_cr(sp[k]) by {}
    }
    lines
}

/// `fields` joined with `c` between each two.
pub open spec fn join_with(fields: Seq<Seq<char>>, c: char) -> Seq<char>
    decreases fields.len(),
{
    if fields.len() <= 1 {
        if fields.len() == 0 { Seq::empty() } else { fields[0] }
    } else {
        fields[0] + seq![c] + join_with(fields.skip(1), c)
    }
}

pub open spec fn free_of(s: Seq<char>, c: char) -> bool {
    forall|i: int| 0 <= i < s.len() ==> s[i] != c
}

/// Cutting a join at its separator gives the fields back, when none holds it.
pub proof fn lemma_split_join(fields: Seq<Seq<char>>, c: char)
    requires
        fields.len() >= 1,
        forall|i: int| 0 <= i < fields.len() ==> free_of(#[trigger] fields[i], c),
    ensures
        split_spec(join_with(fields, c), c) == fields,
    decreases fields.len(),
{
    let f0 = fields[0];
    assert(free_of(f0, c));
    if fields.len() == 1 {
        lemma_idx_of(f0, c, f0.len() as int);
        assert(split_spec(f0, c) =~= seq![f0]);
    } else {
        let rest = fields.skip(1);
        let s = join_with(fields, c);
        assert forall|i: int| 0 <= i < rest.len() implies free_of(#[trigger] rest[i], c) by {
            assert(rest[i] == fields[i + 1]);
        }
        lemma_split_join(rest, c);
        lemma_idx_of(s, c, f0.len() as int);
        assert(s.take(f0.len() as int) =~= f0);
        assert(s.skip(f0.len() as int + 1) =~= join_with(rest, c));
        assert(split_spec(s, c) =~= seq![f0] + rest);
        assert(seq![f0] + rest =~= fields);
    }
}

/// Append `fields` to `s`, separated by `c`.
pub fn push_joined(s: &mut String, fields: &Vec<String>, c: char)
    ensures
        final(s)@ == old(s)@ + join_with(fields@.map_values(|f: String| f@), c),
{
    let ghost fs = fields@.map_values(|f: String| f@);
    let ghost start = s@;
    let n = fields.len();
    let mut i: usize = 0;
    while i < n
        invariant
            n == fields@.len(),
            fs == fields@.map_values(|f: String| f@),
            i <= n,
            s@ == start + join_with(fs.take(i as int), c),
        decreases n - i,
    {
        proof {
            lemma_join_push(fs.take(i as int), fs[i as int], c);
            assert(fs.take(i + 1) =~= fs.take(i as int).push(fs[i as int]));
        }
        if i > 0 {
            s.push(c);
        }
        push_str(s, fields[i].as_str());
        i = i + 1;
        proof {
            if i > 1 {
                assert(s@ =~= start + (join_with(fs.take(i - 1), c) + seq![c] + fs[i - 1]));
            } else {
                assert(fs.take(0) =~= Seq::<Seq<char>>::empty());
                assert(s@ =~= start + fs[0]);
            }
        }
    }
    assert(fs.take(n as int) =~= fs);
}

pub proof fn lemma_join_push(fields: Seq<Seq<char>>, f: Seq<char>, c: char)
    ensures
        join_with(fields.push(f), c) == if fields.len() == 0 {
            f
        } else {
            join_with(fields, c) + seq![c] + f
        },
    decreases fields.len(),
{
    if fields.len() == 1 {
        assert(fields.push(f).skip(1) =~= seq![f]);
        assert(join_with(seq![f], c) == f);
        assert(join_with(fields.push(f), c) =~= fields[0] + seq![c] + f);
    } else if fields.len() > 1 {
        lemma_join_push(fields.skip(1), f, c);
        assert(fields.push(f).skip(1) =~= fields.skip(1).push(f));
        assert(fields.push(f)[0] == fields[0]);
        assert(join_with(fields.push(f), c) =~= join_with(fields, c) + seq![c] + f);
    }
}

} // verus!

verus! {

/// Unicode `White_Space`, what `char::is_whitespace` tests.
pub open spec fn is_space(c: char) -> bool {
    c == ' ' || ('\t' <= c && c <= '\r') || c == '\u{85}' || c == '\u{a0}' || c == '\u{1680}' || (
    '\u{2000}' <= c && c <= '\u{200a}') || c == '\u{2028}' || c == '\u{2029}' || c == '\u{202f}'
        || c == '\u{205f}' || c == '\u{3000}'
}

pub fn char_is_space(c: char) -> (b: bool)
    ensures
        b == is_space(c),
{
    c == ' ' || ('\t' <= c && c <= '\r') || c == '\u{85}' || c == '\u{a0}' || c == '\u{1680}' || (
    '\u{2000}' <= c && c <= '\u{200a}') || c == '\u{2028}' || c == '\u{2029}' || c == '\u{202f}'
        || c == '\u{205f}' || c == '\u{3000}'
}

pub open spec fn trim_start(s: Seq<char>) -> Seq<char>
    decreases s.len(),
{
    if s.len() > 0 && is_space(s[0]) {
        trim_start(s.drop_first())
    } else {
        s
    }
}

pub open spec fn trim_end(s: Seq<char>) -> Seq<char>
    decreases s.len(),
{
    if s.len() > 0 && is_space(s.last()) {
        trim_end(s.drop_last())
    } else {
        s
    }
}

/// `str::trim`: leading and trailing white space removed.
pub open spec fn trim(s: Seq<char>) -> Seq<char> {
    trim_end(trim_start(s))
}

proof fn lemma_trim_start(s: Seq<char>, i: int)
    requires
        0 <= i <= s.len(),
        forall|k: int| 0 <= k < i ==> is_space(#[trigger] s[k]),
        i == s.len() || !is_space(s[i]),
    ensures
        trim_start(s) == s.skip(i),
    decreases i,
{
    if i > 0 {
        assert forall|k: int| 0 <= k < i - 1 implies is_space(#[trigger] s.drop_first()[k]) by {
            assert(s.drop_first()[k] == s[k + 1]);
        }
        lemma_trim_start(s.drop_first(), i - 1);
        assert(s.drop_first().skip(i - 1) =~= s.skip(i));
    } else {
        assert(s.skip(0) =~= s);
    }
}

proof fn lemma_trim_end(s: Seq<char>, j: int)
    requires
        0 <= j <= s.len(),
        forall|k: int| j <= k < s.len() ==> is_space(#[trigger] s[k]),
        j == 0 || !is_space(s[j - 1]),
    ensures
        trim_end(s) == s.take(j),
    decreases s.len() - j,
{
    if j < s.len() {
        assert forall|k: int| j <= k < s.drop_last().len() implies is_space(#[trigger] s.drop_last()[k]) by {
            assert(s.drop_last()[k] == s[k]);
        }
        lemma_trim_end(s.drop_last(), j);
        assert(s.drop_last().take(j) =~= s.take(j));
    } else {
        assert(s.take(j) =~= s);
    }
}

/// Trimming nothing leaves nothing.
pub proof fn lemma_trim_empty()
    ensures
        trim(Seq::<char>::empty()) == Seq::<char>::empty(),
{
}

/// Text that neither starts nor ends with white space is its own trim.
pub proof fn lemma_trim_plain(s: Seq<char>)
    requires
        s.len() > 0,
        !is_space(s[0]),
        !is_space(s.last()),
    ensures
        trim(s) == s,
{
    lemma_trim_start(s, 0);
    assert(s.skip(0) =~= s);
    lemma_trim_end(s, s.len() as int);
    assert(s.take(s.len() as int) =~= s);
}

/// `v[from..to]` with white space trimmed from both ends.
pub fn trim_range(v: &[char], from: usize, to: usize) -> (r: String)
    requires
        from <= to <= v@.len(),
    ensures
        r@ == trim(v@.subrange(from as int, to as int)),
{
    let ghost s = v@.subrange(from as int, to as int);
    let mut i = from;
    while i < to && char_is_space(v[i])
        invariant
            from <= i <= to,
            to <= v@.len(),
            s == v@.subrange(from as int, to as int),
            forall|k: int| from <= k < i ==> is_space(#[trigger] v@[k]),
        decreases to - i,
    {
        i = i + 1;
    }
    proof {
        assert forall|k: int| 0 <= k < i - from implies is_space(#[trigger] s[k]) by {
            assert(s[k] == v@[from + k]);
        }
        if i < to {
            assert(s[i - from] == v@[i as int]);
        }
        lemma_trim_start(s, i - from);
    }
    let mut j = to;
    while j > i && char_is_space(v[j - 1])
        invariant
            from <= i <= j <= to,
            to <= v@.len(),
            forall|k: int| j <= k < to ==> is_space(#[trigger] v@[k]),
        decreases j - i,
    {
        j = j - 1;
    }
    proof {
        let t = s.skip(i - from);
        assert(t =~= v@.subrange(i as int, to as int));
        assert forall|k: int| j - i <= k < t.len() implies is_space(#[trigger] t[k]) by {
            assert(t[k] == v@[i + k]);
        }
        if j > i {
            assert(t[j - i - 1] == v@[j - 1]);
        }
        lemma_trim_end(t, j - i);
        assert(t.take(j - i) =~= v@.subrange(i as int, j as int));
    }
    slice_string(v, i, j)
}

} // verus!

verus! {

/// `p` occurs in `s` starting at `i`.
pub open spec fn occurs_at(s: Seq<char>, p: Seq<char>, i: int) -> bool {
    0 <= i && i + p.len() <= s.len() && s.subrange(i, i + p.len()) == p
}

/// Where `p` first occurs in `s` (what `str::find` gives), `-1` when it does not.
pub open spec fn first_at(s: Seq<char>, p: Seq<char>) -> int {
    if exists|i: int| occurs_at(s, p, i) {
        choose|i: int| occurs_at(s, p, i) && forall|j: int| 0 <= j < i ==> !occurs_at(s, p, j)
    } else {
        -1
    }
}

proof fn lemma_first_at(s: Seq<char>, p: Seq<char>, i: int)
    requires
        occurs_at(s, p, i),
        forall|j: int| 0 <= j < i ==> !occurs_at(s, p, j),
    ensures
        first_at(s, p) == i,
{
    let k = choose|k: int| occurs_at(s, p, k) && forall|j: int| 0 <= j < k ==> !occurs_at(s, p, j);
    assert(occurs_at(s, p, k));
    if k < i {
        assert(!occurs_at(s, p, k));
    }
    if i < k {
        assert(!occurs_at(s, p, i));
    }
}

/// Where `p` first occurs in `v`, as `str::find`.
pub fn find_str(v: &[char], p: &str) -> (r: Option<usize>)
    ensures
        match r {
            Some(i) => first_at(v@, p@) == i && i + p@.len() <= v@.len(),
            None => first_at(v@, p@) == -1,
        },
{
    let pc = chars_of(p);
    let n = v.len();
    let m = pc.len();
    if m > n {
        proof {
            assert forall|i: int| !occurs_at(v@, p@, i) by {}
        }
        return None;
    }
    let mut i: usize = 0;
    while i <= n - m
        invariant
            m <= n,
            n == v@.len(),
            m == pc@.len(),
            pc@ == p@,
            i <= n - m + 1,
            forall|j: int| 0 <= j < i ==> !occurs_at(v@, p@, j),
        decreases n - m + 1 - i,
    {
        let mut k: usize = 0;
        while k < m && v[i + k] == pc[k]
            invariant
                m <= n,
                i <= n - m,
                n == v@.len(),
                m == pc@.len(),
                k <= m,
                forall|t: int| 0 <= t < k ==> v@[i + t] == pc@[t],
            decreases m - k,
        {
            k = k + 1;
        }
        if k == m {
            proof {
                assert(v@.subrange(i as int, i + m) =~= p@);
                lemma_first_at(v@, p@, i as int);
            }
            return Some(i);
        }
        proof {
            assert(v@.subrange(i as int, i + m)[k as int] != p@[k as int]);
        }
        i = i + 1;
    }
    proof {
        assert forall|j: int| !occurs_at(v@, p@, j) by {
            if 0 <= j < i {
            }
        }
    }
    None
}

/// `s` without any trailing `c`.
pub open spec fn trim_end_char(s: Seq<char>, c: char) -> Seq<char>
    decreases s.len(),
{
    if s.len() > 0 && s.last() == c {
        trim_end_char(s.drop_last(), c)
    } else {
        s
    }
}

/// `s` without any leading `c`.
pub open spec fn trim_start_char(s: Seq<char>, c: char) -> Seq<char>
    decreases s.len(),
{
    if s.len() > 0 && s[0] == c {
        trim_start_char(s.drop_first(), c)
    } else {
        s
    }
}

/// `v[from..to]` without the `c`s at either end.
pub fn trim_char_range(v: &[char], from: usize, to: usize, c: char, start: bool, end: bool) -> (r: String)
    requires
        from <= to <= v@.len(),
    ensures
        r@ == ({
            let s = v@.subrange(from as int, to as int);
            let a = if start { trim_start_char(s, c) } else { s };
            if end { trim_end_char(a, c) } else { a }
        }),
{
    let ghost s = v@.subrange(from as int, to as int);
    let mut i = from;
    if start {
        while i < to && v[i] == c
            invariant
                from <= i <= to,
                to <= v@.len(),
                s == v@.subrange(from as int, to as int),
                trim_start_char(s, c) == trim_start_char(v@.subrange(i as int, to as int), c),
            decreases to - i,
        {
            proof {
                assert(v@.subrange(i as int, to as int).drop_first() =~= v@.subrange(i + 1, to as int));
            }
            i = i + 1;
        }
    } else {
        proof {
            assert(s =~= v@.subrange(i as int, to as int));
        }
    }
    let ghost a = v@.subrange(i as int, to as int);
    proof {
        if start {
            assert(trim_start_char(a, c) == a);
        }
    }
    let mut j = to;
    if end {
        while j > i && v[j - 1] == c
            invariant
                from <= i <= j <= to,
                to <= v@.len(),
                a == v@.subrange(i as int, to as int),
                trim_end_char(a, c) == trim_end_char(v@.subrange(i as int, j as int), c),
            decreases j - i,
        {
            proof {
                assert(v@.subrange(i as int, j as int).drop_last() =~= v@.subrange(i as int, j - 1));
            }
            j = j - 1;
        }
        proof {
            assert(trim_end_char(v@.subrange(i as int, j as int), c) == v@.subrange(i as int, j as int));
        }
    }
    slice_string(v, i, j)
}

} // verus!

verus! {

/// A number's decimal digits read back as that number.
pub proof fn lemma_dec_reads_back(n: nat)
    ensures
        all_digits(dec(n)),
        dec(n).len() > 0,
        digits_value(dec(n)) == n,
        uint_text(dec(n)) == Some(n),
        free_of(dec(n), '\t'),
        free_of(dec(n), '\n'),
        free_of(dec(n), '#'),
        is_digit(dec(n).last()),
    decreases n,
{
    let d = n % 10;
    assert(digit_value(digit_char(d)) == d && is_digit(digit_char(d))) by {
        if d == 0 {} else if d == 1 {} else if d == 2 {} else if d == 3 {} else if d == 4 {}
        else if d == 5 {} else if d == 6 {} else if d == 7 {} else if d == 8 {} else {}
    }
    if n >= 10 {
        lemma_dec_reads_back(n / 10);
        let a = dec(n / 10);
        let s = dec(n);
        assert(s == a.push(digit_char(d)));
        assert(s.drop_last() =~= a);
        assert(s.last() == digit_char(d));
        assert(digits_value(s) == digits_value(a) * 10 + digit_value(s.last()));
        vstd::arithmetic::div_mod::lemma_fundamental_div_mod(n as int, 10);
        assert forall|i: int| 0 <= i < s.len() implies #[trigger] is_digit(s[i]) by {
            if i < a.len() {
                assert(s[i] == a[i]);
            }
        }
    } else {
        assert(dec(n) == seq![digit_char(n)]);
        assert(dec(n).drop_last() =~= Seq::<char>::empty());
        assert(digits_value(dec(n)) == digits_value(Seq::<char>::empty()) * 10 + digit_value(digit_char(n)));
    }
    let s = dec(n);
    assert(s[0] != '+') by {
        assert(is_digit(s[0]));
    }
    assert forall|i: int| 0 <= i < s.len() implies s[i] != '\t' && s[i] != '\n' && s[i] != '#' by {
        assert(is_digit(s[i]));
    }
}

} // verus!

verus! {

pub open spec fn views(v: Seq<String>) -> Seq<Seq<char>> {
    v.map_values(|s: String| s@)
}

/// In `String` order, never decreasing.
pub open spec fn sorted_views(s: Seq<Seq<char>>) -> bool {
    forall|i: int, j: int| 0 <= i < j < s.len() ==> !lex_lt(#[trigger] s[j], #[trigger] s[i])
}

/// Whether `a` sorts strictly before `b`.
pub fn str_lt(a: &str, b: &str) -> (r: bool)
    ensures
        r == lex_lt(a@, b@),
{
    let ac = chars_of(a);
    let bc = chars_of(b);
    lex_order(ac.as_slice(), bc.as_slice()) == -1
}

/// The strings of `v`, sorted (as `slice::sort` orders `String`s).
pub fn sort_strings(v: &Vec<String>) -> (r: Vec<String>)
    ensures
        views(r@).to_multiset() == views(v@).to_multiset(),
        sorted_views(views(r@)),
        r@.len() == v@.len(),
{
    broadcast use vstd::seq_lib::to_multiset_insert;
    let mut r: Vec<String> = Vec::new();
    let mut i: usize = 0;
    proof {
        assert(views(r@) =~= views(v@.take(0)));
    }
    while i < v.len()
        invariant
            i <= v@.len(),
            r@.len() == i,
            views(r@).to_multiset() == views(v@.take(i as int)).to_multiset(),
            sorted_views(views(r@)),
        decreases v@.len() - i,
    {
        let x = &v[i];
        // First place whose string is above `x`.
        let mut p: usize = 0;
        while p < r.len() && !str_lt(x.as_str(), r[p].as_str())
            invariant
                p <= r@.len(),
                forall|k: int| 0 <= k < p ==> !lex_lt(x@, #[trigger] r@[k]@),
            decreases r@.len() - p,
        {
            p = p + 1;
        }
        let ghost before = r@;
        proof {
            assert forall|k: int| p <= k < before.len() implies lex_lt(x@, #[trigger] before[k]@) by {
                let rp = before[p as int]@;
                assert(lex_lt(x@, rp));
                if k > p {
                    assert(!lex_lt(views(before)[k], views(before)[p as int]));
                    if before[k]@ != rp {
                        lemma_lex_total(before[k]@, rp);
                        lemma_lex_transitive(x@, rp, before[k]@);
                    }
                }
            }
        }
        r.insert(p, x.clone());
        proof {
            assert(views(r@) =~= views(before).insert(p as int, x@));
            assert(v@.take(i + 1) =~= v@.take(i as int).push(v@[i as int]));
            assert(views(v@.take(i + 1)) =~= views(v@.take(i as int)).push(x@));
            vstd::seq_lib::to_multiset_build(views(v@.take(i as int)), x@);
            vstd::seq_lib::to_multiset_insert(views(before), p as int, x@);
            assert(views(r@).to_multiset() =~= views(v@.take(i + 1)).to_multiset());
            let nv = views(r@);
            assert forall|a: int, b: int| 0 <= a < b < nv.len() implies !lex_lt(#[trigger] nv[b], #[trigger] nv[a]) by {
                if a < p && b == p {
                } else if a == p && b > p {
                    assert(nv[b] == before[b - 1]@);
                    if lex_lt(nv[b], x@) {
                        lemma_lex_transitive(x@, nv[b], x@);
                        lemma_lex_irreflexive(x@);
                    }
                } else if a < p && b > p {
                    assert(nv[a] == views(before)[a]);
                    assert(nv[b] == views(before)[b - 1]);
                } else if b < p {
                    assert(nv[a] == views(before)[a]);
                    assert(nv[b] == views(before)[b]);
                } else {
                    assert(nv[a] == views(before)[a - 1]);
                    assert(nv[b] == views(before)[b - 1]);
                }
            }
        }
        i = i + 1;
    }
    proof {
        assert(v@.take(i as int) =~= v@);
    }
    r
}

} // verus!
