//! The event log's records: levels, UTC timestamps, and the one-line JSON object
//! each event is written as. Appending to the file, rotating it and knowing where
//! it lives are the caller's part.
use crate::digest::hex_digit;
use crate::text::{dec, dec_i, digit_char, free_of, i64_dec, push_str, str_eq, u64_dec};
use vstd::arithmetic::div_mod::{lemma_fundamental_div_mod, lemma_fundamental_div_mod_converse};
use vstd::prelude::*;

verus! {

#[derive(Clone, Copy, Debug, PartialEq, Eq, Structural)]
pub enum Level {
    Debug,
    Info,
    Warn,
    Error,
}

pub open spec fn level_name(l: Level) -> Seq<char> {
    match l {
        Level::Debug => "debug"@,
        Level::Info => "info"@,
        Level::Warn => "warn"@,
        Level::Error => "error"@,
    }
}

/// The level a name on the wire stands for; unknown names read as `Info`.
pub open spec fn level_of(s: Seq<char>) -> Level {
    if s == "debug"@ {
        Level::Debug
    } else if s == "warn"@ {
        Level::Warn
    } else if s == "error"@ {
        Level::Error
    } else {
        Level::Info
    }
}

impl Level {
    pub fn as_str(self) -> (s: &'static str)
        ensures
            s@ == level_name(self),
    {
        match self {
            Level::Debug => "debug",
            Level::Info => "info",
            Level::Warn => "warn",
            Level::Error => "error",
        }
    }

    /// Parse a level coming off the IPC wire. Unknown strings read as `info`
    /// rather than erroring — a mislabelled line is worth keeping.
    pub fn parse(s: &str) -> (l: Level)
        ensures
            l == level_of(s@),
    {
        if str_eq(s, "debug") {
            Level::Debug
        } else if str_eq(s, "warn") {
            Level::Warn
        } else if str_eq(s, "error") {
            Level::Error
        } else {
            Level::Info
        }
    }
}

/// A level's name reads back as that level.
pub proof fn lemma_level_roundtrip(l: Level)
    ensures
        level_of(level_name(l)) == l,
{
    reveal_strlit("debug");
    reveal_strlit("info");
    reveal_strlit("warn");
    reveal_strlit("error");
    assert("info"@[0] != "debug"@[0]);
    assert("info"@[0] != "warn"@[0]);
    assert("info"@[0] != "error"@[0]);
    assert("warn"@[0] != "debug"@[0]);
    assert("error"@[0] != "debug"@[0]);
    assert("error"@[0] != "warn"@[0]);
}

/// Gregorian leap years.
pub open spec fn is_leap(y: int) -> bool {
    y % 4 == 0 && (y % 100 != 0 || y % 400 == 0)
}

pub open spec fn month_len(y: int, m: int) -> int {
    if m == 2 {
        if is_leap(y) { 29 } else { 28 }
    } else if m == 4 || m == 6 || m == 9 || m == 11 {
        30
    } else {
        31
    }
}

/// A real day of the proleptic Gregorian calendar.
pub open spec fn valid_date(y: int, m: int, d: int) -> bool {
    1 <= m <= 12 && 1 <= d <= month_len(y, m)
}

/// Days from 1970-01-01 to the date `y-m-d`: whole 400-year eras of 146097 days,
/// then the day within the era, counting years from March so that the leap day
/// falls at a year's end.
pub open spec fn days_from_civil(y: int, m: int, d: int) -> int {
    let yy = if m <= 2 { y - 1 } else { y };
    let era = yy / 400;
    let yoe = yy - era * 400;
    let mp = if m > 2 { m - 3 } else { m + 9 };
    let doy = (153 * mp + 2) / 5 + d - 1;
    let doe = yoe * 365 + yoe / 4 - yoe / 100 + doy;
    era * 146097 + doe - 719468
}

/// Within an era, the year and the day of that (March-based) year.
proof fn lemma_day_of_era(doe: u32)
    requires
        doe < 146097,
    ensures
        doe / 1460 <= doe,
        doe - doe / 1460 + doe / 36524 >= doe / 146096,
        (doe - doe / 1460 + doe / 36524 - doe / 146096) / 365 < 400,
        365 * ((doe - doe / 1460 + doe / 36524 - doe / 146096) / 365) + ((doe - doe / 1460 + doe
            / 36524 - doe / 146096) / 365) / 4 - ((doe - doe / 1460 + doe / 36524 - doe / 146096)
            / 365) / 100 <= doe,
        doe - (365 * ((doe - doe / 1460 + doe / 36524 - doe / 146096) / 365) + ((doe - doe / 1460
            + doe / 36524 - doe / 146096) / 365) / 4 - ((doe - doe / 1460 + doe / 36524 - doe
            / 146096) / 365) / 100) <= 365,
        doe - (365 * ((doe - doe / 1460 + doe / 36524 - doe / 146096) / 365) + ((doe - doe / 1460
            + doe / 36524 - doe / 146096) / 365) / 4 - ((doe - doe / 1460 + doe / 36524 - doe
            / 146096) / 365) / 100) == 365 ==> ((((doe - doe / 1460 + doe / 36524 - doe / 146096)
            / 365) + 1) % 4 == 0 && ((((doe - doe / 1460 + doe / 36524 - doe / 146096) / 365) + 1)
            % 100 != 0 || (doe - doe / 1460 + doe / 36524 - doe / 146096) / 365 == 399)),
{
    assert({
        let a = doe / 1460;
        let b = doe / 36524;
        let c = doe / 146096;
        let yoe = (doe - a + b - c) / 365;
        let start = 365 * yoe + yoe / 4 - yoe / 100;
        &&& a <= doe
        &&& doe - a + b >= c
        &&& yoe < 400
        &&& start <= doe
        &&& doe - start <= 365
        &&& (doe - start == 365 ==> ((yoe + 1) % 4 == 0 && ((yoe + 1) % 100 != 0 || yoe == 399)))
    }) by (bit_vector)
        requires
            doe < 146097,
    ;
}

/// Within a March-based year, the month (0 = March) and the day of the month.
proof fn lemma_day_of_year(doy: u32)
    requires
        doy <= 365,
    ensures
        (5 * doy + 2) / 153 <= 11,
        (153 * ((5 * doy + 2) / 153) + 2) / 5 <= doy,
        doy - (153 * ((5 * doy + 2) / 153) + 2) / 5 + 1 <= 31,
        ((5 * doy + 2) / 153 == 1 || (5 * doy + 2) / 153 == 3 || (5 * doy + 2) / 153 == 6 || (5
            * doy + 2) / 153 == 8) ==> doy - (153 * ((5 * doy + 2) / 153) + 2) / 5 + 1 <= 30,
        (5 * doy + 2) / 153 == 11 ==> (doy - (153 * ((5 * doy + 2) / 153) + 2) / 5 + 1 <= 28 || (
        doy == 365 && doy - (153 * ((5 * doy + 2) / 153) + 2) / 5 + 1 == 29)),
{
    assert({
        let mp = (5 * doy + 2) / 153;
        let start = (153 * mp + 2) / 5;
        let d = doy - start + 1;
        &&& mp <= 11
        &&& start <= doy
        &&& d <= 31
        &&& ((mp == 1 || mp == 3 || mp == 6 || mp == 8) ==> d <= 30)
        &&& (mp == 11 ==> (d <= 28 || (doy == 365 && d == 29)))
    }) by (bit_vector)
        requires
            doy <= 365,
    ;
}

/// The date `days` days after 1970-01-01.
fn civil_from_days(days: i64) -> (r: (i64, u32, u32))
    requires
        -200_000_000_000_000 <= days <= 200_000_000_000_000,
    ensures
        valid_date(r.0 as int, r.1 as int, r.2 as int),
        days_from_civil(r.0 as int, r.1 as int, r.2 as int) == days,
{
    // Shift by whole eras so that every division below is of a non-negative number.
    let zs: u64 = (days + 719_468 + 2_000_000_000 * 146_097) as u64;
    let era_s = zs / 146_097;
    let doe = zs % 146_097;
    proof {
        lemma_fundamental_div_mod(zs as int, 146_097);
        lemma_day_of_era(doe as u32);
    }
    let era: i64 = era_s as i64 - 2_000_000_000;
    let yoe = (doe - doe / 1460 + doe / 36524 - doe / 146096) / 365;
    let doy = doe - (365 * yoe + yoe / 4 - yoe / 100);
    proof {
        lemma_day_of_year(doy as u32);
    }
    let mp = (5 * doy + 2) / 153;
    let d = (doy - (153 * mp + 2) / 5 + 1) as u32;
    let m: u32 = if mp < 10 { (mp + 3) as u32 } else { (mp - 9) as u32 };
    let y = yoe as i64 + era * 400;
    let ry = if m <= 2 { y + 1 } else { y };
    proof {
        let yy = yoe + era * 400;
        lemma_fundamental_div_mod_converse(yy, 400, era as int, yoe as int);
        assert(yy == if m <= 2 { ry - 1 } else { ry as int });
        if m == 2 {
            let yr = ry as int;
            let x = yoe + 1;
            assert(yr == x + 400 * era);
            lemma_mod_shift(x, era as int, 4);
            lemma_mod_shift(x, era as int, 100);
            lemma_mod_shift(x, era as int, 400);
            assert(yr % 4 == x % 4);
            assert(yr % 100 == x % 100);
            assert(yr % 400 == x % 400);
            if yoe == 399 {
                assert(x % 400 == 0);
            }
        }
    }
    (ry, m, d)
}

/// Adding a multiple of 400 keeps a number's remainder by 4, 100 or 400.
proof fn lemma_mod_shift(x: int, k: int, n: int)
    requires
        n == 4 || n == 100 || n == 400,
    ensures
        (x + 400 * k) % n == x % n,
{
    let q = (400int / n) * k;
    assert(400 * k == n * q) by (nonlinear_arith)
        requires
            n == 4 || n == 100 || n == 400,
            q == (400int / n) * k,
    ;
    lemma_fundamental_div_mod(x, n);
    lemma_fundamental_div_mod_converse(x + 400 * k, n, x / n + q, x % n);
}

/// `s` padded on the left with zeros to `w` characters.
pub open spec fn zpad(s: Seq<char>, w: nat) -> Seq<char> {
    if s.len() >= w {
        s
    } else {
        Seq::new((w - s.len()) as nat, |i: int| '0') + s
    }
}

/// A year as `{:04}` writes it: at least four characters, a sign counting as one.
pub open spec fn year_text(y: int) -> Seq<char> {
    if y < 0 {
        seq!['-'] + zpad(dec((-y) as nat), 3)
    } else {
        zpad(dec(y as nat), 4)
    }
}

pub open spec fn two_digits(n: nat) -> Seq<char> {
    zpad(dec(n), 2)
}

/// `YYYY-MM-DDTHH:MM:SSZ` for the date `y-m-d` and `secs` seconds into that day.
pub open spec fn iso_text(y: int, m: int, d: int, secs: int) -> Seq<char> {
    year_text(y) + seq!['-'] + two_digits(m as nat) + seq!['-'] + two_digits(d as nat) + seq!['T']
        + two_digits((secs / 3600) as nat) + seq![':'] + two_digits((secs % 3600 / 60) as nat)
        + seq![':'] + two_digits((secs % 60) as nat) + seq!['Z']
}

fn zpad_string(s: String, w: usize) -> (r: String)
    ensures
        r@ == zpad(s@, w as nat),
{
    let n = s.as_str().unicode_len();
    if n >= w {
        return s;
    }
    let mut r = String::new();
    let mut i: usize = 0;
    while i < w - n
        invariant
            n == s@.len(),
            n < w,
            i <= w - n,
            r@ == Seq::new(i as nat, |k: int| '0'),
        decreases w - n - i,
    {
        r.push('0');
        i = i + 1;
        proof {
            assert(r@ =~= Seq::new(i as nat, |k: int| '0'));
        }
    }
    push_str(&mut r, s.as_str());
    r
}

/// `1970-01-01T00:00:00Z`: the UTC time `epoch` seconds after the Unix epoch. The
/// date is the one real calendar day that lies `epoch / 86400` days (rounded
/// down) after 1970-01-01.
pub fn iso8601(epoch: i64) -> (s: String)
    ensures
        exists|y: int, m: int, d: int|
            #![trigger days_from_civil(y, m, d)]
            valid_date(y, m, d) && days_from_civil(y, m, d) == (epoch as int) / 86400 && s@ == iso_text(
                y,
                m,
                d,
                (epoch as int) % 86400,
            ),
{
    // Shift by a whole number of days to divide a non-negative number.
    let shifted: i128 = epoch as i128 + 9_223_372_036_854_806_400i128;
    let eu = shifted as u128;
    let days_s = eu / 86_400;
    let secs = (eu % 86_400) as u64;
    proof {
        lemma_fundamental_div_mod(eu as int, 86_400);
        lemma_fundamental_div_mod_converse(
            epoch as int,
            86_400,
            days_s - 106_751_991_167_301,
            secs as int,
        );
    }
    let days: i64 = (days_s as i64) - 106_751_991_167_301;
    let (y, m, d) = civil_from_days(days);
    let mut s = if y < 0 {
        let mut t = String::new();
        t.push('-');
        let mag: u64 = (-y) as u64;
        let digits = zpad_string(u64_dec(mag), 3);
        push_str(&mut t, digits.as_str());
        t
    } else {
        zpad_string(u64_dec(y as u64), 4)
    };
    s.push('-');
    push_str(&mut s, zpad_string(u64_dec(m as u64), 2).as_str());
    s.push('-');
    push_str(&mut s, zpad_string(u64_dec(d as u64), 2).as_str());
    s.push('T');
    push_str(&mut s, zpad_string(u64_dec(secs / 3600), 2).as_str());
    s.push(':');
    push_str(&mut s, zpad_string(u64_dec((secs % 3600) / 60), 2).as_str());
    s.push(':');
    push_str(&mut s, zpad_string(u64_dec(secs % 60), 2).as_str());
    s.push('Z');
    proof {
        assert(s@ =~= iso_text(y as int, m as int, d as int, (epoch as int) % 86400));
    }
    s
}

} // verus!

verus! {

/// How `serde_json` writes one character inside a string: `"` and `\` and the
/// control characters escaped (the common ones by letter, the rest as `\u00XX`
/// in lower-case hex), everything else as itself.
pub open spec fn json_escape_char(c: char) -> Seq<char> {
    if c == '"' {
        seq!['\\', '"']
    } else if c == '\\' {
        seq!['\\', '\\']
    } else if c == '\u{8}' {
        seq!['\\', 'b']
    } else if c == '\t' {
        seq!['\\', 't']
    } else if c == '\n' {
        seq!['\\', 'n']
    } else if c == '\u{c}' {
        seq!['\\', 'f']
    } else if c == '\r' {
        seq!['\\', 'r']
    } else if (c as u32) < 0x20 {
        seq![
            '\\',
            'u',
            '0',
            '0',
            hex_digit(((c as u32) / 16) as nat),
            hex_digit(((c as u32) % 16) as nat),
        ]
    } else {
        seq![c]
    }
}

pub open spec fn json_escaped(s: Seq<char>) -> Seq<char>
    decreases s.len(),
{
    if s.len() == 0 {
        Seq::empty()
    } else {
        json_escaped(s.drop_last()) + json_escape_char(s.last())
    }
}

/// A string as a JSON string literal.
pub open spec fn json_quoted(s: Seq<char>) -> Seq<char> {
    seq!['"'] + json_escaped(s) + seq!['"']
}

/// Calls `serde_json::to_string` on a string slice. Its source writes a string as
/// a quoted literal, escaping per its `ESCAPE` table as `json_escape_char` states;
/// writing into memory cannot fail.
#[verifier::external_body]
fn json_string(s: &str) -> (r: String)
    ensures
        r@ == json_quoted(s@),
{
    match serde_json::to_string(s) {
        Ok(t) => t,
        Err(_) => String::new(),
    }
}

/// One log record: a JSON object with its keys in `serde_json`'s map order
/// (sorted), `ctx` spliced in as the JSON text it already is.
pub open spec fn record_text(
    at: Seq<char>,
    ts: i64,
    level: Level,
    src: Seq<char>,
    msg: Seq<char>,
    ctx: Option<Seq<char>>,
) -> Seq<char> {
    "{\"at\":"@ + json_quoted(at) + (match ctx {
        Some(c) => ",\"ctx\":"@ + c,
        None => Seq::empty(),
    }) + ",\"lvl\":"@ + json_quoted(level_name(level)) + ",\"msg\":"@ + json_quoted(msg)
        + ",\"src\":"@ + json_quoted(src) + ",\"ts\":"@ + dec_i(ts as int) + "}"@
}

/// One JSONL line. Built through `serde_json`'s string writer rather than pasted
/// text, so a message containing a quote or a newline — a panic payload, a JS
/// stack trace — can't break the one-object-per-line invariant the whole format
/// rests on. `ctx` is structured detail already rendered as JSON.
pub fn record(ts: i64, level: Level, src: &str, msg: &str, ctx: Option<&str>) -> (line: String)
    ensures
        exists|y: int, m: int, d: int|
            #![trigger days_from_civil(y, m, d)]
            valid_date(y, m, d) && days_from_civil(y, m, d) == (ts as int) / 86400 && line@
                == record_text(iso_text(y, m, d, (ts as int) % 86400), ts, level, src@, msg@, match ctx {
                Some(c) => Some(c@),
                None => None,
            }),
{
    let at = iso8601(ts);
    let mut s = String::new();
    push_str(&mut s, "{\"at\":");
    push_str(&mut s, json_string(at.as_str()).as_str());
    match ctx {
        Some(c) => {
            push_str(&mut s, ",\"ctx\":");
            push_str(&mut s, c);
        },
        None => {},
    }
    push_str(&mut s, ",\"lvl\":");
    push_str(&mut s, json_string(level.as_str()).as_str());
    push_str(&mut s, ",\"msg\":");
    push_str(&mut s, json_string(msg).as_str());
    push_str(&mut s, ",\"src\":");
    push_str(&mut s, json_string(src).as_str());
    push_str(&mut s, ",\"ts\":");
    push_str(&mut s, i64_dec(ts).as_str());
    push_str(&mut s, "}");
    proof {
        let ctxv = match ctx {
            Some(c) => Some(c@),
            None => None::<Seq<char>>,
        };
        let (y, m, d) = choose|y: int, m: int, d: int|
            #![trigger days_from_civil(y, m, d)]
            valid_date(y, m, d) && days_from_civil(y, m, d) == (ts as int) / 86400 && at@ == iso_text(
                y,
                m,
                d,
                (ts as int) % 86400,
            );
        assert(s@ =~= record_text(at@, ts, level, src@, msg@, ctxv));
        assert(days_from_civil(y, m, d) == (ts as int) / 86400);
    }
    s
}

} // verus!

verus! {

proof fn lemma_escaped_one_line(s: Seq<char>)
    ensures
        free_of(json_escaped(s), '\n'),
    decreases s.len(),
{
    if s.len() > 0 {
        lemma_escaped_one_line(s.drop_last());
        let c = s.last();
        let e = json_escape_char(c);
        assert(free_of(e, '\n')) by {
            if (c as u32) < 0x20 && c != '\u{8}' && c != '\t' && c != '\n' && c != '\u{c}' && c != '\r' {
                let hi = ((c as u32) / 16) as nat;
                let lo = ((c as u32) % 16) as nat;
                assert(hex_digit(hi) != '\n');
                assert(hex_digit(lo) != '\n');
            }
        }
        let a = json_escaped(s.drop_last());
        assert forall|i: int| 0 <= i < a.len() + e.len() implies (a + e)[i] != '\n' by {
            if i < a.len() {
                assert((a + e)[i] == a[i]);
            } else {
                assert((a + e)[i] == e[i - a.len()]);
            }
        }
    }
}

proof fn lemma_dec_one_line(n: nat)
    ensures
        free_of(dec(n), '\n'),
    decreases n,
{
    if n >= 10 {
        lemma_dec_one_line(n / 10);
        let a = dec(n / 10);
        let b = a.push(digit_char(n % 10));
        assert forall|i: int| 0 <= i < b.len() implies #[trigger] b[i] != '\n' by {
            if i < a.len() {
                assert(b[i] == a[i]);
            }
        }
    }
}

proof fn lemma_concat_one_line(a: Seq<char>, b: Seq<char>)
    requires
        free_of(a, '\n'),
        free_of(b, '\n'),
    ensures
        free_of(a + b, '\n'),
{
    assert forall|i: int| 0 <= i < a.len() + b.len() implies (a + b)[i] != '\n' by {
        if i < a.len() {
            assert((a + b)[i] == a[i]);
        } else {
            assert((a + b)[i] == b[i - a.len()]);
        }
    }
}

/// A record is one line, however ugly the message: whatever `at`, `src` and `msg`
/// hold, the record has no line break unless the structured detail brings one.
pub proof fn lemma_record_one_line(
    at: Seq<char>,
    ts: i64,
    level: Level,
    src: Seq<char>,
    msg: Seq<char>,
    ctx: Option<Seq<char>>,
)
    requires
        ctx matches Some(c) ==> free_of(c, '\n'),
    ensures
        free_of(record_text(at, ts, level, src, msg, ctx), '\n'),
{
    reveal_strlit("{\"at\":");
    reveal_strlit(",\"ctx\":");
    reveal_strlit(",\"lvl\":");
    reveal_strlit(",\"msg\":");
    reveal_strlit(",\"src\":");
    reveal_strlit(",\"ts\":");
    reveal_strlit("}");
    lemma_escaped_one_line(at);
    lemma_escaped_one_line(level_name(level));
    lemma_escaped_one_line(msg);
    lemma_escaped_one_line(src);
    lemma_concat_one_line(seq!['"'], json_escaped(at));
    lemma_concat_one_line(seq!['"'] + json_escaped(at), seq!['"']);
    lemma_concat_one_line(seq!['"'], json_escaped(level_name(level)));
    lemma_concat_one_line(seq!['"'] + json_escaped(level_name(level)), seq!['"']);
    lemma_concat_one_line(seq!['"'], json_escaped(msg));
    lemma_concat_one_line(seq!['"'] + json_escaped(msg), seq!['"']);
    lemma_concat_one_line(seq!['"'], json_escaped(src));
    lemma_concat_one_line(seq!['"'] + json_escaped(src), seq!['"']);
    if ts < 0 {
        lemma_dec_one_line((-ts) as nat);
        lemma_concat_one_line(seq!['-'], dec((-ts) as nat));
    } else {
        lemma_dec_one_line(ts as nat);
    }
    let c_part = match ctx {
        Some(c) => ",\"ctx\":"@ + c,
        None => Seq::<char>::empty(),
    };
    if let Some(c) = ctx {
        lemma_concat_one_line(",\"ctx\":"@, c);
    }
    let p1 = "{\"at\":"@ + json_quoted(at);
    lemma_concat_one_line("{\"at\":"@, json_quoted(at));
    lemma_concat_one_line(p1, c_part);
    let p2 = p1 + c_part;
    lemma_concat_one_line(p2, ",\"lvl\":"@);
    lemma_concat_one_line(p2 + ",\"lvl\":"@, json_quoted(level_name(level)));
    let p3 = p2 + ",\"lvl\":"@ + json_quoted(level_name(level));
    lemma_concat_one_line(p3, ",\"msg\":"@);
    lemma_concat_one_line(p3 + ",\"msg\":"@, json_quoted(msg));
    let p4 = p3 + ",\"msg\":"@ + json_quoted(msg);
    lemma_concat_one_line(p4, ",\"src\":"@);
    lemma_concat_one_line(p4 + ",\"src\":"@, json_quoted(src));
    let p5 = p4 + ",\"src\":"@ + json_quoted(src);
    lemma_concat_one_line(p5, ",\"ts\":"@);
    lemma_concat_one_line(p5 + ",\"ts\":"@, dec_i(ts as int));
    let p6 = p5 + ",\"ts\":"@ + dec_i(ts as int);
    lemma_concat_one_line(p6, "}"@);
}

} // verus!
