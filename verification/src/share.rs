//! Per-trip sharing via the Nextcloud OCS Share API: deriving the API's base URL
//! and a trip's folder from the rclone remote, escaping credentials for curl's
//! config, and the share cache's rows. Running rclone and curl is the caller's
//! part.
use crate::config::opt_view;
use crate::media::opt_str;
use crate::model::TripShare;
use crate::order::{items_view, keyed_view, lemma_sorted_by, lowercase_of, sort_keyed, sorted_by, stable_sort, to_lowercase, values_of, values_view};
use crate::text::{
    chars_of, eq_ignore_ascii_case, eq_ignore_case, find_char, first_at, find_str, idx_of, push_str,
    slice_string, str_eq, i64_dec, dec, dec_i, trim_char_range, trim_end_char, trim_start_char,
};
use vstd::prelude::*;

verus! {

/// OCS collaborator permissions: read+update+create+delete — everything but
/// reshare, so a friend can pull the trip and push their own footage back, but
/// can't hand the cloud folder on to others. (1 read | 2 update | 4 create |
/// 8 delete = 15.)
pub const COLLAB_PERMS: u32 = 15;

/// Nextcloud webdav URLs look like `https://host[/subdir]/remote.php/dav/files/<user>/`.
/// The OCS API lives at the same origin (and subdir), so the base is everything
/// before `/remote.php`, without trailing slashes, when that is not empty.
pub open spec fn base_spec(url: Seq<char>) -> Option<Seq<char>> {
    let cut = first_at(url, "/remote.php"@);
    if cut < 0 {
        None
    } else {
        let base = trim_end_char(url.take(cut), '/');
        if base.len() == 0 { None } else { Some(base) }
    }
}

pub fn base_from_webdav(url: &str) -> (r: Option<String>)
    ensures
        match r {
            Some(b) => base_spec(url@) == Some(b@),
            None => base_spec(url@) is None,
        },
{
    let v = chars_of(url);
    match find_str(v.as_slice(), "/remote.php") {
        Some(cut) => {
            proof {
                assert(v@.subrange(0, cut as int) =~= url@.take(cut as int));
            }
            let base = trim_char_range(v.as_slice(), 0, cut, '/', false, true);
            let bc = chars_of(base.as_str());
            if bc.len() == 0 {
                None
            } else {
                Some(base)
            }
        },
        None => None,
    }
}

/// The cloud's path within the Nextcloud user's files: the part of `REEL_REMOTE`
/// after the remote name, without leading or trailing slashes.
pub open spec fn cloud_root_spec(remote: Seq<char>) -> Seq<char> {
    let i = idx_of(remote, ':');
    let rest = if i < remote.len() { remote.skip(i + 1) } else { Seq::empty() };
    trim_end_char(trim_start_char(rest, '/'), '/')
}

/// `nextcloud:Reels` → `Reels`; `nextcloud:` → ``.
pub fn cloud_root(remote: &str) -> (r: String)
    ensures
        r@ == cloud_root_spec(remote@),
{
    let v = chars_of(remote);
    let i = find_char(v.as_slice(), ':');
    let n = v.len();
    if i < n {
        proof {
            assert(v@.subrange(i + 1, n as int) =~= remote@.skip(i + 1));
        }
        trim_char_range(v.as_slice(), i + 1, n, '/', true, true)
    } else {
        proof {
            assert(trim_start_char(Seq::<char>::empty(), '/') == Seq::<char>::empty());
            assert(trim_end_char(Seq::<char>::empty(), '/') == Seq::<char>::empty());
        }
        String::new()
    }
}

/// A trip's cloud folder as an absolute OCS `path`, within the user's files.
pub fn trip_path(root: &str, trip: &str) -> (p: String)
    ensures
        p@ == if root@.len() == 0 {
            seq!['/'] + trip@
        } else {
            seq!['/'] + root@ + seq!['/'] + trip@
        },
{
    let mut p = String::new();
    p.push('/');
    if root.unicode_len() > 0 {
        push_str(&mut p, root);
        p.push('/');
    }
    push_str(&mut p, trip);
    p
}

/// How one character is written inside a curl `-K` config double-quoted string:
/// backslash and quote escaped, line breaks dropped.
pub open spec fn curl_char(c: char) -> Seq<char> {
    if c == '\\' {
        seq!['\\', '\\']
    } else if c == '"' {
        seq!['\\', '"']
    } else if c == '\n' || c == '\r' {
        Seq::empty()
    } else {
        seq![c]
    }
}

pub open spec fn curl_escaped(s: Seq<char>) -> Seq<char>
    decreases s.len(),
{
    if s.len() == 0 {
        Seq::empty()
    } else {
        curl_escaped(s.drop_last()) + curl_char(s.last())
    }
}

/// Escape a value for a curl `-K` config double-quoted string.
pub fn curl_escape(s: &str) -> (r: String)
    ensures
        r@ == curl_escaped(s@),
{
    let v = chars_of(s);
    let mut r = String::new();
    let mut i: usize = 0;
    while i < v.len()
        invariant
            i <= v@.len(),
            v@ == s@,
            r@ == curl_escaped(v@.take(i as int)),
        decreases v@.len() - i,
    {
        let c = v[i];
        proof {
            assert(v@.take(i + 1).drop_last() =~= v@.take(i as int));
            assert(v@.take(i + 1).last() == c);
        }
        let ghost before = r@;
        if c == '\\' {
            r.push('\\');
            r.push('\\');
        } else if c == '"' {
            r.push('\\');
            r.push('"');
        } else if c == '\n' || c == '\r' {
        } else {
            r.push(c);
        }
        proof {
            assert(r@ =~= before + curl_char(c));
        }
        i = i + 1;
    }
    proof {
        assert(v@.take(i as int) =~= v@);
    }
    r
}

/// The config curl reads on stdin: the Basic-auth credentials, so `user:pass`
/// never appears in the process list.
pub fn curl_credentials(user: &str, pass: &str) -> (cfg: String)
    ensures
        cfg@ == "user = \""@ + curl_escaped(user@ + seq![':'] + pass@) + "\"\n"@,
{
    let mut up = String::new();
    push_str(&mut up, user);
    up.push(':');
    push_str(&mut up, pass);
    assert(up@ =~= user@ + seq![':'] + pass@);
    let mut cfg = String::new();
    push_str(&mut cfg, "user = \"");
    push_str(&mut cfg, curl_escape(up.as_str()).as_str());
    push_str(&mut cfg, "\"\n");
    assert(cfg@ =~= "user = \""@ + curl_escaped(user@ + seq![':'] + pass@) + "\"\n"@);
    cfg
}

/// A name (or a mark's label) with the tab and line breaks that delimit rows
/// replaced by spaces.
pub open spec fn scrubbed(s: Seq<char>) -> Seq<char> {
    s.map_values(|c: char| if c == '\t' || c == '\n' || c == '\r' { ' ' } else { c })
}

pub fn scrub(s: &str) -> (r: String)
    ensures
        r@ == scrubbed(s@),
{
    let v = chars_of(s);
    let mut r = String::new();
    let mut i: usize = 0;
    while i < v.len()
        invariant
            i <= v@.len(),
            v@ == s@,
            r@ == scrubbed(v@.take(i as int)),
        decreases v@.len() - i,
    {
        let c = v[i];
        r.push(if c == '\t' || c == '\n' || c == '\r' { ' ' } else { c });
        i = i + 1;
        proof {
            assert(r@ =~= scrubbed(v@.take(i as int)));
        }
    }
    proof {
        assert(v@.take(i as int) =~= v@);
    }
    r
}

/// One share as a cache row `(id, user, display)`, scrubbing the tab/newline
/// delimiters out of the (user-controlled) names so a display name can't corrupt
/// the TSV.
pub fn share_row(s: &TripShare) -> (row: (String, String, String))
    ensures
        row.0@ == s.id@,
        row.1@ == scrubbed(s.user@),
        row.2@ == scrubbed(s.display_name@),
{
    (s.id.clone(), scrub(s.user.as_str()), scrub(s.display_name.as_str()))
}

} // verus!

verus! {

/// A share cache line that holds a row: not empty, not a `#` header.
pub open spec fn share_line(l: Seq<char>) -> bool {
    l.len() > 0 && l[0] != '#'
}

/// The `(id, user, display)` a cache line holds: its first two tab-separated
/// fields and the third (the user again when missing); `None` without a user.
pub open spec fn share_fields(l: Seq<char>) -> Option<(Seq<char>, Seq<char>, Seq<char>)> {
    let f = crate::text::split_spec(l, '\t');
    if !share_line(l) || f.len() < 2 {
        None
    } else {
        Some((f[0], f[1], if f.len() > 2 { f[2] } else { f[1] }))
    }
}

/// The rows of a share cache text, in order.
pub open spec fn share_rows_of(lines: Seq<Seq<char>>) -> Seq<(Seq<char>, Seq<char>, Seq<char>)>
    decreases lines.len(),
{
    if lines.len() == 0 {
        Seq::empty()
    } else {
        let before = share_rows_of(lines.drop_last());
        match share_fields(lines.last()) {
            Some(r) => before.push(r),
            None => before,
        }
    }
}

pub open spec fn row_views(rows: Seq<(String, String, String)>) -> Seq<(Seq<char>, Seq<char>, Seq<char>)> {
    rows.map_values(|r: (String, String, String)| (r.0@, r.1@, r.2@))
}

/// Read a trip's share cache text.
pub fn parse_share_rows(txt: &str) -> (rows: Vec<(String, String, String)>)
    ensures
        row_views(rows@) == share_rows_of(crate::text::lines_spec(txt@)),
{
    let v = chars_of(txt);
    let lines = crate::text::lines_of(v.as_slice());
    let ghost ls = crate::text::lines_spec(txt@);
    let mut rows: Vec<(String, String, String)> = Vec::new();
    let mut i: usize = 0;
    while i < lines.len()
        invariant
            i <= lines@.len(),
            lines@.len() == ls.len(),
            ls == crate::text::lines_spec(txt@),
            forall|k: int| 0 <= k < lines@.len() ==> #[trigger] lines@[k]@ == ls[k],
            row_views(rows@) == share_rows_of(ls.take(i as int)),
        decreases lines@.len() - i,
    {
        proof {
            assert(ls.take(i + 1).drop_last() =~= ls.take(i as int));
            assert(ls.take(i + 1).last() == ls[i as int]);
        }
        let lc = chars_of(lines[i].as_str());
        if lc.len() > 0 && lc[0] != '#' {
            let f = crate::text::split_at_char(lc.as_slice(), '\t');
            if f.len() >= 2 {
                let disp = if f.len() > 2 { f[2].clone() } else { f[1].clone() };
                let ghost r0 = row_views(rows@);
                rows.push((f[0].clone(), f[1].clone(), disp));
                proof {
                    assert(row_views(rows@) =~= r0.push(share_fields(ls[i as int]).unwrap()));
                }
            }
        }
        i = i + 1;
    }
    proof {
        assert(ls.take(i as int) =~= ls);
    }
    rows
}

/// How many people a trip was shared with as of the cache: its row lines.
pub open spec fn share_count(lines: Seq<Seq<char>>) -> nat
    decreases lines.len(),
{
    if lines.len() == 0 {
        0
    } else {
        share_count(lines.drop_last()) + if share_line(lines.last()) { 1nat } else { 0nat }
    }
}

pub fn cached_count(txt: &str) -> (n: usize)
    ensures
        n == share_count(crate::text::lines_spec(txt@)),
{
    let v = chars_of(txt);
    let lines = crate::text::lines_of(v.as_slice());
    let ghost ls = crate::text::lines_spec(txt@);
    let mut n: usize = 0;
    let mut i: usize = 0;
    while i < lines.len()
        invariant
            i <= lines@.len(),
            lines@.len() == ls.len(),
            forall|k: int| 0 <= k < lines@.len() ==> #[trigger] lines@[k]@ == ls[k],
            n == share_count(ls.take(i as int)),
            n <= i,
        decreases lines@.len() - i,
    {
        proof {
            assert(ls.take(i + 1).drop_last() =~= ls.take(i as int));
            assert(ls.take(i + 1).last() == ls[i as int]);
        }
        let lc = chars_of(lines[i].as_str());
        if lc.len() > 0 && lc[0] != '#' {
            n = n + 1;
        }
        i = i + 1;
    }
    proof {
        assert(ls.take(i as int) =~= ls);
    }
    n
}

/// The share cache text: a `#checked` header with the time, then a row per share.
pub open spec fn share_cache_spec(checked: i64, rows: Seq<(Seq<char>, Seq<char>, Seq<char>)>) -> Seq<char>
    decreases rows.len(),
{
    if rows.len() == 0 {
        "#checked\t"@ + crate::text::dec_i(checked as int) + seq!['\n']
    } else {
        let r = rows.last();
        share_cache_spec(checked, rows.drop_last()) + r.0 + seq!['\t'] + r.1 + seq!['\t'] + r.2 + seq!['\n']
    }
}

pub fn share_cache_text(checked: i64, rows: &[(String, String, String)]) -> (t: String)
    ensures
        t@ == share_cache_spec(checked, row_views(rows@)),
{
    let mut t = "#checked\t".to_string();
    push_str(&mut t, crate::text::i64_dec(checked).as_str());
    t.push('\n');
    let mut i: usize = 0;
    proof {
        assert(row_views(rows@).take(0).len() == 0);
    }
    while i < rows.len()
        invariant
            i <= rows@.len(),
            t@ == share_cache_spec(checked, row_views(rows@).take(i as int)),
        decreases rows@.len() - i,
    {
        proof {
            assert(row_views(rows@).take(i + 1).drop_last() =~= row_views(rows@).take(i as int));
        }
        push_str(&mut t, rows[i].0.as_str());
        t.push('\t');
        push_str(&mut t, rows[i].1.as_str());
        t.push('\t');
        push_str(&mut t, rows[i].2.as_str());
        t.push('\n');
        i = i + 1;
        proof {
            assert(t@ =~= share_cache_spec(checked, row_views(rows@).take(i as int)));
        }
    }
    proof {
        assert(row_views(rows@).take(i as int) =~= row_views(rows@));
    }
    t
}

/// The cached rows without the share `id`.
pub open spec fn without_share(rows: Seq<(Seq<char>, Seq<char>, Seq<char>)>, id: Seq<char>) -> Seq<(Seq<char>, Seq<char>, Seq<char>)>
    decreases rows.len(),
{
    if rows.len() == 0 {
        Seq::empty()
    } else {
        let before = without_share(rows.drop_last(), id);
        if rows.last().0 == id {
            before
        } else {
            before.push(rows.last())
        }
    }
}

/// Drop a share's row from the cache (a revoke), or, with `add`, put its new row
/// at the end in place of any old one (a new share), so the chip stays exact
/// without a re-list.
pub fn update_rows(rows: &mut Vec<(String, String, String)>, id: &str, add: Option<(String, String, String)>)
    ensures
        row_views(final(rows)@) == match add {
            Some(r) => without_share(row_views(old(rows)@), id@).push((r.0@, r.1@, r.2@)),
            None => without_share(row_views(old(rows)@), id@),
        },
{
    let ghost before = row_views(rows@);
    let mut kept: Vec<(String, String, String)> = Vec::new();
    let mut i: usize = 0;
    while i < rows.len()
        invariant
            i <= rows@.len(),
            before == row_views(rows@),
            row_views(kept@) == without_share(before.take(i as int), id@),
        decreases rows@.len() - i,
    {
        proof {
            assert(before.take(i + 1).drop_last() =~= before.take(i as int));
            assert(before.take(i + 1).last() == before[i as int]);
        }
        if !crate::text::str_eq(rows[i].0.as_str(), id) {
            let ghost k0 = row_views(kept@);
            kept.push((rows[i].0.clone(), rows[i].1.clone(), rows[i].2.clone()));
            proof {
                assert(row_views(kept@) =~= k0.push(before[i as int]));
            }
        }
        i = i + 1;
    }
    proof {
        assert(before.take(i as int) =~= before);
    }
    match add {
        Some(r) => {
            let ghost k0 = row_views(kept@);
            let ghost rv = (r.0@, r.1@, r.2@);
            kept.push(r);
            proof {
                assert(row_views(kept@) =~= k0.push(rv));
            }
        },
        None => {},
    }
    *rows = kept;
}

/// An OCS share id: not empty once trimmed, and all ASCII digits.
pub open spec fn share_id_ok_spec(id: Seq<char>) -> bool {
    let t = crate::text::trim(id);
    t.len() > 0 && forall|i: int| 0 <= i < t.len() ==> crate::text::is_digit(#[trigger] t[i])
}

/// The trimmed share id when it is a valid one.
pub fn share_id(id: &str) -> (r: Option<String>)
    ensures
        match r {
            Some(t) => share_id_ok_spec(id@) && t@ == crate::text::trim(id@),
            None => !share_id_ok_spec(id@),
        },
{
    let v = chars_of(id);
    let t = crate::text::trim_range(v.as_slice(), 0, v.len());
    proof {
        assert(v@.subrange(0, v@.len() as int) =~= id@);
    }
    let tc = chars_of(t.as_str());
    if tc.len() == 0 {
        return None;
    }
    let mut i: usize = 0;
    while i < tc.len()
        invariant
            i <= tc@.len(),
            tc@ == crate::text::trim(id@),
            forall|j: int| 0 <= j < i ==> crate::text::is_digit(#[trigger] tc@[j]),
        decreases tc@.len() - i,
    {
        if !crate::text::char_is_digit(tc[i]) {
            proof {
                assert(!crate::text::is_digit(tc@[i as int]));
            }
            return None;
        }
        i = i + 1;
    }
    Some(t)
}

/// Why adding a share for `user` (as typed) is refused, if it is: nothing to
/// share with once trimmed, or your own account.
pub open spec fn add_refusal(user: Seq<char>, me: Seq<char>) -> Option<Seq<char>> {
    let u = crate::text::trim(user);
    if u.len() == 0 {
        Some("no username to share with"@)
    } else if u == me {
        Some("that's your own account — it already owns the trip"@)
    } else {
        None
    }
}

/// Check a new share and give the trimmed user to share with.
pub fn add_check(user: &str, me: &str) -> (r: Result<String, String>)
    ensures
        match r {
            Ok(u) => add_refusal(user@, me@) is None && u@ == crate::text::trim(user@),
            Err(e) => add_refusal(user@, me@) == Some(e@),
        },
{
    let v = chars_of(user);
    let u = crate::text::trim_range(v.as_slice(), 0, v.len());
    proof {
        assert(v@.subrange(0, v@.len() as int) =~= user@);
    }
    if u.as_str().unicode_len() == 0 {
        return Err("no username to share with".to_string());
    }
    if crate::text::str_eq(u.as_str(), me) {
        return Err("that's your own account — it already owns the trip".to_string());
    }
    Ok(u)
}

/// One share as the OCS API describes it, its fields read out of the reply.
pub struct ShareFields {
    pub share_type: Option<i64>,
    pub id: Option<String>,
    pub share_with: Option<String>,
    pub display: Option<String>,
    pub permissions: Option<u64>,
}

/// A user share (type 0) with an id and a user, named by its display name when
/// that is not empty, else by the user. Link, group and email shares are not
/// friends.
pub fn one_share(f: ShareFields) -> (r: Option<TripShare>)
    ensures
        (f.share_type != Some(0i64) || f.id is None || f.share_with is None) ==> r is None,
        (f.share_type == Some(0i64) && f.id is Some && f.share_with is Some) ==> (r matches Some(s) && {
            &&& s.id == f.id.unwrap()
            &&& s.user == f.share_with.unwrap()
            &&& s.display_name@ == (match f.display {
                Some(d) => if d@.len() > 0 { d@ } else { f.share_with.unwrap()@ },
                None => f.share_with.unwrap()@,
            })
            &&& s.permissions == (match f.permissions {
                Some(p) => p as u32,
                None => 0u32,
            })
        }),
{
    match (f.share_type, f.id, f.share_with) {
        (Some(t), Some(id), Some(user)) => {
            if t != 0 {
                return None;
            }
            let display = match f.display {
                Some(d) => if d.as_str().unicode_len() > 0 { d } else { user.clone() },
                None => user.clone(),
            };
            let permissions: u32 = match f.permissions {
                Some(p) => p as u32,
                None => 0,
            };
            Some(TripShare { id, user, display_name: display, permissions })
        },
        _ => None,
    }
}

/// The people among candidates `(user, label)`: each user once, the first time
/// seen, never `me` (when given), named by the label when it is not empty. A
/// search's candidates (exact matches first) become its sharees; the rows of all
/// the share caches become everyone you have shared with.
pub open spec fn sharees_of(cands: Seq<(Option<String>, Option<String>)>, me: Option<Seq<char>>) -> Seq<(Seq<char>, Seq<char>)>
    decreases cands.len(),
{
    if cands.len() == 0 {
        Seq::empty()
    } else {
        let before = sharees_of(cands.drop_last(), me);
        let (u, l) = cands.last();
        match u {
            Some(user) => if me == Some(user@) || exists|k: int|
                0 <= k < before.len() && (#[trigger] before[k]).0 == user@ {
                before
            } else {
                before.push(
                    (
                        user@,
                        match l {
                            Some(x) => if x@.len() > 0 { x@ } else { user@ },
                            None => user@,
                        },
                    ),
                )
            },
            None => before,
        }
    }
}

pub fn sharees(cands: &[(Option<String>, Option<String>)], me: Option<&str>) -> (r: Vec<crate::model::Sharee>)
    ensures
        r@.map_values(|s: crate::model::Sharee| (s.user@, s.display_name@)) == sharees_of(
            cands@,
            crate::media::opt_str(me),
        ),
{
    let mut r: Vec<crate::model::Sharee> = Vec::new();
    let mut i: usize = 0;
    while i < cands.len()
        invariant
            i <= cands@.len(),
            r@.map_values(|s: crate::model::Sharee| (s.user@, s.display_name@)) == sharees_of(
                cands@.take(i as int),
                crate::media::opt_str(me),
            ),
        decreases cands@.len() - i,
    {
        let ghost rv = r@.map_values(|s: crate::model::Sharee| (s.user@, s.display_name@));
        proof {
            assert(cands@.take(i + 1).drop_last() =~= cands@.take(i as int));
            assert(cands@.take(i + 1).last() == cands@[i as int]);
        }
        match &cands[i].0 {
            Some(user) => {
                let mut seen = false;
                let mut k: usize = 0;
                while k < r.len()
                    invariant
                        k <= r@.len(),
                        rv == r@.map_values(|s: crate::model::Sharee| (s.user@, s.display_name@)),
                        seen == exists|j: int| 0 <= j < k && (#[trigger] rv[j]).0 == user@,
                    decreases r@.len() - k,
                {
                    proof {
                        assert(rv[k as int] == (r@[k as int].user@, r@[k as int].display_name@));
                    }
                    if crate::text::str_eq(r[k].user.as_str(), user.as_str()) {
                        seen = true;
                    }
                    k = k + 1;
                }
                let is_me = match me {
                    Some(m) => crate::text::str_eq(user.as_str(), m),
                    None => false,
                };
                if !is_me && !seen {
                    let display = match &cands[i].1 {
                        Some(l) => if l.as_str().unicode_len() > 0 { l.clone() } else { user.clone() },
                        None => user.clone(),
                    };
                    r.push(crate::model::Sharee { user: user.clone(), display_name: display });
                    proof {
                        assert(r@.map_values(|s: crate::model::Sharee| (s.user@, s.display_name@)) =~= sharees_of(
                            cands@.take(i + 1),
                            crate::media::opt_str(me),
                        ));
                    }
                }
            },
            None => {},
        }
        i = i + 1;
    }
    proof {
        assert(cands@.take(i as int) =~= cands@);
    }
    r
}

/// A remote's entry in `rclone config dump`, its members read out of the JSON:
/// `type`, `url`, `user` and `pass` where they are strings, and
/// `no_check_certificate` as a boolean or as a string, whichever it is.
pub struct RemoteFields {
    pub typ: Option<String>,
    pub url: Option<String>,
    pub user: Option<String>,
    pub pass: Option<String>,
    pub insecure_flag: Option<bool>,
    pub insecure_text: Option<String>,
}

pub open spec fn remote_fields_view(f: RemoteFields) -> (Option<Seq<char>>, Option<Seq<char>>, Option<Seq<char>>, Option<Seq<char>>, Option<bool>, Option<Seq<char>>) {
    (opt_view(f.typ), opt_view(f.url), opt_view(f.user), opt_view(f.pass), f.insecure_flag, opt_view(f.insecure_text))
}

/// What `serde_json::from_str` reads from the output of `rclone config dump` for
/// the remote `name`: the parser's message when the text is not JSON, `None` when
/// it has no member `name`, else that member's fields as `RemoteFields` holds them.
pub uninterp spec fn remote_entry(dump: Seq<char>, name: Seq<char>) -> Result<Option<(Option<Seq<char>>, Option<Seq<char>>, Option<Seq<char>>, Option<Seq<char>>, Option<bool>, Option<Seq<char>>)>, Seq<char>>;

/// Parses `rclone config dump` with `serde_json::from_str` and reads the member
/// `name` of the top-level object. The contract claims only that the result is
/// `remote_entry` of the two texts; the parser's message is serde_json's own.
#[verifier::external_body]
fn read_remote(dump: &str, name: &str) -> (r: Result<Option<RemoteFields>, String>)
    ensures
        match r {
            Ok(Some(f)) => remote_entry(dump@, name@) == Ok::<_, Seq<char>>(Some(remote_fields_view(f))),
            Ok(None) => remote_entry(dump@, name@) == Ok::<_, Seq<char>>(None::<(Option<Seq<char>>, Option<Seq<char>>, Option<Seq<char>>, Option<Seq<char>>, Option<bool>, Option<Seq<char>>)>),
            Err(e) => remote_entry(dump@, name@) == Err::<Option<(Option<Seq<char>>, Option<Seq<char>>, Option<Seq<char>>, Option<Seq<char>>, Option<bool>, Option<Seq<char>>)>, Seq<char>>(e@),
        },
{
    let all: serde_json::Value = serde_json::from_str(dump).map_err(|e| e.to_string())?;
    Ok(all.get(name).map(|r| {
        let text = |k: &str| r.get(k).and_then(|v| v.as_str()).map(str::to_string);
        let flag = r.get("no_check_certificate");
        let (insecure_flag, insecure_text) = (flag.and_then(|v| v.as_bool()), flag.and_then(|v| v.as_str()).map(str::to_string));
        RemoteFields { typ: text("type"), url: text("url"), user: text("user"), pass: text("pass"), insecure_flag, insecure_text }
    }))
}

/// rclone writes booleans in `config dump` as the strings "true"/"false"; either
/// form counts, the string in any case.
pub open spec fn truthy_spec(flag: Option<bool>, text: Option<Seq<char>>) -> bool {
    match flag {
        Some(b) => b,
        None => match text {
            Some(t) => eq_ignore_case(t, "true"@),
            None => false,
        },
    }
}

/// Whether a config value is set: a JSON `true`, or the text "true" in any case.
pub fn truthy(flag: Option<bool>, text: Option<&str>) -> (r: bool)
    ensures
        r == truthy_spec(flag, opt_str(text)),
{
    match flag {
        Some(b) => b,
        None => match text {
            Some(t) => {
                let v = chars_of(t);
                eq_ignore_ascii_case(v.as_slice(), "true")
            },
            None => false,
        },
    }
}

/// A missing text reads as empty.
pub open spec fn or_empty(t: Option<Seq<char>>) -> Seq<char> {
    match t {
        Some(x) => x,
        None => Seq::empty(),
    }
}

fn text_or_empty(t: Option<String>) -> (r: String)
    ensures
        r@ == or_empty(opt_view(t)),
{
    match t {
        Some(x) => x,
        None => String::new(),
    }
}

/// What sharing needs of the configured rclone remote.
pub struct RemoteConfig {
    /// The webdav URL.
    pub url: String,
    /// The login.
    pub user: String,
    /// The password, as rclone keeps it (obscured).
    pub pass: String,
    /// Whether the remote skips TLS certificate checks.
    pub insecure: bool,
}

/// The remote `name` from the output of `rclone config dump`, which must be a
/// webdav remote: the only kind the share API can be driven against.
pub fn remote_config(dump: &str, name: &str) -> (r: Result<RemoteConfig, String>)
    ensures
        match remote_entry(dump@, name@) {
            Err(t) => r matches Err(m) && m@ == "bad rclone config: "@ + t,
            Ok(None) => r matches Err(m) && m@ == "rclone remote '"@ + name@ + ":' not found"@,
            Ok(Some(f)) => if or_empty(f.0) != "webdav"@ {
                r matches Err(m) && m@ == "sharing needs a Nextcloud (webdav) remote; '"@ + name@ + ":' is a "@ + or_empty(f.0) + " remote"@
            } else {
                r matches Ok(c) && {
                    &&& c.url@ == or_empty(f.1)
                    &&& c.user@ == or_empty(f.2)
                    &&& c.pass@ == or_empty(f.3)
                    &&& c.insecure == truthy_spec(f.4, f.5)
                }
            },
        },
{
    match read_remote(dump, name) {
        Err(t) => {
            let mut m = "bad rclone config: ".to_string();
            push_str(&mut m, t.as_str());
            Err(m)
        },
        Ok(None) => {
            let mut m = "rclone remote '".to_string();
            push_str(&mut m, name);
            push_str(&mut m, ":' not found");
            Err(m)
        },
        Ok(Some(f)) => {
            let ghost fv = remote_fields_view(f);
            let typ = text_or_empty(f.typ);
            if !str_eq(typ.as_str(), "webdav") {
                let mut m = "sharing needs a Nextcloud (webdav) remote; '".to_string();
                push_str(&mut m, name);
                push_str(&mut m, ":' is a ");
                push_str(&mut m, typ.as_str());
                push_str(&mut m, " remote");
                return Err(m);
            }
            let insecure = match &f.insecure_text {
                Some(t) => truthy(f.insecure_flag, Some(t.as_str())),
                None => truthy(f.insecure_flag, None),
            };
            Ok(RemoteConfig { url: text_or_empty(f.url), user: text_or_empty(f.user), pass: text_or_empty(f.pass), insecure })
        },
    }
}

/// A share's fields as the OCS reply gives them.
pub open spec fn share_view(f: ShareFields) -> (Option<i64>, Option<Seq<char>>, Option<Seq<char>>, Option<Seq<char>>, Option<u64>) {
    (f.share_type, opt_view(f.id), opt_view(f.share_with), opt_view(f.display), f.permissions)
}

/// An OCS reply, its members read out of the envelope `{ocs: {meta, data}}`.
pub struct OcsFields {
    /// `meta.status`.
    pub status: Option<String>,
    /// `meta.message`.
    pub message: Option<String>,
    /// `meta.statuscode`.
    pub code: Option<i64>,
    /// `data` read as a list of shares, where it is an array.
    pub shares: Option<Vec<ShareFields>>,
    /// `data` read as one share.
    pub share: ShareFields,
    /// The sharee candidates `(value.shareWith, label)` of `data`: its
    /// `exact.users`, then its `users`.
    pub sharees: Vec<(Option<String>, Option<String>)>,
}

pub open spec fn ocs_view(f: OcsFields) -> (
    Option<Seq<char>>,
    Option<Seq<char>>,
    Option<i64>,
    Option<Seq<(Option<i64>, Option<Seq<char>>, Option<Seq<char>>, Option<Seq<char>>, Option<u64>)>>,
    (Option<i64>, Option<Seq<char>>, Option<Seq<char>>, Option<Seq<char>>, Option<u64>),
    Seq<(Option<Seq<char>>, Option<Seq<char>>)>,
) {
    (
        opt_view(f.status),
        opt_view(f.message),
        f.code,
        match f.shares {
            Some(v) => Some(v@.map_values(|x: ShareFields| share_view(x))),
            None => None,
        },
        share_view(f.share),
        f.sharees@.map_values(|c: (Option<String>, Option<String>)| (opt_view(c.0), opt_view(c.1))),
    )
}

/// What `serde_json::from_str` reads from a reply of the Nextcloud share API:
/// its `ocs.meta.status`, `ocs.meta.message` where they are strings and its
/// `ocs.meta.statuscode` where that is an integer; `None` when the text is not
/// JSON.
pub uninterp spec fn ocs_reply(body: Seq<char>) -> Option<(Option<Seq<char>>, Option<Seq<char>>, Option<i64>)>;

/// Parses a share-API reply with `serde_json::from_str` and reads the envelope's
/// status. The contract claims only that the result is `ocs_reply` of the text.
#[verifier::external_body]
fn read_ocs(body: &str) -> (r: Option<(Option<String>, Option<String>, Option<i64>)>)
    ensures
        match r {
            Some(f) => ocs_reply(body@) == Some((opt_view(f.0), opt_view(f.1), f.2)),
            None => ocs_reply(body@) is None,
        },
{
    let v: serde_json::Value = serde_json::from_str(body).ok()?;
    let m = &v["ocs"]["meta"];
    Some((m["status"].as_str().map(str::to_string), m["message"].as_str().map(str::to_string), m["statuscode"].as_i64()))
}

/// What `serde_json::from_str` reads from a reply of the share API as shares: its
/// `ocs.data` as a list of shares where that is an array, and as one share. Each
/// share is its `share_type` and `permissions` where they are integers, its
/// `share_with` and `share_with_displayname` where they are strings, and its `id`
/// as the decimal text of a number or as a string. No list and no fields when the
/// text is not JSON.
pub uninterp spec fn ocs_shares(body: Seq<char>) -> (
    Option<Seq<(Option<i64>, Option<Seq<char>>, Option<Seq<char>>, Option<Seq<char>>, Option<u64>)>>,
    (Option<i64>, Option<Seq<char>>, Option<Seq<char>>, Option<Seq<char>>, Option<u64>),
);

/// Parses a share-API reply with `serde_json::from_str` and reads its `data` as
/// shares. The contract claims only that the result is `ocs_shares` of the text.
#[verifier::external_body]
fn read_shares(body: &str) -> (r: (Option<Vec<ShareFields>>, ShareFields))
    ensures
        ocs_shares(body@) == (
            match r.0 {
                Some(v) => Some(v@.map_values(|x: ShareFields| share_view(x))),
                None => None,
            },
            share_view(r.1),
        ),
{
    let v: serde_json::Value = serde_json::from_str(body).unwrap_or_default();
    let s = |x: &serde_json::Value, k: &str| x[k].as_str().map(str::to_string);
    let share = |x: &serde_json::Value| ShareFields { share_type: x["share_type"].as_i64(), id: match &x["id"] { serde_json::Value::Number(n) => Some(n.to_string()), _ => s(x, "id") }, share_with: s(x, "share_with"), display: s(x, "share_with_displayname"), permissions: x["permissions"].as_u64() };
    let data = &v["ocs"]["data"];
    (data.as_array().map(|a| a.iter().map(share).collect()), share(data))
}

/// What `serde_json::from_str` reads from a reply of the share API's sharee
/// search: for each member of `ocs.data.exact.users`, then of `ocs.data.users`,
/// its `value.shareWith` and its `label` where they are strings. Empty when the
/// text is not JSON.
pub uninterp spec fn sharee_candidates(body: Seq<char>) -> Seq<(Option<Seq<char>>, Option<Seq<char>>)>;

/// Parses a share-API reply with `serde_json::from_str` and reads its sharee
/// candidates. The contract claims only that the result is `sharee_candidates` of
/// the text.
#[verifier::external_body]
fn read_sharees(body: &str) -> (r: Vec<(Option<String>, Option<String>)>)
    ensures
        sharee_candidates(body@) == r@.map_values(|c: (Option<String>, Option<String>)| (opt_view(c.0), opt_view(c.1))),
{
    let Ok(v) = serde_json::from_str::<serde_json::Value>(body) else { return Vec::new() };
    let data = &v["ocs"]["data"];
    let text = |x: &serde_json::Value| x.as_str().map(str::to_string);
    let users = [data["exact"]["users"].as_array(), data["users"].as_array()];
    users.into_iter().flatten().flatten().map(|m| (text(&m["value"]["shareWith"]), text(&m["label"]))).collect()
}

/// The message of a failed OCS request: the server's message (or a generic one)
/// and its status code (0 when it gave none).
pub open spec fn ocs_failure(message: Option<Seq<char>>, code: Option<i64>) -> Seq<char> {
    "Nextcloud: "@ + (match message {
        Some(m) => m,
        None => "share request failed"@,
    }) + " ("@ + dec_i(match code {
        Some(c) => c as int,
        None => 0,
    }) + ")"@
}

/// A reply of the share API, when it is JSON and its `meta.status` is "ok";
/// otherwise what went wrong.
pub fn ocs_data(body: &str) -> (r: Result<OcsFields, String>)
    ensures
        match ocs_reply(body@) {
            None => r matches Err(m) && m@ == "Nextcloud returned an unexpected (non-JSON) response"@,
            Some(f) => if f.0 == Some("ok"@) {
                r matches Ok(o) && ocs_view(o) == (f.0, f.1, f.2, ocs_shares(body@).0, ocs_shares(body@).1, sharee_candidates(body@))
            } else {
                r matches Err(m) && m@ == ocs_failure(f.1, f.2)
            },
        },
{
    match read_ocs(body) {
        None => Err("Nextcloud returned an unexpected (non-JSON) response".to_string()),
        Some(f) => {
            let ok = match &f.0 {
                Some(t) => str_eq(t.as_str(), "ok"),
                None => false,
            };
            if ok {
                let (shares, share) = read_shares(body);
                let sharees = read_sharees(body);
                return Ok(OcsFields { status: f.0, message: f.1, code: f.2, shares, share, sharees });
            }
            let mut m = "Nextcloud: ".to_string();
            match &f.1 {
                Some(t) => push_str(&mut m, t.as_str()),
                None => push_str(&mut m, "share request failed"),
            }
            push_str(&mut m, " (");
            let code: i64 = match f.2 {
                Some(c) => c,
                None => 0,
            };
            let d = i64_dec(code);
            push_str(&mut m, d.as_str());
            push_str(&mut m, ")");
            Err(m)
        },
    }
}

/// What `one_share` makes of a share's fields: its id, user, display name and
/// permissions, for a user share with an id and a user.
pub open spec fn user_share(v: (Option<i64>, Option<Seq<char>>, Option<Seq<char>>, Option<Seq<char>>, Option<u64>)) -> Option<(Seq<char>, Seq<char>, Seq<char>, u32)> {
    if v.0 == Some(0i64) && v.1 is Some && v.2 is Some {
        Some(
            (
                v.1.unwrap(),
                v.2.unwrap(),
                match v.3 {
                    Some(d) => if d.len() > 0 { d } else { v.2.unwrap() },
                    None => v.2.unwrap(),
                },
                match v.4 {
                    Some(p) => p as u32,
                    None => 0u32,
                },
            ),
        )
    } else {
        None
    }
}

/// The user shares among a list of shares, in order.
pub open spec fn user_shares(vs: Seq<(Option<i64>, Option<Seq<char>>, Option<Seq<char>>, Option<Seq<char>>, Option<u64>)>) -> Seq<(Seq<char>, Seq<char>, Seq<char>, u32)>
    decreases vs.len(),
{
    if vs.len() == 0 {
        Seq::empty()
    } else {
        let before = user_shares(vs.drop_last());
        match user_share(vs.last()) {
            Some(t) => before.push(t),
            None => before,
        }
    }
}

pub open spec fn trip_share_view(s: TripShare) -> (Seq<char>, Seq<char>, Seq<char>, u32) {
    (s.id@, s.user@, s.display_name@, s.permissions)
}

fn copy_text(t: &Option<String>) -> (r: Option<String>)
    ensures
        opt_view(r) == opt_view(*t),
{
    match t {
        Some(x) => Some(x.clone()),
        None => None,
    }
}

/// The user shares of a reply, each keyed by its lower-cased display name.
pub open spec fn keyed_shares(ts: Seq<(Seq<char>, Seq<char>, Seq<char>, u32)>) -> Seq<(Seq<char>, (Seq<char>, Seq<char>, Seq<char>, u32))> {
    ts.map_values(|t: (Seq<char>, Seq<char>, Seq<char>, u32)| (lowercase_of(t.2), t))
}

/// The user shares of a `GET /shares` reply (none when its `data` is not an
/// array), in the order of their lower-cased display names, ties in reply order.
pub open spec fn shares_in_order(reply_shares: Option<Seq<(Option<i64>, Option<Seq<char>>, Option<Seq<char>>, Option<Seq<char>>, Option<u64>)>>) -> Seq<(Seq<char>, Seq<char>, Seq<char>, u32)> {
    match reply_shares {
        Some(vs) => stable_sort(keyed_shares(user_shares(vs))).map_values(
            |p: (Seq<char>, (Seq<char>, Seq<char>, Seq<char>, u32))| p.1,
        ),
        None => Seq::empty(),
    }
}

/// The user shares of a `GET /shares` reply, sorted by display name ignoring
/// case (as lower-cased by std), shares with the same such name in reply order.
pub fn parse_shares(reply: &OcsFields) -> (r: Vec<TripShare>)
    ensures
        r@.map_values(|s: TripShare| trip_share_view(s)) == shares_in_order(
            match reply.shares {
                Some(v) => Some(v@.map_values(|x: ShareFields| share_view(x))),
                None => None,
            },
        ),
        forall|a: int, b: int|
            0 <= a < b < r@.len() ==> !crate::text::lex_lt(
                lowercase_of((#[trigger] r@[b]).display_name@),
                lowercase_of((#[trigger] r@[a]).display_name@),
            ),
{
    let ghost f: spec_fn(TripShare) -> (Seq<char>, Seq<char>, Seq<char>, u32) = |s: TripShare| trip_share_view(s);
    let mut r: Vec<(String, TripShare)> = Vec::new();
    match &reply.shares {
        None => {
            proof {
                assert(items_view(Seq::<TripShare>::empty(), f) =~= Seq::empty());
            }
            Vec::new()
        },
        Some(v) => {
            let ghost vs = v@.map_values(|x: ShareFields| share_view(x));
            let mut i: usize = 0;
            while i < v.len()
                invariant
                    i <= v@.len(),
                    vs == v@.map_values(|x: ShareFields| share_view(x)),
                    f == (|s: TripShare| trip_share_view(s)),
                    keyed_view(r@, f) == keyed_shares(user_shares(vs.take(i as int))),
                decreases v@.len() - i,
            {
                let fs = ShareFields {
                    share_type: v[i].share_type,
                    id: copy_text(&v[i].id),
                    share_with: copy_text(&v[i].share_with),
                    display: copy_text(&v[i].display),
                    permissions: v[i].permissions,
                };
                proof {
                    assert(share_view(fs) == vs[i as int]);
                    assert(vs.take(i + 1).drop_last() =~= vs.take(i as int));
                    assert(vs.take(i + 1).last() == vs[i as int]);
                }
                match one_share(fs) {
                    Some(s) => {
                        let key = to_lowercase(s.display_name.as_str());
                        let ghost t = trip_share_view(s);
                        proof {
                            assert(f(s) == t);
                            assert(user_share(vs[i as int]) == Some(t));
                            assert(user_shares(vs.take(i + 1)) == user_shares(vs.take(i as int)).push(t));
                        }
                        let ghost r0 = r@;
                        r.push((key, s));
                        proof {
                            assert(keyed_view(r@, f) =~= keyed_view(r0, f).push((key@, t)));
                            assert(keyed_view(r@, f) =~= keyed_shares(user_shares(vs.take(i + 1))));
                        }
                    },
                    None => {
                        proof {
                            assert(keyed_view(r@, f) =~= keyed_shares(user_shares(vs.take(i + 1))));
                        }
                    },
                }
                i = i + 1;
            }
            proof {
                assert(vs.take(v@.len() as int) =~= vs);
            }
            let sorted = sort_keyed::<TripShare, (Seq<char>, Seq<char>, Seq<char>, u32)>(r, Ghost(f));
            let out = values_of::<TripShare, (Seq<char>, Seq<char>, Seq<char>, u32)>(sorted, Ghost(f));
            proof {
                let st = stable_sort(keyed_view(r@, f));
                assert(values_view(sorted@, f) =~= st.map_values(
                    |p: (Seq<char>, (Seq<char>, Seq<char>, Seq<char>, u32))| p.1,
                ));
                assert(out@.map_values(|s: TripShare| trip_share_view(s)) =~= items_view(out@, f));
                let us = user_shares(vs);
                let k: spec_fn((Seq<char>, Seq<char>, Seq<char>, u32)) -> Seq<char> = |t: (Seq<char>, Seq<char>, Seq<char>, u32)| lowercase_of(t.2);
                assert(us.map_values(|t: (Seq<char>, Seq<char>, Seq<char>, u32)| (k(t), t)) =~= keyed_shares(us));
                lemma_sorted_by(us, k);
                let ov = items_view(out@, f);
                assert(ov =~= sorted_by(us, k));
                assert forall|a: int, b: int| 0 <= a < b < out@.len() implies !crate::text::lex_lt(
                    lowercase_of((#[trigger] out@[b]).display_name@),
                    lowercase_of((#[trigger] out@[a]).display_name@),
                ) by {
                    assert(ov[a].2 == out@[a].display_name@);
                    assert(ov[b].2 == out@[b].display_name@);
                    assert(!crate::text::lex_lt(k(ov[b]), k(ov[a])));
                }
            }
            out
        },
    }
}

/// The rows of all the share caches, cache after cache.
pub open spec fn all_rows(cs: Seq<Vec<(String, String, String)>>) -> Seq<(Seq<char>, Seq<char>, Seq<char>)>
    decreases cs.len(),
{
    if cs.len() == 0 {
        Seq::empty()
    } else {
        all_rows(cs.drop_last()) + row_views(cs.last()@)
    }
}

/// Each user the rows name, once, with the display name of the first row naming
/// them, in the order first seen.
pub open spec fn first_rows(rows: Seq<(Seq<char>, Seq<char>, Seq<char>)>) -> Seq<(Seq<char>, Seq<char>)>
    decreases rows.len(),
{
    if rows.len() == 0 {
        Seq::empty()
    } else {
        let before = first_rows(rows.drop_last());
        let r = rows.last();
        if exists|k: int| 0 <= k < before.len() && (#[trigger] before[k]).0 == r.1 {
            before
        } else {
            before.push((r.1, r.2))
        }
    }
}

/// Everyone the rows name: each user once with their first display name, in
/// order of user, then (keeping that order among equals) of the lower-cased
/// display name.
pub open spec fn friends_of(rows: Seq<(Seq<char>, Seq<char>, Seq<char>)>) -> Seq<(Seq<char>, Seq<char>)> {
    let by_user = stable_sort(first_rows(rows).map_values(|p: (Seq<char>, Seq<char>)| (p.0, p))).map_values(
        |q: (Seq<char>, (Seq<char>, Seq<char>))| q.1,
    );
    stable_sort(by_user.map_values(|p: (Seq<char>, Seq<char>)| (lowercase_of(p.1), p))).map_values(
        |q: (Seq<char>, (Seq<char>, Seq<char>))| q.1,
    )
}

pub open spec fn sharee_view(s: crate::model::Sharee) -> (Seq<char>, Seq<char>) {
    (s.user@, s.display_name@)
}

pub open spec fn sharees_view(v: Seq<crate::model::Sharee>) -> Seq<(Seq<char>, Seq<char>)> {
    v.map_values(|s: crate::model::Sharee| sharee_view(s))
}

/// Everyone any trip was shared with, from the trips' share caches (the rows of
/// each, as `parse_share_rows` reads them): each user once, named as in the
/// first row naming them, sorted by display name ignoring case, then by user.
pub fn union_sharees(caches: &[Vec<(String, String, String)>]) -> (r: Vec<crate::model::Sharee>)
    ensures
        r@.map_values(|s: crate::model::Sharee| sharee_view(s)) == friends_of(all_rows(caches@)),
        users_distinct(sharees_view(r@)),
        forall|u: Seq<char>| #[trigger] listed(sharees_view(r@), u) <==> named(all_rows(caches@), u),
        forall|p: (Seq<char>, Seq<char>)| #[trigger] sharees_view(r@).contains(p) <==> first_naming(all_rows(caches@), p),
        forall|a: int, b: int|
            0 <= a < b < r@.len() ==> !crate::text::lex_lt(
                lowercase_of((#[trigger] r@[b]).display_name@),
                lowercase_of((#[trigger] r@[a]).display_name@),
            ),
{
    // every row, cache after cache
    let mut flat: Vec<(String, String, String)> = Vec::new();
    let mut c: usize = 0;
    while c < caches.len()
        invariant
            c <= caches@.len(),
            row_views(flat@) == all_rows(caches@.take(c as int)),
        decreases caches@.len() - c,
    {
        proof {
            assert(caches@.take(c + 1).drop_last() =~= caches@.take(c as int));
        }
        let ghost base = row_views(flat@);
        let rows = &caches[c];
        let mut j: usize = 0;
        while j < rows.len()
            invariant
                j <= rows@.len(),
                row_views(flat@) == base + row_views(rows@).take(j as int),
            decreases rows@.len() - j,
        {
            let ghost f0 = row_views(flat@);
            flat.push((rows[j].0.clone(), rows[j].1.clone(), rows[j].2.clone()));
            proof {
                assert(row_views(flat@) =~= f0.push(row_views(rows@)[j as int]));
                assert(row_views(rows@).take(j + 1) =~= row_views(rows@).take(j as int).push(row_views(rows@)[j as int]));
            }
            j = j + 1;
        }
        proof {
            assert(row_views(rows@).take(j as int) =~= row_views(rows@));
            assert(caches@.take(c + 1).last() == caches@[c as int]);
        }
        c = c + 1;
    }
    proof {
        assert(caches@.take(c as int) =~= caches@);
    }
    // each user once, first display name
    let ghost fv = row_views(flat@);
    let ghost g: spec_fn(crate::model::Sharee) -> (Seq<char>, Seq<char>) = |s: crate::model::Sharee| sharee_view(s);
    let mut by_user: Vec<(String, crate::model::Sharee)> = Vec::new();
    let mut i: usize = 0;
    while i < flat.len()
        invariant
            i <= flat@.len(),
            fv == row_views(flat@),
            g == (|s: crate::model::Sharee| sharee_view(s)),
            keyed_view(by_user@, g) == first_rows(fv.take(i as int)).map_values(|p: (Seq<char>, Seq<char>)| (p.0, p)),
        decreases flat@.len() - i,
    {
        let ghost before = first_rows(fv.take(i as int));
        proof {
            assert(fv.take(i + 1).drop_last() =~= fv.take(i as int));
            assert(fv.take(i + 1).last() == fv[i as int]);
        }
        proof {
            assert(keyed_view(by_user@, g).len() == before.len());
            assert(fv[i as int].1 == flat@[i as int].1@);
        }
        let mut seen = false;
        let mut k: usize = 0;
        while k < by_user.len()
            invariant
                k <= by_user@.len(),
                i < flat@.len(),
                fv == row_views(flat@),
                by_user@.len() == before.len(),
                keyed_view(by_user@, g) == before.map_values(|p: (Seq<char>, Seq<char>)| (p.0, p)),
                g == (|s: crate::model::Sharee| sharee_view(s)),
                seen == exists|q: int| 0 <= q < k && (#[trigger] before[q]).0 == fv[i as int].1,
            decreases by_user@.len() - k,
        {
            proof {
                assert(keyed_view(by_user@, g)[k as int] == (by_user@[k as int].0@, g(by_user@[k as int].1)));
                assert(keyed_view(by_user@, g)[k as int] == (before[k as int].0, before[k as int]));
                assert(by_user@[k as int].0@ == before[k as int].0);
                assert(fv[i as int].1 == flat@[i as int].1@);
            }
            if str_eq(by_user[k].0.as_str(), flat[i].1.as_str()) {
                seen = true;
            }
            k = k + 1;
        }
        if !seen {
            let s = crate::model::Sharee { user: flat[i].1.clone(), display_name: flat[i].2.clone() };
            let ghost b0 = by_user@;
            by_user.push((flat[i].1.clone(), s));
            proof {
                assert(keyed_view(by_user@, g) =~= keyed_view(b0, g).push((fv[i as int].1, (fv[i as int].1, fv[i as int].2))));
                assert(first_rows(fv.take(i + 1)) == before.push((fv[i as int].1, fv[i as int].2)));
                assert(keyed_view(by_user@, g) =~= first_rows(fv.take(i + 1)).map_values(|p: (Seq<char>, Seq<char>)| (p.0, p)));
            }
        } else {
            proof {
                assert(first_rows(fv.take(i + 1)) == before);
            }
        }
        i = i + 1;
    }
    proof {
        assert(fv.take(i as int) =~= fv);
    }
    // by user, then by lower-cased display name
    let sorted = sort_keyed::<crate::model::Sharee, (Seq<char>, Seq<char>)>(by_user, Ghost(g));
    let users = values_of::<crate::model::Sharee, (Seq<char>, Seq<char>)>(sorted, Ghost(g));
    let ghost uv = items_view(users@, g);
    proof {
        assert(uv =~= stable_sort(first_rows(fv).map_values(|p: (Seq<char>, Seq<char>)| (p.0, p))).map_values(
            |q: (Seq<char>, (Seq<char>, Seq<char>))| q.1,
        ));
    }
    let mut keyed: Vec<(String, crate::model::Sharee)> = Vec::new();
    let mut rest = users;
    let mut m: usize = 0;
    let n = rest.len();
    while rest.len() > 0
        invariant
            m + rest@.len() == uv.len(),
            uv.len() <= usize::MAX,
            g == (|s: crate::model::Sharee| sharee_view(s)),
            items_view(rest@, g) == uv.skip(m as int),
            keyed_view(keyed@, g) == uv.take(m as int).map_values(|p: (Seq<char>, Seq<char>)| (lowercase_of(p.1), p)),
        decreases rest@.len(),
    {
        let ghost old_rest = rest@;
        let s = rest.remove(0);
        proof {
            assert(rest@ =~= old_rest.drop_first());
            assert(items_view(old_rest, g)[0] == uv.skip(m as int)[0]);
            assert(uv.skip(m as int)[0] == uv[m as int]);
            assert forall|q: int| 0 <= q < rest@.len() implies #[trigger] items_view(rest@, g)[q] == uv.skip(m + 1)[q] by {
                assert(items_view(old_rest, g)[q + 1] == uv.skip(m as int)[q + 1]);
            }
            assert(items_view(rest@, g) =~= uv.skip(m + 1));
        }
        let key = to_lowercase(s.display_name.as_str());
        let ghost k0 = keyed@;
        let ghost sv = sharee_view(s);
        keyed.push((key, s));
        m = m + 1;
        proof {
            assert(sv == uv[m - 1]);
            assert(keyed_view(keyed@, g) =~= keyed_view(k0, g).push((key@, sv)));
            assert(uv.take(m as int) =~= uv.take(m - 1).push(uv[m - 1]));
            assert(keyed_view(keyed@, g) =~= uv.take(m as int).map_values(|p: (Seq<char>, Seq<char>)| (lowercase_of(p.1), p)));
        }
    }
    proof {
        assert(uv.take(m as int) =~= uv);
    }
    let sorted2 = sort_keyed::<crate::model::Sharee, (Seq<char>, Seq<char>)>(keyed, Ghost(g));
    let out = values_of::<crate::model::Sharee, (Seq<char>, Seq<char>)>(sorted2, Ghost(g));
    proof {
        assert(out@.map_values(|s: crate::model::Sharee| sharee_view(s)) =~= items_view(out@, g));
        assert(values_view(sorted2@, g) =~= stable_sort(keyed_view(keyed@, g)).map_values(
            |q: (Seq<char>, (Seq<char>, Seq<char>))| q.1,
        ));
        lemma_friends(all_rows(caches@));
        let ov = out@.map_values(|s: crate::model::Sharee| sharee_view(s));
        assert(sharees_view(out@) == ov);
        assert forall|a: int, b: int| 0 <= a < b < out@.len() implies !crate::text::lex_lt(
            lowercase_of((#[trigger] out@[b]).display_name@),
            lowercase_of((#[trigger] out@[a]).display_name@),
        ) by {
            assert(ov[a].1 == out@[a].display_name@);
            assert(ov[b].1 == out@[b].display_name@);
        }
    }
    out
}

/// The text a sharee search sends: the query with white space trimmed from both
/// ends; `None` when nothing is left, and then no search is made.
pub fn sharee_query(query: &str) -> (r: Option<String>)
    ensures
        match r {
            Some(q) => q@ == crate::text::trim(query@) && q@.len() > 0,
            None => crate::text::trim(query@).len() == 0,
        },
{
    let v = chars_of(query);
    let q = crate::text::trim_range(v.as_slice(), 0, v.len());
    proof {
        assert(v@.subrange(0, v@.len() as int) =~= query@);
    }
    if q.as_str().unicode_len() == 0 {
        None
    } else {
        Some(q)
    }
}

/// A cache row that survives a write and a read: no tab or line break in its
/// fields, an id that does not start a `#` header line, a display name that does
/// not end in a carriage return.
pub open spec fn writable_share_row(r: (Seq<char>, Seq<char>, Seq<char>)) -> bool {
    &&& crate::text::free_of(r.0, '\t') && crate::text::free_of(r.0, '\n')
    &&& crate::text::free_of(r.1, '\t') && crate::text::free_of(r.1, '\n')
    &&& crate::text::free_of(r.2, '\t') && crate::text::free_of(r.2, '\n')
    &&& !(r.0.len() > 0 && r.0[0] == '#')
    &&& !(r.2.len() > 0 && r.2.last() == '\r')
}

pub open spec fn row_fields(rows: Seq<(Seq<char>, Seq<char>, Seq<char>)>) -> Seq<Seq<Seq<char>>> {
    rows.map_values(|r: (Seq<char>, Seq<char>, Seq<char>)| seq![r.0, r.1, r.2])
}

proof fn lemma_join3(a: Seq<char>, b: Seq<char>, c: Seq<char>)
    ensures
        crate::text::join_with(seq![a, b, c], '\t') == a + seq!['\t'] + b + seq!['\t'] + c,
{
    let f = seq![a, b, c];
    assert(f.skip(1) =~= seq![b, c]);
    assert(seq![b, c].skip(1) =~= seq![c]);
    assert(crate::text::join_with(seq![c], '\t') == c);
    assert(crate::text::join_with(seq![b, c], '\t') == b + seq!['\t'] + c);
    assert(crate::text::join_with(f, '\t') == a + seq!['\t'] + (b + seq!['\t'] + c));
    assert(a + seq!['\t'] + (b + seq!['\t'] + c) =~= a + seq!['\t'] + b + seq!['\t'] + c);
}

proof fn lemma_cache_text(checked: i64, rows: Seq<(Seq<char>, Seq<char>, Seq<char>)>)
    ensures
        share_cache_spec(checked, rows) == "#checked\t"@ + dec_i(checked as int) + seq!['\n']
            + crate::ledger::ledger_text(row_fields(rows)),
    decreases rows.len(),
{
    if rows.len() > 0 {
        lemma_cache_text(checked, rows.drop_last());
        let r = rows.last();
        assert(row_fields(rows.drop_last()) =~= row_fields(rows).drop_last());
        let f = seq![r.0, r.1, r.2];
        lemma_join3(r.0, r.1, r.2);
        assert(crate::text::join_with(f, '\t') == r.0 + seq!['\t'] + r.1 + seq!['\t'] + r.2);
    } else {
        assert(row_fields(rows) =~= Seq::<Seq<Seq<char>>>::empty());
    }
}

proof fn lemma_rows_read_back(hdr: Seq<char>, rows: Seq<(Seq<char>, Seq<char>, Seq<char>)>)
    requires
        hdr.len() > 0 && hdr[0] == '#',
        forall|i: int| 0 <= i < rows.len() ==> writable_share_row(#[trigger] rows[i]),
    ensures
        share_rows_of(seq![hdr] + crate::ledger::row_lines(row_fields(rows))) == rows,
    decreases rows.len(),
{
    let ls = seq![hdr] + crate::ledger::row_lines(row_fields(rows));
    if rows.len() == 0 {
        assert(ls =~= seq![hdr]);
        assert(ls.drop_last() =~= Seq::<Seq<char>>::empty());
        assert(share_fields(ls.last()) is None);
        assert(share_rows_of(ls.drop_last()) =~= Seq::<(Seq<char>, Seq<char>, Seq<char>)>::empty());
        assert(share_rows_of(ls) =~= rows);
    } else {
        lemma_rows_read_back(hdr, rows.drop_last());
        let r = rows.last();
        assert(writable_share_row(rows[rows.len() - 1]));
        assert(ls.drop_last() =~= seq![hdr] + crate::ledger::row_lines(row_fields(rows.drop_last())));
        let f = seq![r.0, r.1, r.2];
        let line = crate::text::join_with(f, '\t');
        assert(ls.last() == line);
        lemma_join3(r.0, r.1, r.2);
        assert(line == r.0 + seq!['\t'] + r.1 + seq!['\t'] + r.2);
        crate::text::lemma_split_join(f, '\t');
        assert(line.len() > 0);
        assert(line[0] != '#') by {
            if r.0.len() == 0 {
                assert(line[0] == '\t');
            } else {
                assert(line[0] == r.0[0]);
            }
        }
        assert(share_fields(line) == Some(r));
        assert(rows =~= rows.drop_last().push(r));
    }
}

/// Writing a trip's share cache and reading it back gives the same rows (each
/// row writable: see `writable_share_row`).
pub proof fn lemma_share_cache_roundtrip(checked: i64, rows: Seq<(Seq<char>, Seq<char>, Seq<char>)>)
    requires
        forall|i: int| 0 <= i < rows.len() ==> writable_share_row(#[trigger] rows[i]),
    ensures
        share_rows_of(crate::text::lines_spec(share_cache_spec(checked, rows))) == rows,
        share_count(crate::text::lines_spec(share_cache_spec(checked, rows))) == rows.len(),
{
    lemma_cache_text(checked, rows);
    let hdr = "#checked\t"@ + dec_i(checked as int);
    let rf = row_fields(rows);
    let ls = crate::ledger::row_lines(rf);
    crate::ledger::lemma_ledger_text_lines(rf);
    let parts = seq![hdr] + ls.push(Seq::empty());
    reveal_strlit("#checked\t");
    let n: nat = if checked < 0 { (-(checked as int)) as nat } else { checked as nat };
    crate::text::lemma_dec_reads_back(n);
    assert(hdr.len() > 0 && hdr[0] == '#');
    assert(crate::text::free_of(hdr, '\n')) by {
        assert forall|i: int| 0 <= i < hdr.len() implies hdr[i] != '\n' by {
            if i >= 9 {
                if checked < 0 {
                    if i > 9 {
                        assert(hdr[i] == dec(n)[i - 10]);
                    }
                } else {
                    assert(hdr[i] == dec(n)[i - 9]);
                }
            }
        }
    }
    assert(hdr.last() != '\r') by {
        assert(hdr.last() == dec(n).last());
    }
    assert forall|i: int| 0 <= i < ls.len() implies crate::text::free_of(#[trigger] ls[i], '\n') && crate::text::strip_cr(ls[i]) == ls[i] by {
        let r = rows[i];
        assert(writable_share_row(r));
        let f = seq![r.0, r.1, r.2];
        assert(ls[i] == crate::text::join_with(f, '\t'));
        lemma_join3(r.0, r.1, r.2);
        assert(ls[i] == r.0 + seq!['\t'] + r.1 + seq!['\t'] + r.2);
    }
    assert(ls.push(Seq::empty()).len() >= 1);
    assert(crate::text::join_with(parts, '\n') == hdr + seq!['\n'] + crate::text::join_with(ls.push(Seq::empty()), '\n')) by {
        assert(parts.skip(1) =~= ls.push(Seq::empty()));
    }
    assert(share_cache_spec(checked, rows) =~= crate::text::join_with(parts, '\n'));
    assert forall|i: int| 0 <= i < parts.len() implies crate::text::free_of(#[trigger] parts[i], '\n') by {
        if i > 0 && i - 1 < ls.len() {
            assert(parts[i] == ls[i - 1]);
        }
    }
    crate::text::lemma_split_join(parts, '\n');
    let lines = seq![hdr] + ls;
    assert(parts.take(parts.len() - 1) =~= lines);
    assert(crate::text::lines_spec(share_cache_spec(checked, rows)) =~= lines) by {
        assert forall|i: int| 0 <= i < lines.len() implies crate::text::strip_cr(#[trigger] lines[i]) == lines[i] by {
            if i > 0 {
                assert(lines[i] == ls[i - 1]);
            }
        }
    }
    lemma_rows_read_back(hdr, rows);
    lemma_share_count(hdr, rows);
}

proof fn lemma_share_count(hdr: Seq<char>, rows: Seq<(Seq<char>, Seq<char>, Seq<char>)>)
    requires
        hdr.len() > 0 && hdr[0] == '#',
        forall|i: int| 0 <= i < rows.len() ==> writable_share_row(#[trigger] rows[i]),
    ensures
        share_count(seq![hdr] + crate::ledger::row_lines(row_fields(rows))) == rows.len(),
    decreases rows.len(),
{
    let ls = seq![hdr] + crate::ledger::row_lines(row_fields(rows));
    if rows.len() == 0 {
        assert(ls =~= seq![hdr]);
        assert(ls.drop_last() =~= Seq::<Seq<char>>::empty());
        assert(!share_line(ls.last()));
        assert(share_count(ls.drop_last()) == 0);
    } else {
        lemma_share_count(hdr, rows.drop_last());
        let r = rows.last();
        assert(writable_share_row(rows[rows.len() - 1]));
        assert(ls.drop_last() =~= seq![hdr] + crate::ledger::row_lines(row_fields(rows.drop_last())));
        let f = seq![r.0, r.1, r.2];
        let line = crate::text::join_with(f, '\t');
        lemma_join3(r.0, r.1, r.2);
        assert(line == r.0 + seq!['\t'] + r.1 + seq!['\t'] + r.2);
        assert(line[0] != '#') by {
            if r.0.len() == 0 {
                assert(line[0] == '\t');
            } else {
                assert(line[0] == r.0[0]);
            }
        }
        assert(ls.last() == line);
        assert(share_line(line));
    }
}

/// `p` is a user with the display name of the first row naming them.
pub open spec fn first_naming(rows: Seq<(Seq<char>, Seq<char>, Seq<char>)>, p: (Seq<char>, Seq<char>)) -> bool {
    exists|j: int|
        0 <= j < rows.len() && (#[trigger] rows[j]).1 == p.0 && rows[j].2 == p.1 && forall|j2: int|
            0 <= j2 < j ==> (#[trigger] rows[j2]).1 != p.0
}

/// Some row names user `u`.
pub open spec fn named(rows: Seq<(Seq<char>, Seq<char>, Seq<char>)>, u: Seq<char>) -> bool {
    exists|j: int| 0 <= j < rows.len() && (#[trigger] rows[j]).1 == u
}

/// Some entry is for user `u`.
pub open spec fn listed(f: Seq<(Seq<char>, Seq<char>)>, u: Seq<char>) -> bool {
    exists|k: int| 0 <= k < f.len() && (#[trigger] f[k]).0 == u
}

/// No two entries are for the same user.
pub open spec fn users_distinct(f: Seq<(Seq<char>, Seq<char>)>) -> bool {
    forall|a: int, b: int| 0 <= a < b < f.len() ==> (#[trigger] f[a]).0 != (#[trigger] f[b]).0
}

proof fn lemma_first_rows(rows: Seq<(Seq<char>, Seq<char>, Seq<char>)>)
    ensures
        users_distinct(first_rows(rows)),
        forall|u: Seq<char>| #[trigger] listed(first_rows(rows), u) <==> named(rows, u),
        forall|p: (Seq<char>, Seq<char>)| #[trigger] first_rows(rows).contains(p) <==> first_naming(rows, p),
    decreases rows.len(),
{
    if rows.len() == 0 {
        return;
    }
    let pre = rows.drop_last();
    lemma_first_rows(pre);
    let r = rows.last();
    let fp = first_rows(pre);
    let f = first_rows(rows);
    let n = rows.len() - 1;
    assert forall|j: int| 0 <= j < n implies #[trigger] rows[j] == pre[j] by {}
    let seen = exists|k: int| 0 <= k < fp.len() && (#[trigger] fp[k]).0 == r.1;
    assert(seen == listed(fp, r.1));
    assert(named(rows, r.1)) by {
        assert(rows[n] == r);
    }
    assert forall|u: Seq<char>| #[trigger] named(rows, u) <==> named(pre, u) || u == r.1 by {
        if named(rows, u) && u != r.1 {
            let j = choose|j: int| 0 <= j < rows.len() && (#[trigger] rows[j]).1 == u;
            assert(j < n);
            assert(pre[j].1 == u);
        }
        if named(pre, u) {
            let j = choose|j: int| 0 <= j < pre.len() && (#[trigger] pre[j]).1 == u;
            assert(rows[j].1 == u);
        }
    }
    assert forall|p: (Seq<char>, Seq<char>)| #[trigger] first_naming(rows, p) <==> first_naming(pre, p) || (p == (r.1, r.2) && !named(pre, r.1)) by {
        if first_naming(rows, p) {
            let j = choose|j: int|
                0 <= j < rows.len() && (#[trigger] rows[j]).1 == p.0 && rows[j].2 == p.1 && forall|j2: int|
                    0 <= j2 < j ==> (#[trigger] rows[j2]).1 != p.0;
            if j < n {
                assert(pre[j] == rows[j]);
                assert forall|j2: int| 0 <= j2 < j implies (#[trigger] pre[j2]).1 != p.0 by {
                    assert(rows[j2] == pre[j2]);
                }
            } else {
                assert(rows[j] == r);
                if named(pre, r.1) {
                    let j2 = choose|j2: int| 0 <= j2 < pre.len() && (#[trigger] pre[j2]).1 == r.1;
                    assert(rows[j2] == pre[j2]);
                }
            }
        }
        if first_naming(pre, p) {
            let j = choose|j: int|
                0 <= j < pre.len() && (#[trigger] pre[j]).1 == p.0 && pre[j].2 == p.1 && forall|j2: int|
                    0 <= j2 < j ==> (#[trigger] pre[j2]).1 != p.0;
            assert(rows[j] == pre[j]);
            assert forall|j2: int| 0 <= j2 < j implies (#[trigger] rows[j2]).1 != p.0 by {
                assert(rows[j2] == pre[j2]);
            }
        }
        if p == (r.1, r.2) && !named(pre, r.1) {
            assert(rows[n] == r);
            assert forall|j2: int| 0 <= j2 < n implies (#[trigger] rows[j2]).1 != p.0 by {
                assert(rows[j2] == pre[j2]);
            }
        }
    }
    if seen {
        assert(f == fp);
    } else {
        assert(f == fp.push((r.1, r.2)));
        assert forall|u: Seq<char>| #[trigger] listed(f, u) <==> listed(fp, u) || u == r.1 by {
            if listed(f, u) {
                let k = choose|k: int| 0 <= k < f.len() && (#[trigger] f[k]).0 == u;
                if k < fp.len() {
                    assert(fp[k] == f[k]);
                }
            }
            if listed(fp, u) {
                let k = choose|k: int| 0 <= k < fp.len() && (#[trigger] fp[k]).0 == u;
                assert(f[k] == fp[k]);
            }
            if u == r.1 {
                assert(f[fp.len() as int].0 == u);
            }
        }
        assert forall|a: int, b: int| 0 <= a < b < f.len() implies (#[trigger] f[a]).0 != (#[trigger] f[b]).0 by {
            if b == fp.len() {
                assert(f[a] == fp[a]);
                assert(fp[a].0 != r.1);
            } else {
                assert(f[a] == fp[a] && f[b] == fp[b]);
            }
        }
        assert forall|p: (Seq<char>, Seq<char>)| #[trigger] f.contains(p) <==> fp.contains(p) || p == (r.1, r.2) by {
            if f.contains(p) {
                let k = choose|k: int| 0 <= k < f.len() && f[k] == p;
                if k < fp.len() {
                    assert(fp[k] == p);
                }
            }
            if fp.contains(p) {
                let k = choose|k: int| 0 <= k < fp.len() && fp[k] == p;
                assert(f[k] == p);
            }
            if p == (r.1, r.2) {
                assert(f[fp.len() as int] == p);
            }
        }
    }
}

/// The friends list names each user once, exactly the users the cache rows name,
/// each with the display name of the first row naming them, in order of the
/// lower-cased display name.
pub proof fn lemma_friends(rows: Seq<(Seq<char>, Seq<char>, Seq<char>)>)
    ensures
        users_distinct(friends_of(rows)),
        forall|u: Seq<char>| #[trigger] listed(friends_of(rows), u) <==> named(rows, u),
        forall|p: (Seq<char>, Seq<char>)| #[trigger] friends_of(rows).contains(p) <==> first_naming(rows, p),
        forall|a: int, b: int|
            0 <= a < b < friends_of(rows).len() ==> !crate::text::lex_lt(
                lowercase_of((#[trigger] friends_of(rows)[b]).1),
                lowercase_of((#[trigger] friends_of(rows)[a]).1),
            ),
{
    let fr = first_rows(rows);
    lemma_first_rows(rows);
    let k1: spec_fn((Seq<char>, Seq<char>)) -> Seq<char> = |p: (Seq<char>, Seq<char>)| p.0;
    let k2: spec_fn((Seq<char>, Seq<char>)) -> Seq<char> = |p: (Seq<char>, Seq<char>)| lowercase_of(p.1);
    let u = sorted_by(fr, k1);
    assert(fr.map_values(|v: (Seq<char>, Seq<char>)| (k1(v), v)) =~= fr.map_values(|p: (Seq<char>, Seq<char>)| (p.0, p)));
    assert(u =~= stable_sort(fr.map_values(|p: (Seq<char>, Seq<char>)| (p.0, p))).map_values(
        |q: (Seq<char>, (Seq<char>, Seq<char>))| q.1,
    ));
    let f = sorted_by(u, k2);
    assert(u.map_values(|v: (Seq<char>, Seq<char>)| (k2(v), v)) =~= u.map_values(|p: (Seq<char>, Seq<char>)| (lowercase_of(p.1), p)));
    assert(friends_of(rows) =~= f);
    lemma_sorted_by(fr, k1);
    lemma_sorted_by(u, k2);
    assert(fr.no_duplicates()) by {
        assert forall|a: int, b: int| 0 <= a < fr.len() && 0 <= b < fr.len() && a != b implies fr[a] != fr[b] by {
            if a < b {
                assert(fr[a].0 != fr[b].0);
            } else {
                assert(fr[b].0 != fr[a].0);
            }
        }
    }
    assert forall|p: (Seq<char>, Seq<char>)| #[trigger] f.contains(p) <==> fr.contains(p) by {
        assert(f.contains(p) <==> u.contains(p));
        assert(u.contains(p) <==> fr.contains(p));
    }
    assert forall|x: Seq<char>| #[trigger] listed(f, x) <==> listed(fr, x) by {
        if listed(f, x) {
            let k = choose|k: int| 0 <= k < f.len() && (#[trigger] f[k]).0 == x;
            assert(f.contains(f[k]));
            let i = choose|i: int| 0 <= i < fr.len() && fr[i] == f[k];
            assert(fr[i].0 == x);
        }
        if listed(fr, x) {
            let i = choose|i: int| 0 <= i < fr.len() && (#[trigger] fr[i]).0 == x;
            assert(fr.contains(fr[i]));
            let k = choose|k: int| 0 <= k < f.len() && f[k] == fr[i];
            assert(f[k].0 == x);
        }
    }
    assert forall|a: int, b: int| 0 <= a < b < f.len() implies (#[trigger] f[a]).0 != (#[trigger] f[b]).0 by {
        if f[a].0 == f[b].0 {
            assert(f.contains(f[a]) && f.contains(f[b]));
            let i = choose|i: int| 0 <= i < fr.len() && fr[i] == f[a];
            let j = choose|j: int| 0 <= j < fr.len() && fr[j] == f[b];
            if i < j {
                assert(fr[i].0 != fr[j].0);
            } else if j < i {
                assert(fr[j].0 != fr[i].0);
            }
            assert(f[a] == f[b]);
        }
    }
    assert forall|a: int, b: int| 0 <= a < b < f.len() implies !crate::text::lex_lt(
        lowercase_of((#[trigger] f[b]).1),
        lowercase_of((#[trigger] f[a]).1),
    ) by {
        assert(!crate::text::lex_lt(k2(f[b]), k2(f[a])));
    }
}

} // verus!
