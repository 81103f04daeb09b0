//! Paths as text: joining, the final component, its extension, and the part of a
//! path below a directory. Paths are `/`-separated strings throughout the engine.
use crate::text::{chars_of, find_char, has_prefix, last_seg, last_segment, push_str, ridx_of, rfind_char, slice_string, split_at_char, split_spec, starts_with, string_of};
use vstd::prelude::*;

verus! {

/// `a` joined with `b`: `b` alone when it is absolute or `a` is empty, else the two
/// separated by exactly one `/` (no extra one when `a` already ends with `/`).
pub open spec fn join_spec(a: Seq<char>, b: Seq<char>) -> Seq<char> {
    if a.len() == 0 || (b.len() > 0 && b[0] == '/') {
        b
    } else if a.last() == '/' {
        a + b
    } else {
        a + seq!['/'] + b
    }
}

pub fn join(a: &str, b: &str) -> (r: String)
    ensures
        r@ == join_spec(a@, b@),
{
    let ac = chars_of(a);
    let bc = chars_of(b);
    if ac.len() == 0 || (bc.len() > 0 && bc[0] == '/') {
        return string_of(bc.as_slice());
    }
    let mut r = string_of(ac.as_slice());
    if ac[ac.len() - 1] != '/' {
        r.push('/');
    }
    push_str(&mut r, b);
    r
}

/// The final component of a path.
pub open spec fn file_name_spec(p: Seq<char>) -> Seq<char> {
    last_seg(p)
}

pub fn file_name(p: &str) -> (r: String)
    ensures
        r@ == file_name_spec(p@),
{
    last_segment(p)
}

/// A file name's extension: the text after its last `.`, when that dot is not
/// the name's first character.
pub open spec fn ext_spec(name: Seq<char>) -> Option<Seq<char>> {
    let i = ridx_of(name, '.');
    if i <= 0 { None } else { Some(name.skip(i + 1)) }
}

/// A file name without its extension.
pub open spec fn stem_spec(name: Seq<char>) -> Seq<char> {
    let i = ridx_of(name, '.');
    if i <= 0 { name } else { name.take(i) }
}

pub fn extension(name: &[char]) -> (r: Option<String>)
    ensures
        r matches Some(e) ==> ext_spec(name@) == Some(e@),
        r is None ==> ext_spec(name@) is None,
{
    let n = name.len();
    match rfind_char(name, '.') {
        Some(i) => if i == 0 { None } else { Some(slice_string(name, i + 1, n)) },
        None => None,
    }
}

pub fn stem(name: &[char]) -> (r: String)
    ensures
        r@ == stem_spec(name@),
{
    match rfind_char(name, '.') {
        Some(i) => if i == 0 { string_of(name) } else { slice_string(name, 0, i) },
        None => string_of(name),
    }
}

/// The part of `path` below the directory `dir` (its components after `dir`'s),
/// or `None` when `path` does not sit under `dir`.
pub open spec fn strip_dir_spec(path: Seq<char>, dir: Seq<char>) -> Option<Seq<char>> {
    let d = if dir.len() > 0 && dir.last() == '/' { dir.drop_last() } else { dir };
    if path == d {
        Some(Seq::empty())
    } else if has_prefix(path, d.push('/')) {
        Some(path.skip(d.len() as int + 1))
    } else {
        None
    }
}

pub fn strip_dir(path: &str, dir: &str) -> (r: Option<String>)
    ensures
        r matches Some(s) ==> strip_dir_spec(path@, dir@) == Some(s@),
        r is None ==> strip_dir_spec(path@, dir@) is None,
{
    let pc = chars_of(path);
    let mut dc = chars_of(dir);
    if dc.len() > 0 && dc[dc.len() - 1] == '/' {
        dc.pop();
    }
    let ghost d = dc@;
    assert(d == (if dir@.len() > 0 && dir@.last() == '/' { dir@.drop_last() } else { dir@ }));
    if crate::text::lex_order(pc.as_slice(), dc.as_slice()) == 0 {
        return Some(String::new());
    }
    let mut pre = string_of(dc.as_slice());
    pre.push('/');
    let np = pc.len();
    if starts_with(pc.as_slice(), pre.as_str()) {
        assert(pre@.len() == dc@.len() + 1);
        Some(slice_string(pc.as_slice(), dc.len() + 1, np))
    } else {
        None
    }
}

} // verus!

verus! {

/// A path piece that names something: not empty (a doubled or trailing `/`) and
/// not `.`.
pub open spec fn is_named(s: Seq<char>) -> bool {
    s.len() > 0 && s != seq!['.']
}

/// The named pieces among `parts`, in order.
pub open spec fn named_parts(parts: Seq<Seq<char>>) -> Seq<Seq<char>>
    decreases parts.len(),
{
    if parts.len() == 0 {
        Seq::empty()
    } else {
        let before = named_parts(parts.drop_last());
        if is_named(parts.last()) {
            before.push(parts.last())
        } else {
            before
        }
    }
}

/// A path's components as `Path::components` reads them: whether it starts at
/// the root, whether it starts with `.` (a relative path's current directory),
/// and its named pieces.
pub open spec fn components(p: Seq<char>) -> (bool, bool, Seq<Seq<char>>) {
    let parts = split_spec(p, '/');
    let root = p.len() > 0 && p[0] == '/';
    let cur = !root && parts.len() > 0 && parts[0] == seq!['.'];
    (root, cur, named_parts(parts))
}

/// `Path::starts_with`: `base`'s components are the first components of `p`.
pub open spec fn path_starts_with(p: Seq<char>, base: Seq<char>) -> bool {
    let (pr, pc, pn) = components(p);
    let (br, bc, bn) = components(base);
    pr == br && pc == bc && bn.len() <= pn.len() && pn.take(bn.len() as int) == bn
}

/// The named pieces of `p`, and whether it starts at the root or with `.`.
pub fn components_of(p: &str) -> (r: (bool, bool, Vec<String>))
    ensures
        r.0 == components(p@).0,
        r.1 == components(p@).1,
        r.2@.map_values(|s: String| s@) == components(p@).2,
{
    let pc = chars_of(p);
    let parts = split_at_char(pc.as_slice(), '/');
    let ghost sp = split_spec(p@, '/');
    proof {
        crate::text::lemma_split_nonempty(p@, '/');
    }
    let root = pc.len() > 0 && pc[0] == '/';
    let first = chars_of(parts[0].as_str());
    let cur = !root && first.len() == 1 && first[0] == '.';
    proof {
        assert(parts@[0]@ == sp[0]);
        if !root && sp[0] == seq!['.'] {
            assert(first@.len() == 1 && first@[0] == '.');
        }
        if cur {
            assert(sp[0] =~= seq!['.']);
        }
    }
    let mut named: Vec<String> = Vec::new();
    let mut i: usize = 0;
    while i < parts.len()
        invariant
            i <= parts@.len(),
            parts@.len() == sp.len(),
            forall|k: int| 0 <= k < parts@.len() ==> #[trigger] parts@[k]@ == sp[k],
            named@.map_values(|s: String| s@) == named_parts(sp.take(i as int)),
        decreases parts@.len() - i,
    {
        proof {
            assert(sp.take(i + 1).drop_last() =~= sp.take(i as int));
            assert(sp.take(i + 1).last() == sp[i as int]);
        }
        let seg = chars_of(parts[i].as_str());
        let dot = seg.len() == 1 && seg[0] == '.';
        proof {
            if seg@ == seq!['.'] {
                assert(seg@.len() == 1 && seg@[0] == '.');
            }
            if dot {
                assert(seg@ =~= seq!['.']);
            }
        }
        if seg.len() > 0 && !dot {
            named.push(parts[i].clone());
            proof {
                assert(named@.map_values(|s: String| s@) =~= named_parts(sp.take(i + 1)));
            }
        }
        i = i + 1;
    }
    proof {
        assert(sp.take(i as int) =~= sp);
    }
    (root, cur, named)
}

/// Whether `p` starts with the components of `base`, as `Path::starts_with`.
pub fn starts_with_path(p: &str, base: &str) -> (b: bool)
    ensures
        b == path_starts_with(p@, base@),
{
    let (pr, pc, pn) = components_of(p);
    let (br, bc, bn) = components_of(base);
    let ghost pv = pn@.map_values(|s: String| s@);
    let ghost bv = bn@.map_values(|s: String| s@);
    if pr != br || pc != bc || bn.len() > pn.len() {
        return false;
    }
    let mut i: usize = 0;
    while i < bn.len()
        invariant
            i <= bn@.len(),
            bn@.len() <= pn@.len(),
            pv == pn@.map_values(|s: String| s@),
            bv == bn@.map_values(|s: String| s@),
            pv == components(p@).2,
            bv == components(base@).2,
            forall|k: int| 0 <= k < i ==> pv[k] == bv[k],
        decreases bn@.len() - i,
    {
        if !crate::text::str_eq(pn[i].as_str(), bn[i].as_str()) {
            proof {
                assert(pv[i as int] == pn@[i as int]@);
                assert(bv[i as int] == bn@[i as int]@);
                assert(pv.take(bv.len() as int)[i as int] == pv[i as int]);
                assert(pv.take(bv.len() as int)[i as int] != bv[i as int]);
                assert(pv.take(bv.len() as int) != bv);
            }
            return false;
        }
        i = i + 1;
    }
    proof {
        assert(pv.take(bv.len() as int) =~= bv);
    }
    true
}

} // verus!

verus! {

/// A usable trip (or person) folder name: one path segment, not empty, not `.`
/// or `..`, no `/` or `\`.
pub open spec fn valid_trip_spec(name: Seq<char>) -> bool {
    &&& name.len() > 0
    &&& forall|i: int| 0 <= i < name.len() ==> name[i] != '/' && name[i] != '\\'
    &&& name != seq!['.']
    &&& name != seq!['.', '.']
}

pub fn valid_trip(name: &str) -> (b: bool)
    ensures
        b == valid_trip_spec(name@),
{
    let v = chars_of(name);
    let n = v.len();
    if n == 0 {
        return false;
    }
    let mut i: usize = 0;
    while i < n
        invariant
            n == v@.len(),
            v@ == name@,
            i <= n,
            forall|k: int| 0 <= k < i ==> v@[k] != '/' && v@[k] != '\\',
        decreases n - i,
    {
        if v[i] == '/' || v[i] == '\\' {
            return false;
        }
        i = i + 1;
    }
    let dot = n == 1 && v[0] == '.';
    let dotdot = n == 2 && v[0] == '.' && v[1] == '.';
    proof {
        if name@ == seq!['.'] {
            assert(v@[0] == '.');
        }
        if name@ == seq!['.', '.'] {
            assert(v@[0] == '.' && v@[1] == '.');
        }
        if dot {
            assert(name@ =~= seq!['.']);
        }
        if dotdot {
            assert(name@ =~= seq!['.', '.']);
        }
    }
    !dot && !dotdot
}

} // verus!

verus! {

/// A path's components as strings, as `Path::components` yields them: `/` for the
/// root, `.` for a leading current directory, then the named pieces.
pub open spec fn component_strs(p: Seq<char>) -> Seq<Seq<char>> {
    let (root, cur, named) = components(p);
    (if root { seq![seq!['/']] } else { Seq::empty() }) + (if cur { seq![seq!['.']] } else { Seq::empty() })
        + named
}

pub fn component_strings(p: &str) -> (r: Vec<String>)
    ensures
        r@.map_values(|s: String| s@) == component_strs(p@),
{
    let (root, cur, named) = components_of(p);
    let mut r: Vec<String> = Vec::new();
    if root {
        let mut s = String::new();
        s.push('/');
        r.push(s);
    }
    if cur {
        let mut s = String::new();
        s.push('.');
        r.push(s);
    }
    let ghost head = r@.map_values(|s: String| s@);
    proof {
        assert(head =~= (if root { seq![seq!['/']] } else { Seq::empty() }) + (if cur { seq![seq!['.']] } else { Seq::empty() }));
    }
    let mut i: usize = 0;
    while i < named.len()
        invariant
            i <= named@.len(),
            r@.map_values(|s: String| s@) == head + named@.map_values(|s: String| s@).take(i as int),
        decreases named@.len() - i,
    {
        let ghost old_r = r@;
        r.push(named[i].clone());
        proof {
            assert(r@.map_values(|s: String| s@) =~= old_r.map_values(|s: String| s@).push(named@[i as int]@));
            assert(named@.map_values(|s: String| s@).take(i + 1) =~= named@.map_values(|s: String| s@).take(i as int).push(named@[i as int]@));
        }
        i = i + 1;
        proof {
            assert(r@.map_values(|s: String| s@) =~= head + named@.map_values(|s: String| s@).take(i as int));
        }
    }
    proof {
        assert(named@.map_values(|s: String| s@).take(i as int) =~= named@.map_values(|s: String| s@));
    }
    r
}

} // verus!
