//! Files as the engine sees them: camera classification by name, extensions,
//! derived-file stems, native proxies, and the stable content id.
use crate::digest::{hex_encode, hex_of, sha1_digest, sha1_of};
use crate::paths::{ext_spec, extension, file_name, file_name_spec, join, join_spec, path_starts_with, starts_with_path, stem, stem_spec, strip_dir, strip_dir_spec};
use crate::text::{chars_of, dec, digit_char, eq_ignore_ascii_case, eq_ignore_case, has_prefix, is_digit, char_is_digit, push_str,
    replace_all, replace_char, ridx_of, rfind_char, slice_string, split_at_char, split_spec, starts_with, str_eq, u64_dec};
use vstd::prelude::*;
use vstd::string::StringSliceAdditionalSpecFns;

verus! {

/// Camera bucket. Masters, proxies and thumbs of one camera share a bucket so a
/// proxy stays beside its master.
#[derive(Clone, Copy, PartialEq, Eq, Debug, Structural)]
pub enum Kind {
    Dji,
    Gopro,
    Iphone,
    Misc,
}

pub open spec fn kind_dir(k: Kind) -> Seq<char> {
    match k {
        Kind::Dji => "dji"@,
        Kind::Gopro => "gopro"@,
        Kind::Iphone => "iphone"@,
        Kind::Misc => "misc"@,
    }
}

impl Kind {
    /// Folder name under `<trip>/<person>/`.
    pub fn dir(self) -> (r: &'static str)
        ensures
            r@ == kind_dir(self),
    {
        match self {
            Kind::Dji => "dji",
            Kind::Gopro => "gopro",
            Kind::Iphone => "iphone",
            Kind::Misc => "misc",
        }
    }
}

/// The camera a file name belongs to: `DJI_*`, `G[XHL]*` (GoPro masters, proxies
/// and thumbs), `IMG_*` (iPhone), else misc.
pub open spec fn kind_spec(name: Seq<char>) -> Kind {
    if has_prefix(name, "DJI_"@) {
        Kind::Dji
    } else if name.len() >= 2 && name[0] == 'G' && (name[1] == 'X' || name[1] == 'H' || name[1] == 'L') {
        Kind::Gopro
    } else if has_prefix(name, "IMG_"@) {
        Kind::Iphone
    } else {
        Kind::Misc
    }
}

/// Classify a path by its file name.
pub fn kind_of(path: &str) -> (k: Kind)
    ensures
        k == kind_spec(file_name_spec(path@)),
{
    let name = file_name(path);
    let v = chars_of(name.as_str());
    if starts_with(v.as_slice(), "DJI_") {
        Kind::Dji
    } else if v.len() >= 2 && v[0] == 'G' && (v[1] == 'X' || v[1] == 'H' || v[1] == 'L') {
        Kind::Gopro
    } else if starts_with(v.as_slice(), "IMG_") {
        Kind::Iphone
    } else {
        Kind::Misc
    }
}

/// The path's extension matches one of `exts`, ignoring ASCII case.
pub open spec fn has_ext_spec(path: Seq<char>, exts: Seq<Seq<char>>) -> bool {
    match ext_spec(file_name_spec(path)) {
        Some(e) => exists|i: int| 0 <= i < exts.len() && eq_ignore_case(e, #[trigger] exts[i]),
        None => false,
    }
}

pub open spec fn views_of(exts: Seq<&str>) -> Seq<Seq<char>> {
    exts.map_values(|e: &str| e@)
}

/// Whether the path's extension is one of `exts` (ASCII case ignored).
pub fn has_ext(path: &str, exts: &[&str]) -> (b: bool)
    ensures
        b == has_ext_spec(path@, views_of(exts@)),
{
    let name = file_name(path);
    let nc = chars_of(name.as_str());
    match extension(nc.as_slice()) {
        Some(e) => {
            let ec = chars_of(e.as_str());
            let mut i: usize = 0;
            while i < exts.len()
                invariant
                    ec@ == e@,
                    ext_spec(file_name_spec(path@)) == Some(e@),
                    i <= exts@.len(),
                    forall|j: int| 0 <= j < i ==> !eq_ignore_case(e@, #[trigger] views_of(exts@)[j]),
                decreases exts@.len() - i,
            {
                if eq_ignore_ascii_case(ec.as_slice(), exts[i]) {
                    assert(views_of(exts@)[i as int] == exts@[i as int]@);
                    assert(eq_ignore_case(e@, views_of(exts@)[i as int]));
                    return true;
                }
                i = i + 1;
            }
            false
        },
        None => false,
    }
}

pub open spec fn video_exts() -> Seq<Seq<char>> {
    seq!["mp4"@, "mov"@, "mkv"@]
}

pub open spec fn photo_exts() -> Seq<Seq<char>> {
    seq!["jpg"@, "jpeg"@, "png"@, "heic"@, "heif"@, "webp"@, "dng"@]
}

/// A video master: `.mp4`, `.mov` or `.mkv`.
pub fn is_video(path: &str) -> (b: bool)
    ensures
        b == has_ext_spec(path@, video_exts()),
{
    let exts = ["mp4", "mov", "mkv"];
    let r = has_ext(path, exts.as_slice());
    assert(views_of(exts@) =~= video_exts());
    r
}

/// A still photo (a picture or a stitched panorama).
pub fn is_photo(path: &str) -> (b: bool)
    ensures
        b == has_ext_spec(path@, photo_exts()),
{
    let exts = ["jpg", "jpeg", "png", "heic", "heif", "webp", "dng"];
    let r = has_ext(path, exts.as_slice());
    assert(views_of(exts@) =~= photo_exts());
    r
}

/// Any capture: a video or a photo.
pub fn is_capture(path: &str) -> (b: bool)
    ensures
        b == (has_ext_spec(path@, video_exts()) || has_ext_spec(path@, photo_exts())),
{
    is_video(path) || is_photo(path)
}

/// A path with its final component's extension dropped.
pub open spec fn drop_ext_spec(p: Seq<char>) -> Seq<char> {
    let i = ridx_of(p, '/');
    p.take(i + 1) + stem_spec(p.skip(i + 1))
}

/// Collision-safe stem for derived files: the master's path relative to the trip
/// (the whole path when it is not under it), extension dropped, `/` → `__`.
pub open spec fn rel_stem_spec(master: Seq<char>, trip: Seq<char>) -> Seq<char> {
    let rel = match strip_dir_spec(master, trip) { Some(r) => r, None => master };
    replace_char(drop_ext_spec(rel), '/', "__"@)
}

pub fn rel_stem(master: &str, trip: &str) -> (s: String)
    ensures
        s@ == rel_stem_spec(master@, trip@),
{
    let rel = match strip_dir(master, trip) {
        Some(r) => r,
        None => master.to_owned(),
    };
    let rc = chars_of(rel.as_str());
    let n = rc.len();
    let (head, tail) = match rfind_char(rc.as_slice(), '/') {
        Some(i) => (slice_string(rc.as_slice(), 0, i + 1), slice_string(rc.as_slice(), i + 1, n)),
        None => {
            assert(rc@.skip(0) =~= rc@);
            (slice_string(rc.as_slice(), 0, 0), slice_string(rc.as_slice(), 0, n))
        },
    };
    let tc = chars_of(tail.as_str());
    let st = stem(tc.as_slice());
    let mut whole = head;
    push_str(&mut whole, st.as_str());
    let wc = chars_of(whole.as_str());
    replace_all(wc.as_slice(), '/', "__")
}

/// A path's directory part (`""` for a bare name, `/` for a root entry).
pub open spec fn parent_spec(p: Seq<char>) -> Seq<char> {
    let i = ridx_of(p, '/');
    if i < 0 { Seq::empty() } else if i == 0 { seq!['/'] } else { p.take(i) }
}

pub fn parent(p: &str) -> (r: String)
    ensures
        r@ == parent_spec(p@),
{
    let pc = chars_of(p);
    match rfind_char(pc.as_slice(), '/') {
        None => String::new(),
        Some(i) => if i == 0 {
            let mut s = String::new();
            s.push('/');
            assert(s@ =~= seq!['/']);
            s
        } else {
            slice_string(pc.as_slice(), 0, i)
        },
    }
}

/// The six characters after `GX`/`GH` in a GoPro stem are all digits.
pub open spec fn gopro_digits(stem: Seq<char>) -> bool {
    stem.len() == 8 && forall|i: int| 2 <= i < 8 ==> is_digit(#[trigger] stem[i])
}

/// The files a camera's native low-res proxy could be, beside an `.mp4` master:
/// DJI's `<stem>.LRF` (then `.lrf`), or GoPro's `GL<digits>.LRV` (then `.lrv`) for
/// a `GX`/`GH` master.
pub open spec fn native_proxy_candidates_spec(master: Seq<char>) -> Seq<Seq<char>> {
    let name = file_name_spec(master);
    let dir = parent_spec(master);
    let st = stem_spec(name);
    if !has_ext_spec(master, seq!["mp4"@]) {
        Seq::empty()
    } else if has_prefix(name, "DJI_"@) {
        seq![join_spec(dir, st + ".LRF"@), join_spec(dir, st + ".lrf"@)]
    } else if name.len() >= 2 && name[0] == 'G' && (name[1] == 'X' || name[1] == 'H') && gopro_digits(st) {
        seq![join_spec(dir, "GL"@ + st.subrange(2, 8) + ".LRV"@), join_spec(dir, "GL"@ + st.subrange(2, 8) + ".lrv"@)]
    } else {
        Seq::empty()
    }
}

pub fn native_proxy_candidates(master: &str) -> (c: Vec<String>)
    ensures
        c@.len() == native_proxy_candidates_spec(master@).len(),
        forall|i: int| 0 <= i < c@.len() ==> #[trigger] c@[i]@ == native_proxy_candidates_spec(master@)[i],
{
    let mut out: Vec<String> = Vec::new();
    let mp4 = ["mp4"];
    assert(views_of(mp4@) =~= seq!["mp4"@]);
    if !has_ext(master, mp4.as_slice()) {
        return out;
    }
    let name = file_name(master);
    let nc = chars_of(name.as_str());
    let dir = parent(master);
    let st = stem(nc.as_slice());
    if starts_with(nc.as_slice(), "DJI_") {
        let mut a = st.clone();
        push_str(&mut a, ".LRF");
        let mut b = st.clone();
        push_str(&mut b, ".lrf");
        out.push(join(dir.as_str(), a.as_str()));
        out.push(join(dir.as_str(), b.as_str()));
        return out;
    }
    let sc = chars_of(st.as_str());
    if nc.len() >= 2 && nc[0] == 'G' && (nc[1] == 'X' || nc[1] == 'H') && sc.len() == 8 {
        let mut k: usize = 2;
        while k < 8
            invariant
                out@.len() == 0,
                name@ == file_name_spec(master@),
                nc@ == name@,
                has_ext_spec(master@, seq!["mp4"@]),
                !has_prefix(name@, "DJI_"@),
                sc@ == stem_spec(name@),
                sc@.len() == 8,
                2 <= k <= 8,
                forall|i: int| 2 <= i < k ==> is_digit(#[trigger] sc@[i]),
            decreases 8 - k,
        {
            if !char_is_digit(sc[k]) {
                proof {
                    assert(!is_digit(sc@[k as int]));
                    assert(!gopro_digits(sc@));
                    assert(out@ =~= Seq::<String>::empty());
                }
                return out;
            }
            k = k + 1;
        }
        let digits = slice_string(sc.as_slice(), 2, 8);
        let mut a = String::new();
        push_str(&mut a, "GL");
        push_str(&mut a, digits.as_str());
        let mut b = a.clone();
        push_str(&mut a, ".LRV");
        push_str(&mut b, ".lrv");
        out.push(join(dir.as_str(), a.as_str()));
        out.push(join(dir.as_str(), b.as_str()));
        proof {
            assert(out@[0]@ =~= native_proxy_candidates_spec(master@)[0]);
            assert(out@[1]@ =~= native_proxy_candidates_spec(master@)[1]);
        }
    }
    out
}

/// The camera's native proxy beside `master`: the first candidate among the files
/// `present` (the files that exist beside it).
pub fn native_proxy_of(master: &str, present: &Vec<String>) -> (r: Option<String>)
    ensures
        r matches Some(p) ==> exists|i: int| 0 <= i < native_proxy_candidates_spec(master@).len()
            && p@ == native_proxy_candidates_spec(master@)[i]
            && (exists|j: int| 0 <= j < present@.len() && present@[j]@ == p@)
            && (forall|k: int| 0 <= k < i ==> !(exists|j: int| 0 <= j < present@.len()
                && present@[j]@ == #[trigger] native_proxy_candidates_spec(master@)[k])),
        r is None ==> forall|k: int| 0 <= k < native_proxy_candidates_spec(master@).len() ==> !(exists|j: int|
            0 <= j < present@.len() && present@[j]@ == #[trigger] native_proxy_candidates_spec(master@)[k]),
{
    let cands = native_proxy_candidates(master);
    let mut i: usize = 0;
    while i < cands.len()
        invariant
            i <= cands@.len(),
            cands@.len() == native_proxy_candidates_spec(master@).len(),
            forall|k: int| 0 <= k < cands@.len() ==> #[trigger] cands@[k]@ == native_proxy_candidates_spec(master@)[k],
            forall|k: int| 0 <= k < i ==> !(exists|j: int| 0 <= j < present@.len()
                && present@[j]@ == #[trigger] native_proxy_candidates_spec(master@)[k]),
        decreases cands@.len() - i,
    {
        let mut j: usize = 0;
        while j < present.len()
            invariant
                i < cands@.len(),
                cands@.len() == native_proxy_candidates_spec(master@).len(),
                forall|k: int| 0 <= k < cands@.len() ==> #[trigger] cands@[k]@ == native_proxy_candidates_spec(master@)[k],
                forall|k: int| 0 <= k < i ==> !(exists|j: int| 0 <= j < present@.len()
                    && present@[j]@ == #[trigger] native_proxy_candidates_spec(master@)[k]),
                j <= present@.len(),
                forall|m: int| 0 <= m < j ==> present@[m]@ != cands@[i as int]@,
            decreases present@.len() - j,
        {
            if str_eq(present[j].as_str(), cands[i].as_str()) {
                let r = cands[i].clone();
                proof {
                    assert(cands@[i as int]@ == native_proxy_candidates_spec(master@)[i as int]);
                    assert(present@[j as int]@ == r@);
                }
                return Some(r);
            }
            j = j + 1;
        }
        proof {
            assert(cands@[i as int]@ == native_proxy_candidates_spec(master@)[i as int]);
        }
        i = i + 1;
    }
    None
}

/// The derived-file folders inside a trip: cut clips, contact sheets, proxies.
pub open spec fn is_derived_dir(seg: Seq<char>) -> bool {
    seg == "clips"@ || seg == "_sheets"@ || seg == ".proxies"@
}

/// Some segment is a derived-file folder.
pub open spec fn has_derived(segs: Seq<Seq<char>>) -> bool {
    exists|i: int| 0 <= i < segs.len() && is_derived_dir(#[trigger] segs[i])
}

/// A path under `base` with a derived-file folder among its components.
pub open spec fn in_excluded_dir_spec(p: Seq<char>, base: Seq<char>) -> bool {
    match strip_dir_spec(p, base) {
        Some(rel) => has_derived(split_spec(rel, '/')),
        None => false,
    }
}

pub fn in_excluded_dir(p: &str, base: &str) -> (b: bool)
    ensures
        b == in_excluded_dir_spec(p@, base@),
{
    match strip_dir(p, base) {
        Some(rel) => {
            let rc = chars_of(rel.as_str());
            let segs = split_at_char(rc.as_slice(), '/');
            let mut i: usize = 0;
            while i < segs.len()
                invariant
                    rc@ == rel@,
                    strip_dir_spec(p@, base@) == Some(rel@),
                    segs@.len() == split_spec(rel@, '/').len(),
                    forall|k: int| 0 <= k < segs@.len() ==> #[trigger] segs@[k]@ == split_spec(rel@, '/')[k],
                    i <= segs@.len(),
                    forall|k: int| 0 <= k < i ==> !is_derived_dir(#[trigger] split_spec(rel@, '/')[k]),
                decreases segs@.len() - i,
            {
                if str_eq(segs[i].as_str(), "clips") || str_eq(segs[i].as_str(), "_sheets") || str_eq(segs[i].as_str(), ".proxies") {
                    assert(segs@[i as int]@ == split_spec(rel@, '/')[i as int]);
                    assert(is_derived_dir(split_spec(rel@, '/')[i as int]));
                    let ghost sp = split_spec(rel@, '/');
                    assert(0 <= i < sp.len() && is_derived_dir(sp[i as int]));
                    assert(has_derived(sp));
                    return true;
                }
                proof { assert(segs@[i as int]@ == split_spec(rel@, '/')[i as int]); }
                i = i + 1;
            }
            false
        },
        None => false,
    }
}

/// The bytes the content id hashes: the size in decimal, a zero byte, the first
/// (up to) 4 MiB, and the last (up to) 4 MiB.
pub open spec fn fileid_input(size: u64, head: Seq<u8>, tail: Seq<u8>) -> Seq<u8> {
    ascii_bytes(dec(size as nat)) + seq![0u8] + head + tail
}

/// The bytes of an ASCII text.
pub open spec fn ascii_bytes(s: Seq<char>) -> Seq<u8> {
    s.map_values(|c: char| c as u8)
}

/// A content id: `<size>-<sha1 hex>`.
pub open spec fn fileid_spec(size: u64, head: Seq<u8>, tail: Seq<u8>) -> Seq<char> {
    dec(size as nat) + "-"@ + hex_of(sha1_of(fileid_input(size, head, tail)))
}

/// Stable content id that survives renames without reading whole files: the byte
/// size plus a sha1 of (size + first 4 MiB + last 4 MiB). The caller reads `head`
/// (the first `min(size, 4 MiB)` bytes) and `tail` (the last that many bytes; the
/// same bytes again for a file no bigger than 4 MiB).
pub fn fileid_from(size: u64, head: &[u8], tail: &[u8]) -> (id: String)
    ensures
        id@ == fileid_spec(size, head@, tail@),
{
    let d = u64_dec(size);
    let dc = chars_of(d.as_str());
    let mut input: Vec<u8> = Vec::new();
    let mut i: usize = 0;
    while i < dc.len()
        invariant
            dc@ == dec(size as nat),
            i <= dc@.len(),
            input@ == ascii_bytes(dc@.take(i as int)),
        decreases dc@.len() - i,
    {
        input.push(dc[i] as u8);
        i = i + 1;
        assert(input@ =~= ascii_bytes(dc@.take(i as int)));
    }
    assert(dc@.take(i as int) =~= dc@);
    input.push(0u8);
    let mut j: usize = 0;
    let ghost pre = input@;
    while j < head.len()
        invariant
            j <= head@.len(),
            input@ == pre + head@.take(j as int),
        decreases head@.len() - j,
    {
        input.push(head[j]);
        j = j + 1;
        assert(input@ =~= pre + head@.take(j as int));
    }
    let ghost pre2 = input@;
    let mut k: usize = 0;
    while k < tail.len()
        invariant
            k <= tail@.len(),
            input@ == pre2 + tail@.take(k as int),
        decreases tail@.len() - k,
    {
        input.push(tail[k]);
        k = k + 1;
        assert(input@ =~= pre2 + tail@.take(k as int));
    }
    assert(head@.take(j as int) =~= head@);
    assert(tail@.take(k as int) =~= tail@);
    assert(input@ =~= fileid_input(size, head@, tail@));
    let h = sha1_digest(input.as_slice());
    let mut id = d;
    id.push('-');
    let hx = hex_encode(h.as_slice());
    assert(h@ == sha1_of(fileid_input(size, head@, tail@)));
    assert(hx@ == hex_of(sha1_of(fileid_input(size, head@, tail@))));
    assert(id@ == dec(size as nat).push('-'));
    assert("-"@ =~= seq!['-']) by { reveal_strlit("-"); }
    push_str(&mut id, hx.as_str());
    assert(id@ =~= fileid_spec(size, head@, tail@));
    id
}

/// The eight little-endian bytes of `n`.
pub open spec fn le_bytes_spec(n: u64) -> Seq<u8> {
    Seq::new(8, |i: int| ((n as nat / pow256(i as nat)) % 256) as u8)
}

pub open spec fn pow256(i: nat) -> nat
    decreases i,
{
    if i == 0 { 1 } else { 256 * pow256((i - 1) as nat) }
}

pub fn le_bytes(n: u64) -> (b: Vec<u8>)
    ensures
        b@ == le_bytes_spec(n),
{
    let mut b: Vec<u8> = Vec::new();
    let mut m: u64 = n;
    let mut i: usize = 0;
    assert(pow256(0) == 1);
    assert(n as nat / 1 == n as nat);
    while i < 8
        invariant
            i <= 8,
            b@.len() == i,
            m as nat == n as nat / pow256(i as nat),
            forall|k: int| 0 <= k < i ==> b@[k] == ((n as nat / pow256(k as nat)) % 256) as u8,
        decreases 8 - i,
    {
        b.push((m % 256) as u8);
        proof {
            assert(pow256((i + 1) as nat) == 256 * pow256(i as nat));
            assert(pow256(i as nat) > 0) by {
                lemma_pow256_pos(i as nat);
            }
            vstd::arithmetic::div_mod::lemma_div_denominator(n as int, pow256(i as nat) as int, 256);
            assert(pow256(i as nat) * 256 == 256 * pow256(i as nat)) by (nonlinear_arith);
        }
        m = m / 256;
        i = i + 1;
    }
    assert(b@ =~= le_bytes_spec(n));
    b
}

proof fn lemma_pow256_pos(i: nat)
    ensures
        pow256(i) > 0,
    decreases i,
{
    if i > 0 {
        lemma_pow256_pos((i - 1) as nat);
    }
}

/// A cheap thumbnail-cache id from a single stat (no content read): `q` plus the
/// hex sha1 of the path's UTF-8 bytes, a zero byte, and the size and mtime as
/// little-endian 64-bit integers.
pub open spec fn quick_fileid_spec(path: Seq<u8>, size: u64, mtime: u64) -> Seq<char> {
    seq!['q'] + hex_of(sha1_of(path + seq![0u8] + le_bytes_spec(size) + le_bytes_spec(mtime)))
}

pub fn quick_fileid_from(path: &str, size: u64, mtime: u64) -> (id: String)
    ensures
        id@ == quick_fileid_spec(path.spec_bytes(), size, mtime),
{
    let pb = path.as_bytes();
    let mut input: Vec<u8> = Vec::new();
    let mut i: usize = 0;
    while i < pb.len()
        invariant
            i <= pb@.len(),
            input@ == pb@.take(i as int),
        decreases pb@.len() - i,
    {
        input.push(pb[i]);
        i = i + 1;
        assert(input@ =~= pb@.take(i as int));
    }
    assert(pb@.take(i as int) =~= pb@);
    input.push(0u8);
    let sb = le_bytes(size);
    let mb = le_bytes(mtime);
    let ghost pre = input@;
    let mut k: usize = 0;
    while k < 8
        invariant
            sb@.len() == 8,
            k <= 8,
            input@ == pre + sb@.take(k as int),
        decreases 8 - k,
    {
        input.push(sb[k]);
        k = k + 1;
        assert(input@ =~= pre + sb@.take(k as int));
    }
    let ghost pre2 = input@;
    let mut k2: usize = 0;
    while k2 < 8
        invariant
            mb@.len() == 8,
            k2 <= 8,
            input@ == pre2 + mb@.take(k2 as int),
        decreases 8 - k2,
    {
        input.push(mb[k2]);
        k2 = k2 + 1;
        assert(input@ =~= pre2 + mb@.take(k2 as int));
    }
    assert(sb@.take(8) =~= sb@);
    assert(mb@.take(8) =~= mb@);
    assert(input@ =~= path.spec_bytes() + seq![0u8] + le_bytes_spec(size) + le_bytes_spec(mtime));
    let h = sha1_digest(input.as_slice());
    let mut id = String::new();
    id.push('q');
    let hx = hex_encode(h.as_slice());
    push_str(&mut id, hx.as_str());
    assert(id@ =~= quick_fileid_spec(path.spec_bytes(), size, mtime));
    id
}

} // verus!

verus! {

/// Whether `target` counts as inside `root`, given what canonicalizing each gave
/// (`None` when it failed): the canonical paths compared when both resolved, else
/// the lexical target against the canonical root or the root as given.
pub open spec fn under_spec(
    target: Seq<char>,
    root: Seq<char>,
    target_canon: Option<Seq<char>>,
    root_canon: Option<Seq<char>>,
) -> bool {
    match (target_canon, root_canon) {
        (Some(t), Some(r)) => path_starts_with(t, r),
        (_, Some(r)) => path_starts_with(target, r) || path_starts_with(target, root),
        (_, None) => path_starts_with(target, root),
    }
}

pub open spec fn opt_str(v: Option<&str>) -> Option<Seq<char>> {
    match v {
        Some(s) => Some(s@),
        None => None,
    }
}

/// Is `target` inside `root`? Both are canonicalized by the caller (so symlinks
/// and `..` can't dodge the check) — used to keep the clip server and proxy
/// builder confined to the library. A lexical fallback covers the case where
/// `target` doesn't exist yet (canonicalizing it fails) but its prefix clearly
/// sits under `root`.
pub fn under(target: &str, root: &str, target_canon: Option<&str>, root_canon: Option<&str>) -> (b: bool)
    ensures
        b == under_spec(target@, root@, opt_str(target_canon), opt_str(root_canon)),
{
    match (target_canon, root_canon) {
        (Some(t), Some(r)) => starts_with_path(t, r),
        (_, Some(r)) => starts_with_path(target, r) || starts_with_path(target, root),
        (_, None) => starts_with_path(target, root),
    }
}

} // verus!

verus! {

/// Whether an ffprobe `default=nw=1` listing names a video stream: some line is
/// `codec_type=video` once trimmed.
pub open spec fn lists_video(lines: Seq<Seq<char>>) -> bool {
    exists|i: int| 0 <= i < lines.len() && crate::text::trim(#[trigger] lines[i]) == "codec_type=video"@
}

pub fn probe_has_video(text: &str) -> (b: bool)
    ensures
        b == lists_video(crate::text::lines_spec(text@)),
{
    let v = chars_of(text);
    let lines = crate::text::lines_of(v.as_slice());
    let ghost ls = crate::text::lines_spec(text@);
    let mut i: usize = 0;
    while i < lines.len()
        invariant
            i <= lines@.len(),
            lines@.len() == ls.len(),
            ls == crate::text::lines_spec(text@),
            forall|k: int| 0 <= k < lines@.len() ==> #[trigger] lines@[k]@ == ls[k],
            forall|k: int| 0 <= k < i ==> crate::text::trim(#[trigger] ls[k]) != "codec_type=video"@,
        decreases lines@.len() - i,
    {
        let lc = chars_of(lines[i].as_str());
        let t = crate::text::trim_range(lc.as_slice(), 0, lc.len());
        proof {
            assert(lc@.subrange(0, lc@.len() as int) =~= ls[i as int]);
        }
        if str_eq(t.as_str(), "codec_type=video") {
            return true;
        }
        i = i + 1;
    }
    false
}

/// The duration an ffprobe listing reports, as text: the rest of the first line
/// that starts `duration=`, trimmed. Reading it as seconds is the caller's.
pub open spec fn duration_text(lines: Seq<Seq<char>>) -> Option<Seq<char>>
    decreases lines.len(),
{
    if lines.len() == 0 {
        None
    } else if has_prefix(lines[0], "duration="@) {
        Some(crate::text::trim(lines[0].skip(9)))
    } else {
        duration_text(lines.drop_first())
    }
}

pub fn probe_duration(text: &str) -> (r: Option<String>)
    ensures
        match r {
            Some(d) => duration_text(crate::text::lines_spec(text@)) == Some(d@),
            None => duration_text(crate::text::lines_spec(text@)) is None,
        },
{
    let v = chars_of(text);
    let lines = crate::text::lines_of(v.as_slice());
    let ghost ls = crate::text::lines_spec(text@);
    proof {
        assert(ls.skip(0) =~= ls);
    }
    let mut i: usize = 0;
    while i < lines.len()
        invariant
            i <= lines@.len(),
            lines@.len() == ls.len(),
            ls == crate::text::lines_spec(text@),
            forall|k: int| 0 <= k < lines@.len() ==> #[trigger] lines@[k]@ == ls[k],
            duration_text(ls) == duration_text(ls.skip(i as int)),
        decreases lines@.len() - i,
    {
        let lc = chars_of(lines[i].as_str());
        proof {
            assert(ls.skip(i as int)[0] == ls[i as int]);
            assert(ls.skip(i as int).drop_first() =~= ls.skip(i + 1));
            reveal_strlit("duration=");
        }
        if starts_with(lc.as_slice(), "duration=") {
            let d = crate::text::trim_range(lc.as_slice(), 9, lc.len());
            proof {
                assert(lc@.subrange(9, lc@.len() as int) =~= ls[i as int].skip(9));
            }
            return Some(d);
        }
        i = i + 1;
    }
    None
}

/// The value an ffprobe `default=nw=1` listing gives `key`: the rest of the first
/// line that starts `<key>=`, trimmed.
pub open spec fn field_text(lines: Seq<Seq<char>>, key: Seq<char>) -> Option<Seq<char>>
    decreases lines.len(),
{
    if lines.len() == 0 {
        None
    } else if has_prefix(lines[0], key + "="@) {
        Some(crate::text::trim(lines[0].skip(key.len() as int + 1)))
    } else {
        field_text(lines.drop_first(), key)
    }
}

pub fn probe_field(text: &str, key: &str) -> (r: Option<String>)
    ensures
        match r {
            Some(d) => field_text(crate::text::lines_spec(text@), key@) == Some(d@),
            None => field_text(crate::text::lines_spec(text@), key@) is None,
        },
{
    let mut prefix = key.to_string();
    prefix.push('=');
    let v = chars_of(text);
    let lines = crate::text::lines_of(v.as_slice());
    let ghost ls = crate::text::lines_spec(text@);
    let n = prefix.unicode_len();
    proof {
        assert(ls.skip(0) =~= ls);
        reveal_strlit("=");
        assert(prefix@ =~= key@ + "="@);
    }
    let mut i: usize = 0;
    while i < lines.len()
        invariant
            i <= lines@.len(),
            lines@.len() == ls.len(),
            ls == crate::text::lines_spec(text@),
            prefix@ == key@ + "="@,
            n == prefix@.len(),
            n == key@.len() + 1,
            forall|k: int| 0 <= k < lines@.len() ==> #[trigger] lines@[k]@ == ls[k],
            field_text(ls, key@) == field_text(ls.skip(i as int), key@),
        decreases lines@.len() - i,
    {
        let lc = chars_of(lines[i].as_str());
        proof {
            assert(ls.skip(i as int)[0] == ls[i as int]);
            assert(ls.skip(i as int).drop_first() =~= ls.skip(i + 1));
        }
        if starts_with(lc.as_slice(), prefix.as_str()) {
            let d = crate::text::trim_range(lc.as_slice(), n, lc.len());
            proof {
                assert(lc@.subrange(n as int, lc@.len() as int) =~= ls[i as int].skip(key@.len() as int + 1));
            }
            return Some(d);
        }
        i = i + 1;
    }
    None
}

/// A capture as the walk saw it: its time and its path.
pub open spec fn cap_view(v: Seq<(i64, String)>) -> Seq<(i64, Seq<char>)> {
    v.map_values(|e: (i64, String)| (e.0, e.1@))
}

/// Capture order: earlier first, then by path (as `String`s order).
pub open spec fn cap_lt(a: (i64, Seq<char>), b: (i64, Seq<char>)) -> bool {
    a.0 < b.0 || (a.0 == b.0 && crate::text::lex_lt(a.1, b.1))
}

pub open spec fn cap_sorted(s: Seq<(i64, Seq<char>)>) -> bool {
    forall|i: int, j: int| 0 <= i < j < s.len() ==> !cap_lt(#[trigger] s[j], #[trigger] s[i])
}

proof fn lemma_cap_order(a: (i64, Seq<char>), b: (i64, Seq<char>), c: (i64, Seq<char>))
    ensures
        !cap_lt(a, a),
        cap_lt(a, b) && cap_lt(b, c) ==> cap_lt(a, c),
        a != b ==> cap_lt(a, b) || cap_lt(b, a),
{
    crate::text::lemma_lex_irreflexive(a.1);
    if cap_lt(a, b) && cap_lt(b, c) && a.0 == b.0 && b.0 == c.0 {
        crate::text::lemma_lex_transitive(a.1, b.1, c.1);
    }
    if a != b && a.0 == b.0 {
        crate::text::lemma_lex_total(a.1, b.1);
    }
}

/// Captures in capture order, as the walks hand them on: the same captures,
/// earliest first, ties by path.
pub fn capture_sorted(v: &Vec<(i64, String)>) -> (r: Vec<(i64, String)>)
    ensures
        cap_view(r@).to_multiset() == cap_view(v@).to_multiset(),
        cap_sorted(cap_view(r@)),
        r@.len() == v@.len(),
{
    broadcast use vstd::seq_lib::to_multiset_insert;
    let mut r: Vec<(i64, String)> = Vec::new();
    let mut i: usize = 0;
    proof {
        assert(cap_view(r@) =~= cap_view(v@.take(0)));
    }
    while i < v.len()
        invariant
            i <= v@.len(),
            r@.len() == i,
            cap_view(r@).to_multiset() == cap_view(v@.take(i as int)).to_multiset(),
            cap_sorted(cap_view(r@)),
        decreases v@.len() - i,
    {
        let t = v[i].0;
        let name = v[i].1.clone();
        let ghost x = (t, name@);
        let mut p: usize = 0;
        while p < r.len() && !(t < r[p].0 || (t == r[p].0 && crate::text::str_lt(name.as_str(), r[p].1.as_str())))
            invariant
                p <= r@.len(),
                x == (t, name@),
                forall|k: int| 0 <= k < p ==> !cap_lt(x, #[trigger] cap_view(r@)[k]),
            decreases r@.len() - p,
        {
            p = p + 1;
        }
        let ghost before = cap_view(r@);
        proof {
            assert forall|k: int| p <= k < before.len() implies cap_lt(x, #[trigger] before[k]) by {
                let rp = before[p as int];
                assert(cap_lt(x, rp));
                if k > p {
                    assert(!cap_lt(before[k], rp));
                    lemma_cap_order(before[k], rp, x);
                    lemma_cap_order(x, rp, before[k]);
                }
            }
        }
        r.insert(p, (t, name));
        proof {
            assert(cap_view(r@) =~= before.insert(p as int, x));
            assert(v@.take(i + 1) =~= v@.take(i as int).push(v@[i as int]));
            assert(cap_view(v@.take(i + 1)) =~= cap_view(v@.take(i as int)).push(x));
            vstd::seq_lib::to_multiset_build(cap_view(v@.take(i as int)), x);
            vstd::seq_lib::to_multiset_insert(before, p as int, x);
            assert(cap_view(r@).to_multiset() =~= cap_view(v@.take(i + 1)).to_multiset());
            let nv = cap_view(r@);
            assert forall|a: int, b: int| 0 <= a < b < nv.len() implies !cap_lt(#[trigger] nv[b], #[trigger] nv[a]) by {
                if a < p && b == p {
                    assert(nv[a] == before[a]);
                } else if a == p && b > p {
                    assert(nv[b] == before[b - 1]);
                    lemma_cap_order(x, nv[b], x);
                } else if a < p && b > p {
                    assert(nv[a] == before[a]);
                    assert(nv[b] == before[b - 1]);
                } else if b < p {
                    assert(nv[a] == before[a]);
                    assert(nv[b] == before[b]);
                } else {
                    assert(nv[a] == before[a - 1]);
                    assert(nv[b] == before[b - 1]);
                }
            }
        }
        i = i + 1;
    }
    proof {
        assert(v@.take(i as int) =~= v@);
    }
    r
}

} // verus!
