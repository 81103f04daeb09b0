//! Reclaim space on the card: only masters that are verified-imported (the ledger
//! places them and the local copy's size agrees) and confirmed in the shared cloud
//! are planned for deletion; anything unproven stays. A panorama's raw source
//! frames ride the fate of their stitched photo. Reading the card, hashing and the
//! cloud check are the caller's; what is eligible is decided here.
use crate::ledger::LedgerRow;
use crate::organize::rel_text;
use crate::paths::{join, join_spec};
use crate::text::{chars_of, is_digit, push_str, split_at_char, split_spec, str_eq, views};
use vstd::prelude::*;

verus! {

/// Where the ledger says a card master's imported copy lives.
pub open spec fn local_copy_spec(lib: Seq<char>, row: LedgerRow) -> Seq<char> {
    join_spec(join_spec(join_spec(join_spec(lib, row.trip@), row.person@), row.camera@), row.base@)
}

pub fn local_copy(lib: &str, row: &LedgerRow) -> (p: String)
    ensures
        p@ == local_copy_spec(lib@, *row),
{
    let t = join(lib, row.trip.as_str());
    let pe = join(t.as_str(), row.person.as_str());
    let c = join(pe.as_str(), row.camera.as_str());
    join(c.as_str(), row.base.as_str())
}

/// How one card master fares in a reclaim plan.
#[derive(Clone, Debug)]
pub enum ReclaimMatch {
    /// Unreadable, or the ledger has no row for its content: not imported.
    NotImported,
    /// The local copy is missing or its size differs: not verified.
    NotVerified,
    /// Eligible: its trip and its cloud-relative `person/camera/base`.
    Eligible { trip: String, rel: String },
}

/// Match a card master of `size` bytes to its imported copy: `row` is the ledger
/// row for its content (`None` when unreadable or unknown), `local_size` the size
/// of the file at that row's place (`None` when there is none).
pub fn reclaim_match(row: Option<&LedgerRow>, size: u64, local_size: Option<u64>) -> (m: ReclaimMatch)
    ensures
        row is None ==> m is NotImported,
        row is Some && local_size != Some(size) ==> m is NotVerified,
        row is Some && local_size == Some(size) ==> (m matches ReclaimMatch::Eligible { trip, rel } && trip@
            == row.unwrap().trip@ && rel@ == rel_text(row.unwrap().person@, row.unwrap().camera@, row.unwrap().base@)),
{
    let row = match row {
        Some(r) => r,
        None => {
            return ReclaimMatch::NotImported;
        },
    };
    match local_size {
        Some(n) => {
            if n != size {
                return ReclaimMatch::NotVerified;
            }
        },
        None => {
            return ReclaimMatch::NotVerified;
        },
    }
    let mut rel = String::new();
    push_str(&mut rel, row.person.as_str());
    rel.push('/');
    push_str(&mut rel, row.camera.as_str());
    rel.push('/');
    push_str(&mut rel, row.base.as_str());
    proof {
        assert(rel@ =~= rel_text(row.person@, row.camera@, row.base@));
    }
    ReclaimMatch::Eligible { trip: row.trip.clone(), rel }
}

/// Four ASCII digits.
pub open spec fn four_digits(s: Seq<char>) -> bool {
    s.len() == 4 && is_digit(s[0]) && is_digit(s[1]) && is_digit(s[2]) && is_digit(s[3])
}

/// The last of `parts` that is four digits.
pub open spec fn last_four(parts: Seq<Seq<char>>) -> Option<Seq<char>>
    decreases parts.len(),
{
    if parts.len() == 0 {
        None
    } else if four_digits(parts.last()) {
        Some(parts.last())
    } else {
        last_four(parts.drop_last())
    }
}

/// The panorama sequence number in a DJI name: the last `_`-separated piece of
/// exactly four digits. A stitched photo `DJI_<ts>_0039_D.JPG` and its source
/// folder `001_0039` both give `0039`.
pub open spec fn seq_num_spec(name: Seq<char>) -> Option<Seq<char>> {
    last_four(split_spec(name, '_'))
}

pub fn seq_num(name: &str) -> (r: Option<String>)
    ensures
        match r {
            Some(s) => seq_num_spec(name@) == Some(s@),
            None => seq_num_spec(name@) is None,
        },
{
    let v = chars_of(name);
    let parts = split_at_char(v.as_slice(), '_');
    let ghost pv = views(parts@);
    proof {
        assert(pv =~= split_spec(name@, '_'));
        assert(pv.take(pv.len() as int) =~= pv);
    }
    let mut k: usize = parts.len();
    while k > 0
        invariant
            k <= parts@.len(),
            pv == views(parts@),
            pv == split_spec(name@, '_'),
            last_four(pv) == last_four(pv.take(k as int)),
        decreases k,
    {
        let p = chars_of(parts[k - 1].as_str());
        proof {
            assert(pv.take(k as int).drop_last() =~= pv.take(k - 1));
            assert(pv.take(k as int).last() == parts@[k - 1]@);
        }
        if p.len() == 4 && crate::text::char_is_digit(p[0]) && crate::text::char_is_digit(p[1])
            && crate::text::char_is_digit(p[2]) && crate::text::char_is_digit(p[3]) {
            proof {
                assert(p@ == parts@[k - 1]@);
                assert(four_digits(pv.take(k as int).last()));
                assert(last_four(pv.take(k as int)) == Some(parts@[k - 1]@));
            }
            return Some(parts[k - 1].clone());
        }
        k = k - 1;
    }
    None
}

/// Whether a panorama's source folder `seq` is swept with the card: its sequence
/// number is one of the stitched photos already cleared safe.
pub fn pano_swept(seq: &str, safe: &[String]) -> (b: bool)
    ensures
        b == (seq_num_spec(seq@) matches Some(n) && (exists|k: int| 0 <= k < safe@.len() && (#[trigger] safe@[k])@ == n)),
{
    match seq_num(seq) {
        Some(n) => {
            let mut k: usize = 0;
            while k < safe.len()
                invariant
                    k <= safe@.len(),
                    seq_num_spec(seq@) == Some(n@),
                    forall|j: int| 0 <= j < k ==> (#[trigger] safe@[j])@ != n@,
                decreases safe@.len() - k,
            {
                if str_eq(safe[k].as_str(), n.as_str()) {
                    proof {
                        assert(seq_num_spec(seq@) == Some(n@));
                        assert(safe@[k as int]@ == n@);
                        assert(exists|k: int| 0 <= k < safe@.len() && (#[trigger] safe@[k])@ == n@);
                    }
                    return true;
                }
                k = k + 1;
            }
            false
        },
        None => false,
    }
}

/// Why a reclaim plan is refused, if it is: no card, nothing on it for the
/// selection, or nothing on it verified-imported.
pub open spec fn plan_refusal(card: bool, files: nat, eligible: nat) -> Option<Seq<char>> {
    if !card {
        Some("no card inserted"@)
    } else if files == 0 {
        Some("no footage on the card for this selection"@)
    } else if eligible == 0 {
        Some("nothing here is verified-imported yet — import and share these clips first"@)
    } else {
        None
    }
}

pub fn plan_check(card: bool, files: usize, eligible: usize) -> (r: Result<(), String>)
    ensures
        match r {
            Ok(()) => plan_refusal(card, files as nat, eligible as nat) is None,
            Err(e) => plan_refusal(card, files as nat, eligible as nat) == Some(e@),
        },
{
    if !card {
        return Err("no card inserted".to_string());
    }
    if files == 0 {
        return Err("no footage on the card for this selection".to_string());
    }
    if eligible == 0 {
        return Err("nothing here is verified-imported yet — import and share these clips first".to_string());
    }
    Ok(())
}

/// What a failed cloud check of a trip says: nothing is deleted.
pub fn not_in_cloud(trip: &str) -> (e: String)
    ensures
        e@ == "'"@ + trip@ + "' isn't fully in the cloud — Share it first; nothing deleted"@,
{
    let mut e = "'".to_string();
    push_str(&mut e, trip);
    push_str(&mut e, "' isn't fully in the cloud — Share it first; nothing deleted");
    e
}

/// The file list a cloud check of one trip reads: a rel per line.
pub open spec fn check_list_spec(rels: Seq<Seq<char>>) -> Seq<char> {
    crate::text::join_with(rels, '\n') + seq!['\n']
}

pub fn check_list(rels: &Vec<String>) -> (t: String)
    ensures
        t@ == check_list_spec(views(rels@)),
{
    let mut t = String::new();
    crate::text::push_joined(&mut t, rels, '\n');
    t.push('\n');
    proof {
        assert(t@ =~= check_list_spec(views(rels@)));
    }
    t
}

/// The arguments of the scoped cloud check of one trip: `check --files-from
/// <list> --one-way <local trip> <remote trip>`.
pub open spec fn check_args_spec(list: Seq<char>, lib: Seq<char>, remote: Seq<char>, trip: Seq<char>) -> Seq<Seq<char>> {
    seq![
        "check"@,
        "--files-from"@,
        list,
        "--one-way"@,
        join_spec(lib, trip),
        crate::text::trim_end_char(remote, '/') + seq!['/'] + trip,
    ]
}

pub fn check_args(list: &str, lib: &str, remote: &str, trip: &str) -> (a: Vec<String>)
    ensures
        views(a@) == check_args_spec(list@, lib@, remote@, trip@),
{
    let rc = chars_of(remote);
    let mut r = crate::text::trim_char_range(rc.as_slice(), 0, rc.len(), '/', false, true);
    proof {
        assert(rc@.subrange(0, rc@.len() as int) =~= remote@);
    }
    r.push('/');
    push_str(&mut r, trip);
    let ghost rv = r@;
    proof {
        assert(rv =~= crate::text::trim_end_char(remote@, '/') + seq!['/'] + trip@);
    }
    let lt = join(lib, trip);
    let mut a: Vec<String> = Vec::new();
    a.push("check".to_string());
    a.push("--files-from".to_string());
    a.push(list.to_string());
    a.push("--one-way".to_string());
    a.push(lt);
    a.push(r);
    proof {
        let av = views(a@);
        assert(av.len() == 6);
        assert(av[5] == rv);
        assert(av =~= check_args_spec(list@, lib@, remote@, trip@));
    }
    a
}

/// A folder the reclaim emptied whose parent is a camera's `PANORAMA` folder:
/// that parent goes too once empty.
pub fn in_panorama(dir: &str) -> (b: bool)
    ensures
        b == (crate::paths::file_name_spec(crate::media::parent_spec(dir@)) == "PANORAMA"@),
{
    let p = crate::media::parent(dir);
    let n = crate::paths::file_name(p.as_str());
    str_eq(n.as_str(), "PANORAMA")
}

} // verus!
