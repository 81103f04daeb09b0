//! Reorganize local footage: move clips between trips, rename a trip, and merge
//! one trip into another. A relocation keeps five things in step: the files (the
//! whole subpath under the trip preserved), the ledger, the marks, the cloud copy,
//! and the share state. The decisions live here; the file moves are the caller's.
use crate::ledger::Ledger;
use crate::media::{rel_stem, rel_stem_spec};
use crate::paths::{
    component_strings, component_strs, file_name, file_name_spec, join, join_spec, strip_dir, strip_dir_spec,
    valid_trip, valid_trip_spec,
};
use crate::text::{chars_of, push_str, str_eq, trim_char_range, trim_end_char};
use vstd::prelude::*;

verus! {

/// The trip a library path sits in: its first component under `lib`.
pub open spec fn trip_of_spec(lib: Seq<char>, master: Seq<char>) -> Option<Seq<char>> {
    match strip_dir_spec(master, lib) {
        Some(rest) => if component_strs(rest).len() > 0 {
            Some(component_strs(rest)[0])
        } else {
            None
        },
        None => None,
    }
}

pub fn trip_of(lib: &str, master: &str) -> (r: Option<String>)
    ensures
        match r {
            Some(t) => trip_of_spec(lib@, master@) == Some(t@),
            None => trip_of_spec(lib@, master@) is None,
        },
{
    let rest = match strip_dir(master, lib) {
        Some(r) => r,
        None => {
            return None;
        },
    };
    let comps = component_strings(rest.as_str());
    proof {
        assert(comps@.map_values(|s: String| s@).len() == comps@.len());
    }
    if comps.len() == 0 {
        return None;
    }
    let t = comps[0].clone();
    proof {
        assert(comps@.map_values(|s: String| s@)[0] == comps@[0]@);
    }
    Some(t)
}

/// `(person, camera)`: the first two components of a master under its trip folder.
pub open spec fn person_camera_spec(master: Seq<char>, trip_dir: Seq<char>) -> Option<(Seq<char>, Seq<char>)> {
    match strip_dir_spec(master, trip_dir) {
        Some(rest) => if component_strs(rest).len() >= 2 {
            Some((component_strs(rest)[0], component_strs(rest)[1]))
        } else {
            None
        },
        None => None,
    }
}

pub fn person_camera(master: &str, trip_dir: &str) -> (r: Option<(String, String)>)
    ensures
        match r {
            Some(pc) => person_camera_spec(master@, trip_dir@) == Some((pc.0@, pc.1@)),
            None => person_camera_spec(master@, trip_dir@) is None,
        },
{
    let rest = match strip_dir(master, trip_dir) {
        Some(r) => r,
        None => {
            return None;
        },
    };
    let comps = component_strings(rest.as_str());
    let ghost cv = comps@.map_values(|s: String| s@);
    if comps.len() < 2 {
        return None;
    }
    let person = comps[0].clone();
    let camera = comps[1].clone();
    proof {
        assert(cv[0] == comps@[0]@);
        assert(cv[1] == comps@[1]@);
    }
    Some((person, camera))
}

/// Where a master goes when it moves into another trip, and what it is called
/// there and in the cloud.
#[derive(Clone, Debug)]
pub struct MoveTarget {
    pub src_trip: String,
    pub src_dir: String,
    pub person: String,
    /// Its whole path under the source trip (`person/…/base`): the
    /// cloud-relative path, the same on both sides.
    pub rel: String,
    /// The stem its cached proxy and cut clips are named by.
    pub stem: String,
    pub master_src: String,
    pub master_dst: String,
}

/// What to do with one master of a move.
#[derive(Clone, Debug)]
pub enum MoveStep {
    /// Outside the library, not a file, or not under a person's folder: never
    /// touched, not counted.
    Ignore,
    /// Already in the destination trip: counted as skipped.
    AlreadyHere,
    /// Moves, unless the destination already holds the same path.
    Target(MoveTarget),
}

/// `person/camera/base`.
pub open spec fn rel_text(person: Seq<char>, camera: Seq<char>, base: Seq<char>) -> Seq<char> {
    person + seq!['/'] + camera + seq!['/'] + base
}

/// The named pieces of a master's path under its trip folder (repeated `/` and
/// `.` pieces dropped, as `Path` components are).
pub open spec fn sub_parts(master: Seq<char>, trip_dir: Seq<char>) -> Option<Seq<Seq<char>>> {
    match strip_dir_spec(master, trip_dir) {
        Some(rest) => Some(crate::paths::components(rest).2),
        None => None,
    }
}

/// The step `move_step` takes for a master; `inside` is whether it is a file under
/// the library (see `under`). A move keeps the master's whole subpath under its
/// trip, which must name at least a person and the file.
pub open spec fn move_step_spec(lib: Seq<char>, dest: Seq<char>, master: Seq<char>, inside: bool) -> Option<
    Option<(Seq<char>, Seq<Seq<char>>)>,
> {
    if !inside {
        None
    } else {
        match trip_of_spec(lib, master) {
            None => None,
            Some(src_trip) => if src_trip == dest {
                Some(None)
            } else {
                match sub_parts(master, join_spec(lib, src_trip)) {
                    Some(parts) => if parts.len() >= 2 {
                        Some(Some((src_trip, parts)))
                    } else {
                        None
                    },
                    None => None,
                }
            },
        }
    }
}

/// `t` is where `master` goes in a move into `dest`: its source trip and folder,
/// its person (the first piece of its subpath), the subpath itself as the
/// cloud-relative path, the stem its derived files use, and the same subpath
/// under the destination.
pub open spec fn target_ok(t: MoveTarget, lib: Seq<char>, dest: Seq<char>, master: Seq<char>) -> bool {
    match move_step_spec(lib, dest, master, true) {
        Some(Some((src_trip, parts))) => {
            let src_dir = join_spec(lib, src_trip);
            let rel = crate::text::join_with(parts, '/');
            &&& t.src_trip@ == src_trip
            &&& t.src_dir@ == src_dir
            &&& t.person@ == parts[0]
            &&& t.rel@ == rel
            &&& t.stem@ == rel_stem_spec(master, src_dir)
            &&& t.master_src@ == master
            &&& t.master_dst@ == join_spec(join_spec(lib, dest), rel)
        },
        _ => false,
    }
}

/// The plan for one master of a move into `dest`: ignored (`None` above), already
/// there, or a target that keeps its whole subpath.
pub fn move_step(lib: &str, dest: &str, master: &str, inside: bool) -> (s: MoveStep)
    ensures
        match move_step_spec(lib@, dest@, master@, inside) {
            None => s is Ignore,
            Some(None) => s is AlreadyHere,
            Some(Some(_)) => s matches MoveStep::Target(t) && target_ok(t, lib@, dest@, master@),
        },
{
    if !inside {
        return MoveStep::Ignore;
    }
    let src_trip = match trip_of(lib, master) {
        Some(t) => t,
        None => {
            return MoveStep::Ignore;
        },
    };
    if str_eq(src_trip.as_str(), dest) {
        return MoveStep::AlreadyHere;
    }
    let src_dir = join(lib, src_trip.as_str());
    let rest = match strip_dir(master, src_dir.as_str()) {
        Some(r) => r,
        None => {
            return MoveStep::Ignore;
        },
    };
    let (_, _, parts) = crate::paths::components_of(rest.as_str());
    let ghost pv = parts@.map_values(|f: String| f@);
    if parts.len() < 2 {
        return MoveStep::Ignore;
    }
    let person = parts[0].clone();
    let mut rel = String::new();
    crate::text::push_joined(&mut rel, &parts, '/');
    proof {
        assert(pv[0] == parts@[0]@);
        assert(rel@ =~= crate::text::join_with(pv, '/'));
    }
    let dst_dir = join(lib, dest);
    let master_dst = join(dst_dir.as_str(), rel.as_str());
    let stem = rel_stem(master, src_dir.as_str());
    MoveStep::Target(
        MoveTarget { src_trip, src_dir, person, rel, stem, master_src: master.to_string(), master_dst },
    )
}

/// A moved clip has a cloud copy that must follow when it is someone else's
/// footage (pulled from the pool) or the source trip is shared.
pub fn needs_cloud(person: &str, user: &str, src_shared: bool) -> (b: bool)
    ensures
        b == (person@ != user@ || src_shared),
{
    !str_eq(person, user) || src_shared
}

/// What follows a move in the cloud.
#[derive(Clone, Copy, Debug, PartialEq, Eq, Structural)]
pub enum CloudFollowup {
    /// Nothing moved had a cloud copy.
    Nothing,
    /// The cloud mirrored the move: re-point each clip's baseline row at the
    /// destination.
    Retarget,
    /// The cloud could not follow now: queue each move for a later sync and drop
    /// the destination's share to `unknown` rather than overstate safety.
    QueueAndUnshare,
}

pub fn cloud_followup(any_cloud: bool, cloud_synced: bool) -> (f: CloudFollowup)
    ensures
        !any_cloud ==> f == CloudFollowup::Nothing,
        any_cloud && cloud_synced ==> f == CloudFollowup::Retarget,
        any_cloud && !cloud_synced ==> f == CloudFollowup::QueueAndUnshare,
{
    if !any_cloud {
        CloudFollowup::Nothing
    } else if cloud_synced {
        CloudFollowup::Retarget
    } else {
        CloudFollowup::QueueAndUnshare
    }
}

/// The remote with any trailing `/` removed, then `/<trip>/<rel>`.
pub open spec fn cloud_path_spec(remote: Seq<char>, trip: Seq<char>, rel: Seq<char>) -> Seq<char> {
    trim_end_char(remote, '/') + seq!['/'] + trip + seq!['/'] + rel
}

/// A clip's path in the cloud: `<remote>/<trip>/<rel>`.
pub fn cloud_path(remote: &str, trip: &str, rel: &str) -> (p: String)
    ensures
        p@ == cloud_path_spec(remote@, trip@, rel@),
{
    let rc = chars_of(remote);
    let mut p = trim_char_range(rc.as_slice(), 0, rc.len(), '/', false, true);
    proof {
        assert(rc@.subrange(0, rc@.len() as int) =~= remote@);
    }
    p.push('/');
    push_str(&mut p, trip);
    p.push('/');
    push_str(&mut p, rel);
    proof {
        assert(p@ =~= cloud_path_spec(remote@, trip@, rel@));
    }
    p
}


/// A ledger row's `person/camera/base`.
pub open spec fn row_rel(r: Seq<Seq<char>>) -> Seq<char> {
    rel_text(r[2], r[3], r[4])
}

/// Whether a ledger row records the clip at `rel` in trip `trip`.
pub open spec fn records(r: Seq<Seq<char>>, trip: Seq<char>, rel: Seq<char>) -> bool {
    r[1] == trip && row_rel(r) == rel
}

/// The first row recording the clip at `rel` in `trip`.
pub open spec fn first_recording(rows: Seq<Seq<Seq<char>>>, trip: Seq<char>, rel: Seq<char>) -> Option<int>
    decreases rows.len(),
{
    if rows.len() == 0 {
        None
    } else if records(rows[0], trip, rel) {
        Some(0)
    } else {
        match first_recording(rows.drop_first(), trip, rel) {
            Some(i) => Some(i + 1),
            None => None,
        }
    }
}

proof fn lemma_first_recording(rows: Seq<Seq<Seq<char>>>, trip: Seq<char>, rel: Seq<char>, i: int)
    requires
        0 <= i <= rows.len(),
        forall|j: int| 0 <= j < i ==> !records(#[trigger] rows[j], trip, rel),
        i == rows.len() || records(rows[i], trip, rel),
    ensures
        first_recording(rows, trip, rel) == if i < rows.len() { Some(i) } else { None::<int> },
    decreases rows.len(),
{
    if rows.len() > 0 && i > 0 {
        assert forall|j: int| 0 <= j < i - 1 implies !records(#[trigger] rows.drop_first()[j], trip, rel) by {
            assert(rows.drop_first()[j] == rows[j + 1]);
        }
        lemma_first_recording(rows.drop_first(), trip, rel, i - 1);
    }
}

/// The rows after the first row recording `rel` in `trip` is re-owned by `dest`.
pub open spec fn repoint_one(rows: Seq<Seq<Seq<char>>>, trip: Seq<char>, rel: Seq<char>, dest: Seq<char>) -> Seq<Seq<Seq<char>>> {
    match first_recording(rows, trip, rel) {
        Some(i) => rows.update(i, rows[i].update(1, dest)),
        None => rows,
    }
}

/// The rows after each `(source trip, rel)` move, in order, re-owns its clip's
/// first row to `dest`.
pub open spec fn repoint_all(rows: Seq<Seq<Seq<char>>>, moves: Seq<(Seq<char>, Seq<char>)>, dest: Seq<char>) -> Seq<Seq<Seq<char>>>
    decreases moves.len(),
{
    if moves.len() == 0 {
        rows
    } else {
        repoint_one(repoint_all(rows, moves.drop_last(), dest), moves.last().0, moves.last().1, dest)
    }
}

fn repoint_row(ledger: &mut Ledger, trip: &str, rel: &str, dest: &str)
    ensures
        final(ledger).rows_view() == repoint_one(old(ledger).rows_view(), trip@, rel@, dest@),
{
    let ghost before = ledger.rows_view();
    let mut i: usize = 0;
    while i < ledger.rows.len() && !(str_eq(ledger.rows[i].trip.as_str(), trip) && row_rel_is(&ledger.rows[i], rel))
        invariant
            i <= ledger.rows@.len(),
            before == ledger.rows_view(),
            forall|j: int| 0 <= j < i ==> !records(#[trigger] before[j], trip@, rel@),
        decreases ledger.rows@.len() - i,
    {
        i = i + 1;
    }
    proof {
        lemma_first_recording(before, trip@, rel@, i as int);
    }
    if i < ledger.rows.len() {
        let mut row = ledger.rows[i].duplicate();
        row.trip = dest.to_string();
        proof {
            assert(row.fields() =~= before[i as int].update(1, dest@));
        }
        ledger.rows.set(i, row);
        proof {
            assert(ledger.rows_view() =~= before.update(i as int, before[i as int].update(1, dest@)));
        }
    }
}

/// Whether `row`'s `person/camera/base` is `rel`.
fn row_rel_is(row: &crate::ledger::LedgerRow, rel: &str) -> (b: bool)
    ensures
        b == (rel_text(row.person@, row.camera@, row.base@) == rel@),
{
    let mut t = String::new();
    push_str(&mut t, row.person.as_str());
    t.push('/');
    push_str(&mut t, row.camera.as_str());
    t.push('/');
    push_str(&mut t, row.base.as_str());
    proof {
        assert(t@ =~= rel_text(row.person@, row.camera@, row.base@));
    }
    str_eq(t.as_str(), rel)
}

/// Re-own each moved clip's ledger row to the destination trip, so dedup and card
/// reclaim keep pointing at the real owner.
pub fn repoint_moves(ledger: &mut Ledger, moves: &[(String, String)], dest: &str)
    ensures
        final(ledger).rows_view() == repoint_all(
            old(ledger).rows_view(),
            moves@.map_values(|m: (String, String)| (m.0@, m.1@)),
            dest@,
        ),
{
    let ghost mv = moves@.map_values(|m: (String, String)| (m.0@, m.1@));
    let ghost start = ledger.rows_view();
    let mut k: usize = 0;
    while k < moves.len()
        invariant
            k <= moves@.len(),
            mv == moves@.map_values(|m: (String, String)| (m.0@, m.1@)),
            ledger.rows_view() == repoint_all(start, mv.take(k as int), dest@),
        decreases moves@.len() - k,
    {
        proof {
            assert(mv.take(k + 1).drop_last() =~= mv.take(k as int));
        }
        repoint_row(ledger, moves[k].0.as_str(), moves[k].1.as_str(), dest);
        k = k + 1;
    }
    proof {
        assert(mv.take(k as int) =~= mv);
    }
}

/// The rows after every row owned by trip `from` is re-owned by `to`.
pub open spec fn renamed_rows(rows: Seq<Seq<Seq<char>>>, from: Seq<char>, to: Seq<char>) -> Seq<Seq<Seq<char>>> {
    rows.map_values(|r: Seq<Seq<char>>| if r[1] == from { r.update(1, to) } else { r })
}

/// Rename a trip in the ledger: every row that named `from` now names `to`.
pub fn rename_rows(ledger: &mut Ledger, from: &str, to: &str)
    ensures
        final(ledger).rows_view() == renamed_rows(old(ledger).rows_view(), from@, to@),
{
    let ghost before = ledger.rows_view();
    let mut i: usize = 0;
    while i < ledger.rows.len()
        invariant
            i <= ledger.rows@.len(),
            before.len() == ledger.rows@.len(),
            forall|j: int| 0 <= j < i ==> ledger.rows_view()[j] == (if before[j][1] == from@ {
                before[j].update(1, to@)
            } else {
                before[j]
            }),
            forall|j: int| i <= j < before.len() ==> ledger.rows_view()[j] == before[j],
        decreases ledger.rows@.len() - i,
    {
        if str_eq(ledger.rows[i].trip.as_str(), from) {
            let mut row = ledger.rows[i].duplicate();
            row.trip = to.to_string();
            proof {
                assert(row.fields() =~= before[i as int].update(1, to@));
            }
            let ghost prev = ledger.rows_view();
            ledger.rows.set(i, row);
            proof {
                assert(ledger.rows_view() =~= prev.update(i as int, before[i as int].update(1, to@)));
            }
        }
        i = i + 1;
    }
    proof {
        assert(ledger.rows_view() =~= renamed_rows(before, from@, to@));
    }
}

/// An optional text's view.
pub open spec fn opt_view(v: Option<String>) -> Option<Seq<char>> {
    match v {
        Some(s) => Some(s@),
        None => None,
    }
}

/// Where a mark's master goes in a move: the new path of the first moved pair
/// whose old path it names, or `None` when it stays.
pub open spec fn migrated(master: Seq<char>, pairs: Seq<(Seq<char>, Seq<char>)>) -> Option<Seq<char>>
    decreases pairs.len(),
{
    if pairs.len() == 0 {
        None
    } else if pairs[0].0 == master {
        Some(pairs[0].1)
    } else {
        migrated(master, pairs.drop_first())
    }
}

/// For each mark (by its master), where it migrates in a move; the caller keeps
/// the `None`s in the source's marks and appends the others, re-pointed, to the
/// destination's.
pub fn migrate_marks(masters: &[String], pairs: &[(String, String)]) -> (r: Vec<Option<String>>)
    ensures
        r@.len() == masters@.len(),
        forall|i: int|
            0 <= i < masters@.len() ==> opt_view(#[trigger] r@[i]) == migrated(
                masters@[i]@,
                pairs@.map_values(|p: (String, String)| (p.0@, p.1@)),
            ),
{
    let ghost pv = pairs@.map_values(|p: (String, String)| (p.0@, p.1@));
    let mut r: Vec<Option<String>> = Vec::new();
    let mut i: usize = 0;
    while i < masters.len()
        invariant
            i <= masters@.len(),
            r@.len() == i,
            pv == pairs@.map_values(|p: (String, String)| (p.0@, p.1@)),
            forall|j: int| 0 <= j < i ==> opt_view(#[trigger] r@[j]) == migrated(masters@[j]@, pv),
        decreases masters@.len() - i,
    {
        let mut k: usize = 0;
        proof {
            assert(pv.skip(0) =~= pv);
        }
        while k < pairs.len() && !str_eq(pairs[k].0.as_str(), masters[i].as_str())
            invariant
                k <= pairs@.len(),
                i < masters@.len(),
                pv == pairs@.map_values(|p: (String, String)| (p.0@, p.1@)),
                migrated(masters@[i as int]@, pv) == migrated(masters@[i as int]@, pv.skip(k as int)),
            decreases pairs@.len() - k,
        {
            proof {
                assert(pv.skip(k as int).drop_first() =~= pv.skip(k + 1));
            }
            k = k + 1;
        }
        if k < pairs.len() {
            r.push(Some(pairs[k].1.clone()));
        } else {
            proof {
                assert(pv.skip(k as int).len() == 0);
            }
            r.push(None);
        }
        i = i + 1;
    }
    r
}

/// A path re-pointed from one trip folder to another: `new_prefix` and the rest,
/// when it starts with `old_prefix` (as text); unchanged otherwise.
pub open spec fn reprefixed(path: Seq<char>, old_prefix: Seq<char>, new_prefix: Seq<char>) -> Seq<char> {
    if crate::text::has_prefix(path, old_prefix) {
        new_prefix + path.skip(old_prefix.len() as int)
    } else {
        path
    }
}

pub fn reprefix(path: &str, old_prefix: &str, new_prefix: &str) -> (r: String)
    ensures
        r@ == reprefixed(path@, old_prefix@, new_prefix@),
{
    let pc = chars_of(path);
    if crate::text::starts_with(pc.as_slice(), old_prefix) {
        let mut r = new_prefix.to_string();
        let n = old_prefix.unicode_len();
        push_str(&mut r, crate::text::slice_string(pc.as_slice(), n, pc.len()).as_str());
        proof {
            assert(r@ =~= reprefixed(path@, old_prefix@, new_prefix@));
        }
        r
    } else {
        path.to_string()
    }
}


/// What the caller found out about one master of a move: whether it is a file
/// under the library, whether the destination already has its target path, and
/// whether its source trip is shared.
#[derive(Clone, Copy, Debug)]
pub struct MoveFacts {
    pub inside: bool,
    pub dest_has: bool,
    pub src_shared: bool,
}

/// A move, planned up front before anything on disk changes: each master that
/// moves (its index, target, and whether its cloud copy must follow), and how
/// many were skipped as already in the destination.
pub struct MovePlan {
    pub moves: Vec<(usize, MoveTarget, bool)>,
    pub skipped: usize,
}

/// The indices of the first `n` masters that move, and how many were skipped.
pub open spec fn plan_upto(lib: Seq<char>, dest: Seq<char>, masters: Seq<Seq<char>>, facts: Seq<MoveFacts>, n: int) -> (Seq<int>, nat)
    decreases n,
{
    if n <= 0 {
        (Seq::empty(), 0)
    } else {
        let (mv, sk) = plan_upto(lib, dest, masters, facts, n - 1);
        match move_step_spec(lib, dest, masters[n - 1], facts[n - 1].inside) {
            None => (mv, sk),
            Some(None) => (mv, sk + 1),
            Some(Some(_)) => if facts[n - 1].dest_has {
                (mv, sk + 1)
            } else {
                (mv.push(n - 1), sk)
            },
        }
    }
}

/// Plan moving `masters` (absolute library paths) into trip `dest`: a master
/// outside the library or not under a person's folder is never
/// touched; one already in `dest`, or whose path `dest` already has, is skipped;
/// every other one moves, keeping its subpath, and its cloud copy follows when it
/// is someone else's footage or its trip is shared.
pub fn move_clips(lib: &str, user: &str, dest: &str, masters: &[String], facts: &[MoveFacts]) -> (p: MovePlan)
    requires
        facts@.len() == masters@.len(),
    ensures
        ({
            let (mv, sk) = plan_upto(lib@, dest@, masters@.map_values(|m: String| m@), facts@, masters@.len() as int);
            &&& p.skipped == sk
            &&& p.moves@.len() == mv.len()
            &&& forall|k: int| 0 <= k < mv.len() ==> {
                let (i, t, cloud) = #[trigger] p.moves@[k];
                &&& i == mv[k]
                &&& target_ok(t, lib@, dest@, masters@[i as int]@)
                &&& cloud == (t.person@ != user@ || facts@[i as int].src_shared)
            }
        }),
{
    let ghost mv = masters@.map_values(|m: String| m@);
    let mut moves: Vec<(usize, MoveTarget, bool)> = Vec::new();
    let mut skipped: usize = 0;
    let mut i: usize = 0;
    while i < masters.len()
        invariant
            i <= masters@.len(),
            facts@.len() == masters@.len(),
            mv == masters@.map_values(|m: String| m@),
            skipped <= i,
            ({
                let (pm, sk) = plan_upto(lib@, dest@, mv, facts@, i as int);
                &&& skipped == sk
                &&& moves@.len() == pm.len()
                &&& forall|k: int| 0 <= k < pm.len() ==> {
                    let (j, t, cloud) = #[trigger] moves@[k];
                    &&& j == pm[k]
                    &&& 0 <= j < i
                    &&& target_ok(t, lib@, dest@, masters@[j as int]@)
                    &&& cloud == (t.person@ != user@ || facts@[j as int].src_shared)
                }
            }),
        decreases masters@.len() - i,
    {
        let f = facts[i];
        match move_step(lib, dest, masters[i].as_str(), f.inside) {
            MoveStep::Ignore => {},
            MoveStep::AlreadyHere => {
                skipped = skipped + 1;
            },
            MoveStep::Target(t) => {
                if f.dest_has {
                    skipped = skipped + 1;
                } else {
                    let cloud = needs_cloud(t.person.as_str(), user, f.src_shared);
                    moves.push((i, t, cloud));
                }
            },
        }
        i = i + 1;
    }
    MovePlan { moves, skipped }
}


/// Why a rename is refused, if it is: either name invalid, the same name, no
/// such trip, or the new name taken (that would be a merge).
pub open spec fn rename_refusal(old: Seq<char>, new: Seq<char>, old_is_trip: bool, new_exists: bool) -> Option<Seq<char>> {
    if !valid_trip_spec(old) || !valid_trip_spec(new) {
        Some("invalid trip name"@)
    } else if old == new {
        Some("that's already its name"@)
    } else if !old_is_trip {
        Some("no such trip: "@ + old)
    } else if new_exists {
        Some("a trip named '"@ + new + "' already exists — merge into it instead"@)
    } else {
        None
    }
}

/// Check a rename of trip `old` to `new`, given whether `old` is a trip and
/// whether anything named `new` exists.
pub fn rename_check(old: &str, new: &str, old_is_trip: bool, new_exists: bool) -> (r: Result<(), String>)
    ensures
        match r {
            Ok(()) => rename_refusal(old@, new@, old_is_trip, new_exists) is None,
            Err(e) => rename_refusal(old@, new@, old_is_trip, new_exists) == Some(e@),
        },
{
    if !valid_trip(old) || !valid_trip(new) {
        return Err("invalid trip name".to_string());
    }
    if str_eq(old, new) {
        return Err("that's already its name".to_string());
    }
    if !old_is_trip {
        let mut e = "no such trip: ".to_string();
        push_str(&mut e, old);
        return Err(e);
    }
    if new_exists {
        let mut e = "a trip named '".to_string();
        push_str(&mut e, new);
        push_str(&mut e, "' already exists — merge into it instead");
        return Err(e);
    }
    Ok(())
}

/// Why a merge of `src` into `dst` is refused, if it is.
pub open spec fn merge_refusal(src: Seq<char>, dst: Seq<char>, src_is_trip: bool, masters: nat) -> Option<Seq<char>> {
    if !valid_trip_spec(src) || !valid_trip_spec(dst) {
        Some("invalid trip name"@)
    } else if src == dst {
        Some("a trip can't merge into itself"@)
    } else if !src_is_trip {
        Some("no such trip: "@ + src)
    } else if masters == 0 {
        Some("'"@ + src + "' has no footage to merge"@)
    } else {
        None
    }
}

/// Check a merge of trip `src` (holding `masters` masters) into `dst`.
pub fn merge_check(src: &str, dst: &str, src_is_trip: bool, masters: usize) -> (r: Result<(), String>)
    ensures
        match r {
            Ok(()) => merge_refusal(src@, dst@, src_is_trip, masters as nat) is None,
            Err(e) => merge_refusal(src@, dst@, src_is_trip, masters as nat) == Some(e@),
        },
{
    if !valid_trip(src) || !valid_trip(dst) {
        return Err("invalid trip name".to_string());
    }
    if str_eq(src, dst) {
        return Err("a trip can't merge into itself".to_string());
    }
    if !src_is_trip {
        let mut e = "no such trip: ".to_string();
        push_str(&mut e, src);
        return Err(e);
    }
    if masters == 0 {
        let mut e = "'".to_string();
        push_str(&mut e, src);
        push_str(&mut e, "' has no footage to merge");
        return Err(e);
    }
    Ok(())
}

} // verus!

verus! {

/// After a rename, no ledger row names the old trip; every row that did now
/// names the new one, and every other row is untouched.
pub proof fn lemma_rename_clears_old(rows: Seq<Seq<Seq<char>>>, from: Seq<char>, to: Seq<char>)
    requires
        from != to,
        forall|i: int| 0 <= i < rows.len() ==> (#[trigger] rows[i]).len() == 8,
    ensures
        renamed_rows(rows, from, to).len() == rows.len(),
        forall|i: int| 0 <= i < rows.len() ==> (#[trigger] renamed_rows(rows, from, to)[i])[1] != from,
        forall|i: int|
            0 <= i < rows.len() && rows[i][1] == from ==> (#[trigger] renamed_rows(rows, from, to)[i]) == rows[i].update(1, to),
        forall|i: int| 0 <= i < rows.len() && rows[i][1] != from ==> #[trigger] renamed_rows(rows, from, to)[i] == rows[i],
{
}

proof fn lemma_repoint_one_shape(rows: Seq<Seq<Seq<char>>>, trip: Seq<char>, rel: Seq<char>, dest: Seq<char>)
    requires
        forall|i: int| 0 <= i < rows.len() ==> (#[trigger] rows[i]).len() == 8,
    ensures
        repoint_one(rows, trip, rel, dest).len() == rows.len(),
        forall|i: int| 0 <= i < rows.len() ==> (#[trigger] repoint_one(rows, trip, rel, dest)[i]).len() == 8,
        forall|i: int, c: int| 0 <= i < rows.len() && 0 <= c < 8 && c != 1 ==> #[trigger] repoint_one(rows, trip, rel, dest)[i][c] == rows[i][c],
        forall|i: int| 0 <= i < rows.len() ==> (#[trigger] repoint_one(rows, trip, rel, dest)[i])[1] == rows[i][1]
            || repoint_one(rows, trip, rel, dest)[i][1] == dest,
{
    match first_recording(rows, trip, rel) {
        Some(k) => {
            lemma_first_recording_in(rows, trip, rel);
        },
        None => {},
    }
}

proof fn lemma_first_recording_in(rows: Seq<Seq<Seq<char>>>, trip: Seq<char>, rel: Seq<char>)
    ensures
        first_recording(rows, trip, rel) matches Some(i) ==> 0 <= i < rows.len(),
    decreases rows.len(),
{
    if rows.len() > 0 {
        lemma_first_recording_in(rows.drop_first(), trip, rel);
    }
}

/// A move re-owns rows and nothing else: the ledger keeps its length, and every
/// row keeps its content id, owner, camera, name and the rest; only its trip can
/// change, and only to the destination.
pub proof fn lemma_move_keeps_rows(rows: Seq<Seq<Seq<char>>>, moves: Seq<(Seq<char>, Seq<char>)>, dest: Seq<char>)
    requires
        forall|i: int| 0 <= i < rows.len() ==> (#[trigger] rows[i]).len() == 8,
    ensures
        repoint_all(rows, moves, dest).len() == rows.len(),
        forall|i: int| 0 <= i < rows.len() ==> (#[trigger] repoint_all(rows, moves, dest)[i]).len() == 8,
        forall|i: int, c: int|
            0 <= i < rows.len() && 0 <= c < 8 && c != 1 ==> #[trigger] repoint_all(rows, moves, dest)[i][c] == rows[i][c],
        forall|i: int| 0 <= i < rows.len() ==> (#[trigger] repoint_all(rows, moves, dest)[i])[1] == rows[i][1]
            || repoint_all(rows, moves, dest)[i][1] == dest,
    decreases moves.len(),
{
    if moves.len() > 0 {
        lemma_move_keeps_rows(rows, moves.drop_last(), dest);
        let mid = repoint_all(rows, moves.drop_last(), dest);
        lemma_repoint_one_shape(mid, moves.last().0, moves.last().1, dest);
        let fin = repoint_all(rows, moves, dest);
        assert forall|i: int| 0 <= i < rows.len() implies (#[trigger] fin[i])[1] == rows[i][1] || fin[i][1] == dest by {
            assert(fin[i][1] == mid[i][1] || fin[i][1] == dest);
        }
        assert forall|i: int, c: int| 0 <= i < rows.len() && 0 <= c < 8 && c != 1 implies #[trigger] fin[i][c] == rows[i][c] by {
            assert(fin[i][c] == mid[i][c]);
        }
    }
}

/// A move in which no master can go (each is outside the library, not under a
/// person's folder, already in the destination, or one whose path the destination
/// already has) plans nothing; it skips exactly those already in the destination
/// and those whose path is taken, and touches no other.
pub proof fn lemma_nothing_to_move(lib: Seq<char>, dest: Seq<char>, masters: Seq<Seq<char>>, facts: Seq<MoveFacts>, n: int)
    requires
        0 <= n <= masters.len(),
        n <= facts.len(),
        forall|i: int|
            0 <= i < n ==> match #[trigger] move_step_spec(lib, dest, masters[i], facts[i].inside) {
                Some(Some(_)) => facts[i].dest_has,
                _ => true,
            },
    ensures
        plan_upto(lib, dest, masters, facts, n).0 == Seq::<int>::empty(),
        plan_upto(lib, dest, masters, facts, n).1 == skip_count(lib, dest, masters, facts, n),
    decreases n,
{
    if n > 0 {
        lemma_nothing_to_move(lib, dest, masters, facts, n - 1);
    }
}

/// How many of the first `n` masters are already in the destination, or planned
/// to a path the destination already has.
pub open spec fn skip_count(lib: Seq<char>, dest: Seq<char>, masters: Seq<Seq<char>>, facts: Seq<MoveFacts>, n: int) -> nat
    decreases n,
{
    if n <= 0 {
        0
    } else {
        skip_count(lib, dest, masters, facts, n - 1) + match move_step_spec(lib, dest, masters[n - 1], facts[n - 1].inside) {
            Some(None) => 1nat,
            Some(Some(_)) => if facts[n - 1].dest_has { 1nat } else { 0nat },
            None => 0nat,
        }
    }
}

} // verus!
