//! Hand a trip off to the external editor: a timeline project when one can be
//! built, else the loose files (the cut, else the masters). The launch itself is
//! the caller's; what is opened and when it is refused is decided here.
use crate::paths::{ext_spec, extension, file_name, file_name_spec};
use crate::text::{chars_of, eq_ignore_case, push_str, sort_strings, sorted_views, views};
use vstd::prelude::*;

verus! {

/// The editor a finished cut is handed to.
pub open spec fn editor() -> Seq<char> {
    "kdenlive"@
}

/// A file in `clips/` that is a cut: its extension is `mp4`, any case.
pub open spec fn is_cut_spec(path: Seq<char>) -> bool {
    match ext_spec(file_name_spec(path)) {
        Some(e) => eq_ignore_case(e, "mp4"@),
        None => false,
    }
}

pub fn is_cut(path: &str) -> (b: bool)
    ensures
        b == is_cut_spec(path@),
{
    let name = file_name(path);
    let nc = chars_of(name.as_str());
    match extension(nc.as_slice()) {
        Some(e) => {
            let ec = chars_of(e.as_str());
            crate::text::eq_ignore_ascii_case(ec.as_slice(), "mp4")
        },
        None => false,
    }
}

/// A trip's loose media: its cut clips (the `mp4` files in `clips/`, in name
/// order) when there are any, else its masters.
pub fn media_for(clip_files: &Vec<String>, masters: &Vec<String>) -> (r: Vec<String>)
    ensures
        ({
            let cuts = views(clip_files@).filter(|p: Seq<char>| is_cut_spec(p));
            if cuts.len() == 0 {
                views(r@) == views(masters@)
            } else {
                &&& views(r@).to_multiset() == cuts.to_multiset()
                &&& sorted_views(views(r@))
            }
        }),
{
    let ghost pred = |p: Seq<char>| is_cut_spec(p);
    let mut cuts: Vec<String> = Vec::new();
    let mut i: usize = 0;
    proof {
        reveal(Seq::filter);
        assert(views(clip_files@).take(0).filter(pred) =~= Seq::<Seq<char>>::empty());
    }
    while i < clip_files.len()
        invariant
            i <= clip_files@.len(),
            pred == (|p: Seq<char>| is_cut_spec(p)),
            views(cuts@) == views(clip_files@).take(i as int).filter(pred),
        decreases clip_files@.len() - i,
    {
        proof {
            reveal(Seq::filter);
            let s1 = views(clip_files@).take(i + 1);
            assert(s1.drop_last() =~= views(clip_files@).take(i as int));
            assert(s1.last() == clip_files@[i as int]@);
        }
        if is_cut(clip_files[i].as_str()) {
            let ghost c0 = views(cuts@);
            cuts.push(clip_files[i].clone());
            proof {
                assert(views(cuts@) =~= c0.push(clip_files@[i as int]@));
            }
        }
        i = i + 1;
    }
    proof {
        assert(views(clip_files@).take(i as int) =~= views(clip_files@));
    }
    if cuts.len() == 0 {
        let mut r: Vec<String> = Vec::new();
        let mut k: usize = 0;
        while k < masters.len()
            invariant
                k <= masters@.len(),
                views(r@) == views(masters@).take(k as int),
            decreases masters@.len() - k,
        {
            let ghost r0 = views(r@);
            r.push(masters[k].clone());
            proof {
                assert(views(r@) =~= r0.push(masters@[k as int]@));
                assert(views(masters@).take(k + 1) =~= views(masters@).take(k as int).push(masters@[k as int]@));
            }
            k = k + 1;
        }
        proof {
            assert(views(masters@).take(k as int) =~= views(masters@));
        }
        r
    } else {
        sort_strings(&cuts)
    }
}

/// Why opening a (validly named) trip in the editor is refused before anything
/// is built, if it is.
pub open spec fn edit_refusal(trip: Seq<char>, is_trip: bool, editor_found: bool) -> Option<Seq<char>> {
    if !is_trip {
        Some("no such trip: "@ + trip)
    } else if !editor_found {
        Some(editor() + " isn't installed — run 'make sync'"@)
    } else {
        None
    }
}

pub fn edit_check(trip: &str, is_trip: bool, editor_found: bool) -> (r: Result<(), String>)
    ensures
        match r {
            Ok(()) => edit_refusal(trip@, is_trip, editor_found) is None,
            Err(e) => edit_refusal(trip@, is_trip, editor_found) == Some(e@),
        },
{
    if !is_trip {
        let mut e = "no such trip: ".to_string();
        push_str(&mut e, trip);
        return Err(e);
    }
    if !editor_found {
        let mut e = "kdenlive".to_string();
        push_str(&mut e, " isn't installed — run 'make sync'");
        return Err(e);
    }
    Ok(())
}

/// The detached launch: `setsid --fork kdenlive <media…>`, as the arguments of
/// `setsid`.
pub fn launch_args(media: &Vec<String>) -> (a: Vec<String>)
    ensures
        views(a@) == seq!["--fork"@, editor()] + views(media@),
{
    let mut a: Vec<String> = Vec::new();
    a.push("--fork".to_string());
    a.push("kdenlive".to_string());
    let mut i: usize = 0;
    while i < media.len()
        invariant
            i <= media@.len(),
            views(a@) == seq!["--fork"@, editor()] + views(media@).take(i as int),
        decreases media@.len() - i,
    {
        let ghost a0 = views(a@);
        a.push(media[i].clone());
        proof {
            assert(views(a@) =~= a0.push(media@[i as int]@));
            assert(views(media@).take(i + 1) =~= views(media@).take(i as int).push(media@[i as int]@));
            assert(views(a@) =~= seq!["--fork"@, editor()] + views(media@).take(i + 1));
        }
        i = i + 1;
    }
    proof {
        assert(views(media@).take(i as int) =~= views(media@));
    }
    a
}

/// Whether a trip opens in the editor, once its timeline build has been tried
/// (`build_error`: why it failed, if it did). A trip that does not exist is
/// refused; a failed build's own reason comes back, and no loose clips or masters
/// are opened in its place; then the editor must be installed. `Ok` means the
/// built project is what opens.
pub fn edit_gate(trip: &str, is_trip: bool, build_error: Option<String>, editor_found: bool) -> (r: Result<(), String>)
    ensures
        !is_trip ==> r is Err && r->Err_0@ == "no such trip: "@ + trip@,
        is_trip && build_error is Some ==> r == Err::<(), String>(build_error->Some_0),
        is_trip && build_error is None && !editor_found ==> r is Err && r->Err_0@ == editor() + " isn't installed — run 'make sync'"@,
        is_trip && build_error is None && editor_found ==> r is Ok,
{
    if !is_trip {
        return edit_check(trip, false, editor_found);
    }
    match build_error {
        Some(e) => Err(e),
        None => edit_check(trip, true, editor_found),
    }
}

} // verus!
