use vstd::prelude::*;
use crate::model::{Track, TrackView, views_of, track_views};
use crate::albums::contains_id;
use crate::batches::{present_ids, present_track_ids};

verus! {

/// The ids of the tracks of `current` that have one and that `original`
/// does not hold, in the order of `current`.
pub open spec fn spilled(original: Seq<Seq<char>>, current: Seq<TrackView>) -> Seq<Seq<char>>
    decreases current.len(),
{
    if current.len() == 0 {
        Seq::empty()
    } else {
        let prev = spilled(original, current.drop_last());
        match current.last().id {
            Some(x) => if original.contains(x) { prev } else { prev.push(x) },
            None => prev,
        }
    }
}

/// Whether some track of `s` has the id `x`.
pub open spec fn has_track_id(s: Seq<TrackView>, x: Seq<char>) -> bool {
    exists|k: int| 0 <= k < s.len() && s[k].id == Some(x)
}

/// The spillover of a recovery attempt: the ids of the tracks saved now
/// that were not saved when the snapshot `original` was taken. Tracks
/// without an id are never counted.
pub fn spillover_ids(original: &[Track], current: &[Track]) -> (r: Vec<String>)
    ensures
        views_of(r@) == spilled(present_ids(track_views(original@)), track_views(current@)),
{
    let known = present_track_ids(original, 0, original.len());
    assert(original@.subrange(0, original@.len() as int) =~= original@);
    let ghost orig = present_ids(track_views(original@));
    let mut r: Vec<String> = Vec::new();
    let mut i: usize = 0;
    while i < current.len()
        invariant
            i <= current@.len(),
            views_of(known@) == orig,
            views_of(r@) == spilled(orig, track_views(current@.subrange(0, i as int))),
        decreases current@.len() - i,
    {
        let ghost before = track_views(current@.subrange(0, i as int));
        let ghost after = track_views(current@.subrange(0, i + 1));
        assert(after.drop_last() =~= before);
        assert(after.last() == current@[i as int]@);
        match &current[i].id {
            Some(x) => {
                if !contains_id(known.as_slice(), x) {
                    r.push(x.clone());
                    assert(views_of(r@) =~= spilled(orig, before).push(x@));
                }
            },
            None => {},
        }
        i = i + 1;
    }
    assert(current@.subrange(0, current@.len() as int) =~= current@);
    r
}

proof fn lemma_present_ids_contains(s: Seq<TrackView>, x: Seq<char>)
    ensures
        present_ids(s).contains(x) <==> has_track_id(s, x),
    decreases s.len(),
{
    if s.len() > 0 {
        let p = s.drop_last();
        lemma_present_ids_contains(p, x);
        if has_track_id(s, x) && !has_track_id(p, x) {
            let k = choose|k: int| 0 <= k < s.len() && s[k].id == Some(x);
            if k < p.len() {
                assert(p[k].id == Some(x));
            }
            assert(present_ids(s) == present_ids(p).push(x));
            assert(present_ids(s)[present_ids(p).len() as int] == x);
        }
        if has_track_id(p, x) {
            let k = choose|k: int| 0 <= k < p.len() && p[k].id == Some(x);
            assert(s[k].id == Some(x));
        }
        if present_ids(s).contains(x) && !present_ids(p).contains(x) {
            let j = choose|j: int| 0 <= j < present_ids(s).len() && present_ids(s)[j] == x;
            match s.last().id {
                Some(y) => {
                    if j < present_ids(p).len() {
                        assert(present_ids(p)[j] == x);
                    }
                    assert(s[p.len() as int].id == Some(x));
                },
                None => {},
            }
        }
        if present_ids(p).contains(x) {
            let j = choose|j: int| 0 <= j < present_ids(p).len() && present_ids(p)[j] == x;
            match s.last().id {
                Some(y) => assert(present_ids(s)[j] == x),
                None => {},
            }
        }
    }
}

proof fn lemma_spilled_contains(original: Seq<Seq<char>>, current: Seq<TrackView>, x: Seq<char>)
    ensures
        spilled(original, current).contains(x) <==> (has_track_id(current, x) && !original.contains(x)),
    decreases current.len(),
{
    if current.len() > 0 {
        let p = current.drop_last();
        let sp = spilled(original, p);
        let sc = spilled(original, current);
        lemma_spilled_contains(original, p, x);
        if has_track_id(current, x) && !has_track_id(p, x) {
            let k = choose|k: int| 0 <= k < current.len() && current[k].id == Some(x);
            if k < p.len() {
                assert(p[k].id == Some(x));
            }
            if !original.contains(x) {
                assert(sc == sp.push(x));
                assert(sc[sp.len() as int] == x);
            }
        }
        if has_track_id(p, x) {
            let k = choose|k: int| 0 <= k < p.len() && p[k].id == Some(x);
            assert(current[k].id == Some(x));
        }
        if sc.contains(x) && !sp.contains(x) {
            let j = choose|j: int| 0 <= j < sc.len() && sc[j] == x;
            match current.last().id {
                Some(y) => {
                    if j < sp.len() {
                        assert(sp[j] == x);
                    }
                    assert(current[p.len() as int].id == Some(x));
                },
                None => {},
            }
        }
        if sp.contains(x) {
            let j = choose|j: int| 0 <= j < sp.len() && sp[j] == x;
            match current.last().id {
                Some(y) => {
                    if !original.contains(y) {
                        assert(sc[j] == x);
                    }
                },
                None => {},
            }
        }
    }
}

/// The spillover holds exactly the ids that some track of `current` has and
/// no track of `original` has: in particular it never names a track of the
/// original snapshot.
pub proof fn lemma_spillover_exact(original: Seq<TrackView>, current: Seq<TrackView>)
    ensures
        forall|x: Seq<char>| #[trigger] spilled(present_ids(original), current).contains(x)
            <==> (has_track_id(current, x) && !has_track_id(original, x)),
        forall|k: int| 0 <= k < original.len() && original[k].id is Some
            ==> !spilled(present_ids(original), current).contains(#[trigger] original[k].id->Some_0),
{
    assert forall|x: Seq<char>| #[trigger] spilled(present_ids(original), current).contains(x)
        <==> (has_track_id(current, x) && !has_track_id(original, x)) by {
        lemma_spilled_contains(present_ids(original), current, x);
        lemma_present_ids_contains(original, x);
    }
    assert forall|k: int| 0 <= k < original.len() && original[k].id is Some
        implies !spilled(present_ids(original), current).contains(#[trigger] original[k].id->Some_0) by {
        let x = original[k].id->Some_0;
        assert(has_track_id(original, x));
    }
}

} // verus!
