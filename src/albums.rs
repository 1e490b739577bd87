use vstd::prelude::*;
use crate::model::{Track, TrackView, views_of, track_views};

verus! {

/// The present values of `s`, each kept at its first occurrence only.
pub open spec fn unique_present(s: Seq<Option<Seq<char>>>) -> Seq<Seq<char>>
    decreases s.len(),
{
    if s.len() == 0 {
        Seq::empty()
    } else {
        let prev = unique_present(s.drop_last());
        match s.last() {
            Some(a) => if prev.contains(a) { prev } else { prev.push(a) },
            None => prev,
        }
    }
}

/// `x` occurs in `s`, and its first occurrence comes before any occurrence
/// of `y`.
pub open spec fn occurs_before(s: Seq<Option<Seq<char>>>, x: Seq<char>, y: Seq<char>) -> bool {
    exists|k: int| 0 <= k < s.len() && s[k] == Some(x) && forall|l: int| 0 <= l <= k ==> s[l] != Some(y)
}

/// The album id of each track, in track order.
pub open spec fn album_slots(tracks: Seq<TrackView>) -> Seq<Option<Seq<char>>> {
    tracks.map_values(|t: TrackView| t.album_id)
}

/// The albums implied by a track snapshot: each album id once, in order of
/// its first occurrence.
pub open spec fn derived_albums(tracks: Seq<TrackView>) -> Seq<Seq<char>> {
    unique_present(album_slots(tracks))
}

/// A list of ids with every repeat after the first occurrence removed.
pub open spec fn unique_ids(ids: Seq<Seq<char>>) -> Seq<Seq<char>> {
    unique_present(ids.map_values(|a: Seq<char>| Some(a)))
}

/// Whether `x` occurs in `v`, compared by value.
pub fn contains_id(v: &[String], x: &String) -> (r: bool)
    ensures
        r == views_of(v@).contains(x@),
{
    let mut i: usize = 0;
    while i < v.len()
        invariant
            i <= v@.len(),
            forall|k: int| 0 <= k < i ==> v@[k]@ != x@,
        decreases v@.len() - i,
    {
        if v[i] == *x {
            assert(views_of(v@)[i as int] == x@);
            return true;
        }
        i = i + 1;
    }
    assert forall|k: int| 0 <= k < views_of(v@).len() implies views_of(v@)[k] != x@ by {}
    false
}

/// Derives the album collection that a track snapshot implies: the album
/// id of every track that has one, each once, in order of first occurrence.
pub fn derive_album_ids(tracks: &[Track]) -> (r: Vec<String>)
    ensures
        views_of(r@) == derived_albums(track_views(tracks@)),
{
    let mut r: Vec<String> = Vec::new();
    let mut i: usize = 0;
    while i < tracks.len()
        invariant
            i <= tracks@.len(),
            views_of(r@) == derived_albums(track_views(tracks@.subrange(0, i as int))),
        decreases tracks@.len() - i,
    {
        let ghost before = album_slots(track_views(tracks@.subrange(0, i as int)));
        let ghost after = album_slots(track_views(tracks@.subrange(0, i + 1)));
        assert(after.drop_last() =~= before);
        assert(after.last() == tracks@[i as int]@.album_id);
        match &tracks[i].album_id {
            Some(a) => {
                if !contains_id(r.as_slice(), a) {
                    r.push(a.clone());
                    assert(views_of(r@) =~= unique_present(before).push(a@));
                }
            },
            None => {},
        }
        i = i + 1;
    }
    assert(tracks@.subrange(0, tracks@.len() as int) =~= tracks@);
    r
}

/// Removes every repeated id, keeping each at its first occurrence.
pub fn dedup_ids(ids: &[String]) -> (r: Vec<String>)
    ensures
        views_of(r@) == unique_ids(views_of(ids@)),
{
    let mut r: Vec<String> = Vec::new();
    let mut i: usize = 0;
    while i < ids.len()
        invariant
            i <= ids@.len(),
            views_of(r@) == unique_ids(views_of(ids@.subrange(0, i as int))),
        decreases ids@.len() - i,
    {
        let ghost before = views_of(ids@.subrange(0, i as int)).map_values(|a: Seq<char>| Some(a));
        let ghost after = views_of(ids@.subrange(0, i + 1)).map_values(|a: Seq<char>| Some(a));
        assert(after.drop_last() =~= before);
        assert(after.last() == Some(ids@[i as int]@));
        if !contains_id(r.as_slice(), &ids[i]) {
            r.push(ids[i].clone());
            assert(views_of(r@) =~= unique_present(before).push(ids@[i as int]@));
        }
        i = i + 1;
    }
    assert(ids@.subrange(0, ids@.len() as int) =~= ids@);
    r
}

/// What `unique_present` keeps: no value twice, exactly the present values,
/// and of two kept values the one that occurs first in `s` comes first.
pub proof fn lemma_unique_present(s: Seq<Option<Seq<char>>>)
    ensures
        unique_present(s).no_duplicates(),
        forall|a: Seq<char>| unique_present(s).contains(a) <==> s.contains(Some(a)),
        forall|i: int, j: int|
            #![trigger unique_present(s)[i], unique_present(s)[j]]
            0 <= i < j < unique_present(s).len() ==> occurs_before(s, unique_present(s)[i], unique_present(s)[j]),
    decreases s.len(),
{
    if s.len() > 0 {
        let p = s.drop_last();
        let up = unique_present(p);
        let u = unique_present(s);
        lemma_unique_present(p);
        assert forall|a: Seq<char>| p.contains(Some(a)) implies s.contains(Some(a)) by {
            let k = choose|k: int| 0 <= k < p.len() && p[k] == Some(a);
            assert(s[k] == Some(a));
        }
        assert forall|a: Seq<char>| s.contains(Some(a)) && s.last() != Some(a) implies p.contains(Some(a)) by {
            let k = choose|k: int| 0 <= k < s.len() && s[k] == Some(a);
            assert(k < p.len());
            assert(p[k] == Some(a));
        }
        assert forall|i: int, j: int| #![trigger up[i], up[j]] 0 <= i < j < up.len() implies occurs_before(s, up[i], up[j]) by {
            let k = choose|k: int|
                0 <= k < p.len() && p[k] == Some(up[i]) && forall|l: int|
                    0 <= l <= k ==> p[l] != Some(up[j]);
            assert(s[k] == Some(up[i]));
            assert forall|l: int| 0 <= l <= k implies s[l] != Some(up[j]) by {
                assert(s[l] == p[l]);
            }
        }
        match s.last() {
            Some(a) => {
                if !up.contains(a) {
                    assert(u == up.push(a));
                    assert forall|i: int| #![trigger u[i]] 0 <= i < up.len() implies occurs_before(s, u[i], a) by {
                        assert(up.contains(up[i]));
                        let k = choose|k: int| 0 <= k < p.len() && p[k] == Some(up[i]);
                        assert(s[k] == Some(u[i]));
                        assert forall|l: int| 0 <= l <= k implies s[l] != Some(a) by {
                            assert(s[l] == p[l]);
                            assert(!p.contains(Some(a)));
                        }
                    }
                    assert forall|x: Seq<char>| u.contains(x) <==> s.contains(Some(x)) by {
                        if x == a {
                            assert(u[up.len() as int] == a);
                            assert(s[p.len() as int] == Some(a));
                        } else if u.contains(x) {
                            let i = choose|i: int| 0 <= i < u.len() && u[i] == x;
                            assert(up[i] == x);
                        } else if s.contains(Some(x)) {
                            assert(p.contains(Some(x)));
                            assert(up.contains(x));
                            let i = choose|i: int| 0 <= i < up.len() && up[i] == x;
                            assert(u[i] == x);
                        }
                    }
                } else {
                    assert forall|x: Seq<char>| s.contains(Some(x)) implies u.contains(x) by {
                        if x != a {
                            assert(p.contains(Some(x)));
                        }
                    }
                }
            },
            None => {},
        }
        assert forall|i: int, j: int| #![trigger u[i], u[j]] 0 <= i < j < u.len() implies occurs_before(s, u[i], u[j]) by {
            if j < up.len() {
                assert(u[i] == up[i]);
                assert(u[j] == up[j]);
            } else {
                assert(u == up.push(s.last()->Some_0));
                assert(u[i] == up[i]);
            }
        }
    }
}

/// The derived album collection holds each album id that a track of the
/// snapshot carries exactly once, holds no other, and keeps the order in
/// which the ids first occur among the tracks.
pub proof fn lemma_derived_albums(tracks: Seq<TrackView>)
    ensures
        derived_albums(tracks).no_duplicates(),
        forall|a: Seq<char>| derived_albums(tracks).contains(a) <==> exists|k: int|
            0 <= k < tracks.len() && tracks[k].album_id == Some(a),
        forall|i: int, j: int|
            #![trigger derived_albums(tracks)[i], derived_albums(tracks)[j]]
            0 <= i < j < derived_albums(tracks).len()
                ==> occurs_before(album_slots(tracks), derived_albums(tracks)[i], derived_albums(tracks)[j]),
{
    let s = album_slots(tracks);
    lemma_unique_present(s);
    assert forall|a: Seq<char>| s.contains(Some(a)) <==> exists|k: int|
        0 <= k < tracks.len() && tracks[k].album_id == Some(a) by {
        if s.contains(Some(a)) {
            let k = choose|k: int| 0 <= k < s.len() && s[k] == Some(a);
            assert(tracks[k].album_id == Some(a));
        }
        if exists|k: int| 0 <= k < tracks.len() && tracks[k].album_id == Some(a) {
            let k = choose|k: int| 0 <= k < tracks.len() && tracks[k].album_id == Some(a);
            assert(s[k] == Some(a));
        }
    }
}

/// Removing repeats leaves no id twice and keeps exactly the ids given.
pub proof fn lemma_unique_ids(ids: Seq<Seq<char>>)
    ensures
        unique_ids(ids).no_duplicates(),
        forall|a: Seq<char>| unique_ids(ids).contains(a) <==> ids.contains(a),
{
    let s = ids.map_values(|a: Seq<char>| Some(a));
    lemma_unique_present(s);
    assert forall|a: Seq<char>| s.contains(Some(a)) <==> ids.contains(a) by {
        if s.contains(Some(a)) {
            let k = choose|k: int| 0 <= k < s.len() && s[k] == Some(a);
            assert(ids[k] == a);
        }
        if ids.contains(a) {
            let k = choose|k: int| 0 <= k < ids.len() && ids[k] == a;
            assert(s[k] == Some(a));
        }
    }
}

} // verus!
