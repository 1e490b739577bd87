use vstd::prelude::*;
use crate::model::{Track, TrackView, views_of, track_views};

verus! {

/// The ids of the tracks that have one, in track order.
pub open spec fn present_ids(s: Seq<TrackView>) -> Seq<Seq<char>>
    decreases s.len(),
{
    if s.len() == 0 {
        Seq::empty()
    } else {
        let prev = present_ids(s.drop_last());
        match s.last().id {
            Some(x) => prev.push(x),
            None => prev,
        }
    }
}

/// `s` cut into consecutive pieces of `n` entries, the last one possibly
/// shorter.
pub open spec fn chunks_of(s: Seq<Seq<char>>, n: nat) -> Seq<Seq<Seq<char>>>
    decreases s.len(),
{
    if s.len() == 0 || n == 0 {
        Seq::empty()
    } else if s.len() <= n {
        seq![s]
    } else {
        seq![s.take(n as int)] + chunks_of(s.skip(n as int), n)
    }
}

/// One request that appends ids to the backup playlist at a given position.
pub struct AppendBatch {
    pub ids: Vec<String>,
    pub offset: usize,
}

/// The append requests that copy `tracks` into an empty playlist: one for
/// each run of `n` tracks, holding the ids of those tracks that have one,
/// placed where the ids appended so far end.
pub open spec fn backup_plan(tracks: Seq<TrackView>, n: nat, offset: nat) -> Seq<(Seq<Seq<char>>, nat)>
    decreases tracks.len(),
{
    if tracks.len() == 0 || n == 0 {
        Seq::empty()
    } else {
        let m = if tracks.len() <= n { tracks.len() as int } else { n as int };
        let ids = present_ids(tracks.take(m));
        seq![(ids, offset)] + backup_plan(tracks.skip(m), n, offset + ids.len())
    }
}

pub open spec fn batch_views(b: Seq<Vec<String>>) -> Seq<Seq<Seq<char>>> {
    b.map_values(|v: Vec<String>| views_of(v@))
}

pub open spec fn append_views(b: Seq<AppendBatch>) -> Seq<(Seq<Seq<char>>, nat)> {
    b.map_values(|a: AppendBatch| (views_of(a.ids@), a.offset as nat))
}

/// A playlist after an append of `ids` at `offset`.
pub open spec fn insert_at(list: Seq<Seq<char>>, ids: Seq<Seq<char>>, offset: nat) -> Seq<Seq<char>> {
    if offset <= list.len() {
        list.take(offset as int) + ids + list.skip(offset as int)
    } else {
        list + ids
    }
}

/// A playlist after the appends of `batches`, made one after another.
pub open spec fn apply_appends(list: Seq<Seq<char>>, batches: Seq<(Seq<Seq<char>>, nat)>) -> Seq<Seq<char>>
    decreases batches.len(),
{
    if batches.len() == 0 {
        list
    } else {
        apply_appends(insert_at(list, batches[0].0, batches[0].1), batches.skip(1))
    }
}

/// The ids of `tracks[from..to]` that are present, in order.
pub fn present_track_ids(tracks: &[Track], from: usize, to: usize) -> (r: Vec<String>)
    requires
        from <= to <= tracks@.len(),
    ensures
        views_of(r@) == present_ids(track_views(tracks@.subrange(from as int, to as int))),
{
    let mut r: Vec<String> = Vec::new();
    let mut j: usize = from;
    while j < to
        invariant
            from <= j <= to <= tracks@.len(),
            views_of(r@) == present_ids(track_views(tracks@.subrange(from as int, j as int))),
        decreases to - j,
    {
        let ghost before = track_views(tracks@.subrange(from as int, j as int));
        let ghost after = track_views(tracks@.subrange(from as int, j + 1));
        assert(after.drop_last() =~= before);
        assert(after.last() == tracks@[j as int]@);
        match &tracks[j].id {
            Some(x) => {
                r.push(x.clone());
                assert(views_of(r@) =~= present_ids(before).push(x@));
            },
            None => {},
        }
        j = j + 1;
    }
    r
}

/// Cuts `ids` into consecutive batches of `size` ids, the last one
/// possibly shorter.
pub fn chunk_ids(ids: &[String], size: usize) -> (r: Vec<Vec<String>>)
    requires
        size > 0,
    ensures
        batch_views(r@) == chunks_of(views_of(ids@), size as nat),
{
    let ghost all = views_of(ids@);
    let mut r: Vec<Vec<String>> = Vec::new();
    let mut i: usize = 0;
    assert(all.skip(0) =~= all);
    assert(batch_views(r@) + chunks_of(all.skip(0), size as nat) =~= chunks_of(all, size as nat));
    while i < ids.len()
        invariant
            i <= ids@.len(),
            all == views_of(ids@),
            size > 0,
            batch_views(r@) + chunks_of(all.skip(i as int), size as nat) == chunks_of(all, size as nat),
        decreases ids@.len() - i,
    {
        let end: usize = if ids.len() - i <= size { ids.len() } else { i + size };
        let mut chunk: Vec<String> = Vec::new();
        let mut j: usize = i;
        while j < end
            invariant
                i <= j <= end <= ids@.len(),
                chunk@.len() == j - i,
                forall|k: int| 0 <= k < j - i ==> chunk@[k]@ == ids@[i + k]@,
            decreases end - j,
        {
            chunk.push(ids[j].clone());
            j = j + 1;
        }
        let ghost rest = all.skip(i as int);
        assert(views_of(chunk@) =~= rest.take(end - i));
        assert(rest.skip(end - i) =~= all.skip(end as int));
        if ids.len() - i <= size {
            assert(rest.take(end - i) =~= rest);
            assert(all.skip(end as int) =~= Seq::<Seq<char>>::empty());
        }
        assert(chunks_of(rest, size as nat) =~= seq![views_of(chunk@)] + chunks_of(all.skip(end as int), size as nat));
        let ghost old_r = r@;
        r.push(chunk);
        assert(batch_views(r@) =~= batch_views(old_r) + seq![views_of(chunk@)]);
        i = end;
    }
    assert(all.skip(i as int) =~= Seq::<Seq<char>>::empty());
    assert(batch_views(r@) + chunks_of(all.skip(i as int), size as nat) =~= batch_views(r@));
    r
}

/// Plans the appends that copy `tracks` into a new playlist in batches of
/// `size` tracks. Tracks without an id are left out; each batch names the
/// position where the ids appended before it end, so that the playlist
/// keeps the order of `tracks` however the service handles the batches.
pub fn plan_backup(tracks: &[Track], size: usize) -> (r: Vec<AppendBatch>)
    requires
        size > 0,
    ensures
        append_views(r@) == backup_plan(track_views(tracks@), size as nat, 0),
{
    let ghost all = track_views(tracks@);
    let mut r: Vec<AppendBatch> = Vec::new();
    let mut i: usize = 0;
    let mut offset: usize = 0;
    assert(all.skip(0) =~= all);
    assert(append_views(r@) + backup_plan(all.skip(0), size as nat, 0) =~= backup_plan(all, size as nat, 0));
    while i < tracks.len()
        invariant
            i <= tracks@.len(),
            offset <= i,
            size > 0,
            all == track_views(tracks@),
            append_views(r@) + backup_plan(all.skip(i as int), size as nat, offset as nat)
                == backup_plan(all, size as nat, 0),
        decreases tracks@.len() - i,
    {
        let end: usize = if tracks.len() - i <= size { tracks.len() } else { i + size };
        let ids = present_track_ids(tracks, i, end);
        let ghost rest = all.skip(i as int);
        assert(rest.take(end - i) =~= track_views(tracks@.subrange(i as int, end as int)));
        assert(rest.skip(end - i) =~= all.skip(end as int));
        proof { lemma_present_ids_len(rest.take(end - i)); }
        let ghost next = (views_of(ids@), offset as nat);
        assert(backup_plan(rest, size as nat, offset as nat)
            =~= seq![next] + backup_plan(all.skip(end as int), size as nat, (offset + ids.len()) as nat));
        let ghost old_r = r@;
        let n_ids: usize = ids.len();
        r.push(AppendBatch { ids, offset });
        assert(append_views(r@) =~= append_views(old_r) + seq![next]);
        offset = offset + n_ids;
        i = end;
    }
    assert(all.skip(i as int) =~= Seq::<TrackView>::empty());
    assert(append_views(r@) + backup_plan(all.skip(i as int), size as nat, offset as nat) =~= append_views(r@));
    r
}

proof fn lemma_present_ids_len(s: Seq<TrackView>)
    ensures
        present_ids(s).len() <= s.len(),
    decreases s.len(),
{
    if s.len() > 0 {
        lemma_present_ids_len(s.drop_last());
    }
}

proof fn lemma_present_ids_concat(a: Seq<TrackView>, b: Seq<TrackView>)
    ensures
        present_ids(a + b) == present_ids(a) + present_ids(b),
    decreases b.len(),
{
    if b.len() == 0 {
        assert(a + b =~= a);
        assert(present_ids(a) + present_ids(b) =~= present_ids(a));
    } else {
        lemma_present_ids_concat(a, b.drop_last());
        assert((a + b).drop_last() =~= a + b.drop_last());
        assert((a + b).last() == b.last());
        match b.last().id {
            Some(x) => {
                assert(present_ids(a + b) =~= present_ids(a) + present_ids(b));
            },
            None => {},
        }
    }
}

proof fn lemma_apply_plan(acc: Seq<Seq<char>>, tracks: Seq<TrackView>, n: nat)
    requires
        n > 0,
    ensures
        apply_appends(acc, backup_plan(tracks, n, acc.len())) == acc + present_ids(tracks),
    decreases tracks.len(),
{
    if tracks.len() == 0 {
        assert(acc + present_ids(tracks) =~= acc);
    } else {
        let m = if tracks.len() <= n { tracks.len() as int } else { n as int };
        let ids = present_ids(tracks.take(m));
        let rest = backup_plan(tracks.skip(m), n, acc.len() + ids.len());
        let plan = backup_plan(tracks, n, acc.len());
        assert(plan == seq![(ids, acc.len())] + rest);
        assert(plan.skip(1) =~= rest);
        assert(insert_at(acc, ids, acc.len()) =~= acc + ids);
        lemma_apply_plan(acc + ids, tracks.skip(m), n);
        assert(tracks =~= tracks.take(m) + tracks.skip(m));
        lemma_present_ids_concat(tracks.take(m), tracks.skip(m));
        assert(acc + ids + present_ids(tracks.skip(m)) =~= acc + present_ids(tracks));
    }
}

/// Made one after another into an empty playlist, the planned appends
/// leave it holding the ids of the snapshot in snapshot order, whatever the
/// batch size.
pub proof fn lemma_backup_keeps_order(tracks: Seq<TrackView>, n: nat)
    requires
        n > 0,
    ensures
        apply_appends(Seq::empty(), backup_plan(tracks, n, 0)) == present_ids(tracks),
{
    lemma_apply_plan(Seq::empty(), tracks, n);
    assert(Seq::<Seq<char>>::empty() + present_ids(tracks) =~= present_ids(tracks));
}

/// The pieces of `b` joined back together.
pub open spec fn joined(b: Seq<Seq<Seq<char>>>) -> Seq<Seq<char>>
    decreases b.len(),
{
    if b.len() == 0 {
        Seq::empty()
    } else {
        b[0] + joined(b.skip(1))
    }
}

/// Cutting a list into batches loses and adds nothing: joined, the batches
/// give the list back, and none is empty or longer than the batch size.
pub proof fn lemma_chunks_of(s: Seq<Seq<char>>, n: nat)
    requires
        n > 0,
    ensures
        joined(chunks_of(s, n)) == s,
        forall|k: int| 0 <= k < chunks_of(s, n).len() ==> 0 < #[trigger] chunks_of(s, n)[k].len() <= n,
    decreases s.len(),
{
    let c = chunks_of(s, n);
    if s.len() == 0 {
    } else if s.len() <= n {
        assert(c.skip(1) =~= Seq::<Seq<Seq<char>>>::empty());
        assert(c[0] == s);
        assert(joined(c.skip(1)) == Seq::<Seq<char>>::empty());
        assert(joined(c) == c[0] + joined(c.skip(1)));
        assert(s + Seq::<Seq<char>>::empty() =~= s);
    } else {
        lemma_chunks_of(s.skip(n as int), n);
        let rest = chunks_of(s.skip(n as int), n);
        assert(c.skip(1) =~= rest);
        assert(c[0] == s.take(n as int));
        assert(joined(c) == c[0] + joined(c.skip(1)));
        assert(s.take(n as int) + s.skip(n as int) =~= s);
        assert forall|k: int| 0 <= k < c.len() implies 0 < #[trigger] c[k].len() <= n by {
            if k > 0 {
                assert(c[k] == rest[k - 1]);
            }
        }
    }
}

} // verus!
