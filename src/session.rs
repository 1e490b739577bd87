use vstd::prelude::*;
use crate::model::{Track, TrackView, SyncError, views_of, track_views};
use crate::albums::{derive_album_ids, derived_albums, dedup_ids, unique_ids};
use crate::batches::{chunk_ids, chunks_of, batch_views, present_ids};
use crate::spillover::{spillover_ids, spilled, lemma_spillover_exact};

verus! {

/// Where the add of the current album stands.
#[derive(Clone, Copy, Debug, PartialEq, Eq, Structural)]
pub enum AddPhase {
    /// The album has not been asked for yet.
    Pending,
    /// The add failed; the spillover must be cleaned up before a retry.
    Overflowed,
    /// The spillover is cleaned up; the add is asked for once more.
    Retrying,
    /// The run stopped with this error.
    Failed(SyncError),
}

/// What the caller does next for an album session.
#[derive(Clone, Debug)]
pub enum SessionAction {
    /// Add this one album to the saved albums.
    AddAlbum(String),
    /// Re-read the saved tracks and delete the spillover.
    ResolveSpillover,
    /// Every album has been added.
    Finished,
    /// Stop the run with this error.
    Abort(SyncError),
}

/// What the caller reports back after performing an action.
#[derive(Clone, Copy, Debug, PartialEq, Eq, Structural)]
pub enum SessionEvent {
    AddSucceeded,
    AddFailed,
    SpilloverResolved,
    SpilloverFailed,
}

pub ghost enum ActionView {
    AddAlbum(Seq<char>),
    ResolveSpillover,
    Finished,
    Abort(SyncError),
}

impl View for SessionAction {
    type V = ActionView;

    open spec fn view(&self) -> ActionView {
        match self {
            SessionAction::AddAlbum(a) => ActionView::AddAlbum(a@),
            SessionAction::ResolveSpillover => ActionView::ResolveSpillover,
            SessionAction::Finished => ActionView::Finished,
            SessionAction::Abort(e) => ActionView::Abort(*e),
        }
    }
}

/// Adds albums to the saved albums one at a time, in order, recovering
/// once per album from a library overflow.
pub struct AlbumSession {
    pub albums: Vec<String>,
    pub next: usize,
    pub phase: AddPhase,
}

pub ghost struct SessionView {
    pub albums: Seq<Seq<char>>,
    pub next: nat,
    pub phase: AddPhase,
}

impl View for AlbumSession {
    type V = SessionView;

    open spec fn view(&self) -> SessionView {
        SessionView { albums: views_of(self.albums@), next: self.next as nat, phase: self.phase }
    }
}

/// A session that has added nothing yet.
pub open spec fn initial_session(albums: Seq<Seq<char>>) -> SessionView {
    SessionView { albums, next: 0, phase: AddPhase::Pending }
}

/// What a session in state `v` asks for.
pub open spec fn session_action(v: SessionView) -> ActionView {
    match v.phase {
        AddPhase::Failed(e) => ActionView::Abort(e),
        AddPhase::Overflowed => ActionView::ResolveSpillover,
        _ => if v.next >= v.albums.len() {
            ActionView::Finished
        } else {
            ActionView::AddAlbum(v.albums[v.next as int])
        },
    }
}

/// The session after event `e`. An added album moves the session on to the
/// next one; a failed add leads to the spillover cleanup and one retry; a
/// second failure, or a failed cleanup, stops the run. An event that does
/// not answer the action asked for changes nothing.
pub open spec fn session_step(v: SessionView, e: SessionEvent) -> SessionView {
    match (v.phase, e) {
        (AddPhase::Pending, SessionEvent::AddSucceeded) | (AddPhase::Retrying, SessionEvent::AddSucceeded) =>
            if v.next < v.albums.len() { SessionView { next: v.next + 1, phase: AddPhase::Pending, ..v } } else { v },
        (AddPhase::Pending, SessionEvent::AddFailed) =>
            if v.next < v.albums.len() { SessionView { phase: AddPhase::Overflowed, ..v } } else { v },
        (AddPhase::Retrying, SessionEvent::AddFailed) =>
            if v.next < v.albums.len() { SessionView { phase: AddPhase::Failed(SyncError::LibraryOverflow), ..v } } else { v },
        (AddPhase::Overflowed, SessionEvent::SpilloverResolved) => SessionView { phase: AddPhase::Retrying, ..v },
        (AddPhase::Overflowed, SessionEvent::SpilloverFailed) =>
            SessionView { phase: AddPhase::Failed(SyncError::TransientUpstream), ..v },
        _ => v,
    }
}

impl AlbumSession {
    pub open spec fn well_formed(&self) -> bool {
        self.next <= self.albums@.len()
    }

    /// A session that adds `albums`, in order.
    pub fn new(albums: Vec<String>) -> (r: AlbumSession)
        ensures
            r.well_formed(),
            r@ == initial_session(views_of(albums@)),
    {
        AlbumSession { albums, next: 0, phase: AddPhase::Pending }
    }

    /// A session that adds the albums implied by a track snapshot.
    pub fn for_tracks(tracks: &[Track]) -> (r: AlbumSession)
        ensures
            r.well_formed(),
            r@ == initial_session(derived_albums(track_views(tracks@))),
    {
        AlbumSession::new(derive_album_ids(tracks))
    }

    /// What the caller does next.
    pub fn action(&self) -> (r: SessionAction)
        requires
            self.well_formed(),
        ensures
            r@ == session_action(self@),
    {
        match self.phase {
            AddPhase::Failed(e) => SessionAction::Abort(e),
            AddPhase::Overflowed => SessionAction::ResolveSpillover,
            _ => if self.next >= self.albums.len() {
                SessionAction::Finished
            } else {
                SessionAction::AddAlbum(self.albums[self.next].clone())
            },
        }
    }

    /// Moves the session on by the outcome of the action last performed.
    pub fn step(&mut self, e: SessionEvent)
        requires
            old(self).well_formed(),
        ensures
            final(self).well_formed(),
            final(self)@ == session_step(old(self)@, e),
    {
        let in_range = self.next < self.albums.len();
        match (self.phase, e) {
            (AddPhase::Pending, SessionEvent::AddSucceeded) | (AddPhase::Retrying, SessionEvent::AddSucceeded) => {
                if in_range {
                    self.next = self.next + 1;
                    self.phase = AddPhase::Pending;
                }
            },
            (AddPhase::Pending, SessionEvent::AddFailed) => {
                if in_range {
                    self.phase = AddPhase::Overflowed;
                }
            },
            (AddPhase::Retrying, SessionEvent::AddFailed) => {
                if in_range {
                    self.phase = AddPhase::Failed(SyncError::LibraryOverflow);
                }
            },
            (AddPhase::Overflowed, SessionEvent::SpilloverResolved) => {
                self.phase = AddPhase::Retrying;
            },
            (AddPhase::Overflowed, SessionEvent::SpilloverFailed) => {
                self.phase = AddPhase::Failed(SyncError::TransientUpstream);
            },
            _ => {},
        }
    }
}

/// The delete requests that empty the saved albums: the ids read, each
/// once, in batches of `batch_size` (`ALBUM_DELETE_BATCH_SIZE` is known to
/// work).
pub fn plan_album_deletion(saved: &[String], batch_size: usize) -> (r: Vec<Vec<String>>)
    requires
        batch_size > 0,
    ensures
        batch_views(r@) == chunks_of(unique_ids(views_of(saved@)), batch_size as nat),
{
    let ids = dedup_ids(saved);
    chunk_ids(ids.as_slice(), batch_size)
}

/// The delete requests that remove the spillover: the ids of the tracks
/// saved now that the snapshot `original` did not hold, in batches of
/// `batch_size` (`SPILLOVER_DELETE_BATCH_SIZE` is known to work).
pub fn plan_spillover_deletion(original: &[Track], current: &[Track], batch_size: usize) -> (r: Vec<Vec<String>>)
    requires
        batch_size > 0,
    ensures
        batch_views(r@) == chunks_of(
            spilled(present_ids(track_views(original@)), track_views(current@)),
            batch_size as nat,
        ),
{
    let ids = spillover_ids(original, current);
    chunk_ids(ids.as_slice(), batch_size)
}

/// The session after each of `events` in turn.
pub open spec fn run(v: SessionView, events: Seq<SessionEvent>) -> SessionView
    decreases events.len(),
{
    if events.len() == 0 {
        v
    } else {
        run(session_step(v, events[0]), events.skip(1))
    }
}

/// The albums that a run saves: the album of each add that the service
/// reported as done, in order.
pub open spec fn added(v: SessionView, events: Seq<SessionEvent>) -> Seq<Seq<char>>
    decreases events.len(),
{
    if events.len() == 0 {
        Seq::empty()
    } else {
        let here = match session_action(v) {
            ActionView::AddAlbum(a) => if events[0] == SessionEvent::AddSucceeded { seq![a] } else { Seq::empty() },
            _ => Seq::empty(),
        };
        here + added(session_step(v, events[0]), events.skip(1))
    }
}

/// `k` reports of a successful add.
pub open spec fn successes(k: nat) -> Seq<SessionEvent> {
    Seq::new(k, |i: int| SessionEvent::AddSucceeded)
}

proof fn lemma_added_prefix(v: SessionView, events: Seq<SessionEvent>)
    requires
        v.next <= v.albums.len(),
    ensures
        v.next <= run(v, events).next <= v.albums.len(),
        run(v, events).albums == v.albums,
        added(v, events) == v.albums.subrange(v.next as int, run(v, events).next as int),
    decreases events.len(),
{
    if events.len() == 0 {
        assert(v.albums.subrange(v.next as int, v.next as int) =~= Seq::<Seq<char>>::empty());
    } else {
        let w = session_step(v, events[0]);
        lemma_added_prefix(w, events.skip(1));
        let f = run(v, events);
        if w.next == v.next + 1 {
            assert(session_action(v) == ActionView::AddAlbum(v.albums[v.next as int]));
            assert(v.albums.subrange(v.next as int, f.next as int)
                =~= seq![v.albums[v.next as int]] + v.albums.subrange(w.next as int, f.next as int));
        } else {
            assert(w.next == v.next);
            assert(added(v, events) =~= added(w, events.skip(1)));
        }
    }
}

/// Whatever overflows and retries happen on the way, a session that
/// finishes has saved exactly its albums, each once, in their order.
pub proof fn lemma_finished_run_adds_all(albums: Seq<Seq<char>>, events: Seq<SessionEvent>)
    requires
        session_action(run(initial_session(albums), events)) == ActionView::Finished,
    ensures
        added(initial_session(albums), events) == albums,
{
    let v = initial_session(albums);
    lemma_added_prefix(v, events);
    assert(albums.subrange(0, albums.len() as int) =~= albums);
}

proof fn lemma_successes_run(v: SessionView, k: nat)
    requires
        v.phase == AddPhase::Pending,
        v.next + k <= v.albums.len(),
    ensures
        run(v, successes(k)) == (SessionView { next: v.next + k, ..v }),
    decreases k,
{
    if k == 0 {
        assert(v == SessionView { next: v.next + 0, ..v });
    } else {
        let w = session_step(v, SessionEvent::AddSucceeded);
        assert(successes(k).skip(1) =~= successes((k - 1) as nat));
        lemma_successes_run(w, (k - 1) as nat);
    }
}

/// Without an overflow a reconciliation adds the derived albums one at a
/// time in their order, never asks for a spillover cleanup, and finishes;
/// and the final cleanup, run against the unchanged track collection,
/// finds nothing to delete, so the saved tracks stay as they were.
pub proof fn lemma_no_overflow_round_trip(tracks: Seq<TrackView>)
    ensures
        forall|k: nat| k < derived_albums(tracks).len() ==> session_action(
            #[trigger] run(initial_session(derived_albums(tracks)), successes(k)),
        ) == ActionView::AddAlbum(derived_albums(tracks)[k as int]),
        session_action(run(initial_session(derived_albums(tracks)), successes(derived_albums(tracks).len())))
            == ActionView::Finished,
        added(initial_session(derived_albums(tracks)), successes(derived_albums(tracks).len()))
            == derived_albums(tracks),
        spilled(present_ids(tracks), tracks).len() == 0,
{
    let albums = derived_albums(tracks);
    let v = initial_session(albums);
    assert forall|k: nat| k < albums.len() implies session_action(#[trigger] run(v, successes(k)))
        == ActionView::AddAlbum(albums[k as int]) by {
        lemma_successes_run(v, k);
    }
    lemma_successes_run(v, albums.len());
    lemma_finished_run_adds_all(albums, successes(albums.len()));
    lemma_spillover_exact(tracks, tracks);
    let sp = spilled(present_ids(tracks), tracks);
    if sp.len() > 0 {
        assert(sp.contains(sp[0]));
    }
}

/// Two runs on the same track collection that both finish save the same
/// albums in the same order: those derived from the tracks.
pub proof fn lemma_rerun_same_albums(
    first: Seq<TrackView>,
    second: Seq<TrackView>,
    events1: Seq<SessionEvent>,
    events2: Seq<SessionEvent>,
)
    requires
        first == second,
        session_action(run(initial_session(derived_albums(first)), events1)) == ActionView::Finished,
        session_action(run(initial_session(derived_albums(second)), events2)) == ActionView::Finished,
    ensures
        added(initial_session(derived_albums(first)), events1)
            == added(initial_session(derived_albums(second)), events2),
        added(initial_session(derived_albums(first)), events1) == derived_albums(first),
{
    lemma_finished_run_adds_all(derived_albums(first), events1);
    lemma_finished_run_adds_all(derived_albums(second), events2);
}

} // verus!
