use vstd::prelude::*;

verus! {

/// Number of entries asked for per page when reading a collection.
/// Known to work against the service; its documentation promises nothing.
pub const PAGE_SIZE: usize = 50;

/// Number of tracks appended to the backup playlist per request.
/// Known to work against the service; its documentation promises nothing.
pub const BACKUP_BATCH_SIZE: usize = 50;

/// Number of albums removed per request. The service documents a larger
/// limit, but requests of that size fail; this one is known to work.
pub const ALBUM_DELETE_BATCH_SIZE: usize = 20;

/// Number of spilled-over tracks removed per request. Known to work against
/// the service; its documentation promises nothing.
pub const SPILLOVER_DELETE_BATCH_SIZE: usize = 50;

/// A saved track as read from the remote collection.
///
/// `id` is absent for tracks that cannot be referenced (local uploads);
/// `album_id` is absent when the track's album has no id; `added_at` is the
/// time the track was saved, in milliseconds since the Unix epoch.
#[derive(Clone, Debug)]
pub struct Track {
    pub id: Option<String>,
    pub album_id: Option<String>,
    pub added_at: i64,
}

/// What a `Track` holds, as mathematical values.
pub ghost struct TrackView {
    pub id: Option<Seq<char>>,
    pub album_id: Option<Seq<char>>,
    pub added_at: int,
}

pub open spec fn opt_view(o: Option<String>) -> Option<Seq<char>> {
    match o {
        Some(s) => Some(s@),
        None => None,
    }
}

impl View for Track {
    type V = TrackView;

    open spec fn view(&self) -> TrackView {
        TrackView { id: opt_view(self.id), album_id: opt_view(self.album_id), added_at: self.added_at as int }
    }
}

impl Track {
    /// A track with the given id, album id and save time.
    pub fn new(id: Option<String>, album_id: Option<String>, added_at: i64) -> (r: Track)
        ensures
            r.id == id,
            r.album_id == album_id,
            r.added_at == added_at,
    {
        Track { id, album_id, added_at }
    }
}

/// The ways a synchronisation run can fail.
#[derive(Clone, Copy, Debug, PartialEq, Eq, Structural)]
pub enum SyncError {
    /// A page read or batch write failed for a reason other than overflow.
    TransientUpstream,
    /// Adding an album failed again after the spillover was cleaned up.
    LibraryOverflow,
    /// No authenticated session could be obtained.
    Authentication,
}

/// The views of a sequence of strings.
pub open spec fn views_of(v: Seq<String>) -> Seq<Seq<char>> {
    v.map_values(|s: String| s@)
}

/// The views of a sequence of tracks.
pub open spec fn track_views(v: Seq<Track>) -> Seq<TrackView> {
    v.map_values(|t: Track| t@)
}

} // verus!
