use srsa::albums::{contains_id, dedup_ids, derive_album_ids};
use srsa::batches::{chunk_ids, plan_backup, present_track_ids};
use srsa::reader::{sort_by_added_at, PageReader, PageRequest};
use srsa::session::{
    plan_album_deletion, plan_spillover_deletion, AddPhase, AlbumSession, SessionAction, SessionEvent,
};
use srsa::spillover::spillover_ids;
use srsa::{SyncError, Track, ALBUM_DELETE_BATCH_SIZE, BACKUP_BATCH_SIZE, PAGE_SIZE, SPILLOVER_DELETE_BATCH_SIZE};

fn s(x: &str) -> String {
    x.to_string()
}

fn track(id: &str, album: &str, t: i64) -> Track {
    Track::new(Some(s(id)), Some(s(album)), t)
}

fn strings(v: &[&str]) -> Vec<String> {
    v.iter().map(|x| x.to_string()).collect()
}

/// Runs a reader against a collection that reports another page after
/// every page with entries; returns the items and the number of reads.
fn drain(snapshot: &[u32], page_size: usize) -> (Vec<u32>, usize) {
    let mut reader: PageReader<u32> = PageReader::new(page_size);
    let mut reads = 0;
    while let Some(PageRequest { offset, limit }) = reader.next_request() {
        reads += 1;
        let end = usize::min(offset + limit, snapshot.len());
        let page: Vec<u32> = if offset < snapshot.len() { snapshot[offset..end].to_vec() } else { Vec::new() };
        let has_next = !page.is_empty();
        reader.accept_page(page, has_next);
    }
    (reader.into_items(), reads)
}

fn album_of(action: &SessionAction) -> Option<String> {
    match action {
        SessionAction::AddAlbum(a) => Some(a.clone()),
        _ => None,
    }
}

#[test]
fn reader_reads_ceil_plus_one_pages() {
    let snapshot: Vec<u32> = (0..120).collect();
    let (items, reads) = drain(&snapshot, PAGE_SIZE);
    assert_eq!(items, snapshot);
    assert_eq!(reads, 4);

    let full: Vec<u32> = (0..100).collect();
    let (items, reads) = drain(&full, 50);
    assert_eq!(items, full);
    assert_eq!(reads, 3);

    let (items, reads) = drain(&[], 50);
    assert!(items.is_empty());
    assert_eq!(reads, 1);
}

#[test]
fn reader_advances_by_entries_returned() {
    let mut reader: PageReader<u32> = PageReader::new(50);
    assert_eq!(reader.next_request(), Some(PageRequest { offset: 0, limit: 50 }));
    reader.accept_page(vec![1, 2, 3], true);
    assert_eq!(reader.next_request(), Some(PageRequest { offset: 3, limit: 50 }));
    reader.accept_page(vec![4], false);
    assert!(reader.is_finished());
    assert_eq!(reader.next_request(), None);
    assert_eq!(reader.into_items(), vec![1, 2, 3, 4]);
}

#[test]
fn sort_orders_by_added_at() {
    let tracks = vec![track("T3", "A1", 30), track("T1", "A1", 10), track("T2", "A2", 20), track("T0", "A9", -5)];
    let sorted = sort_by_added_at(tracks);
    let ids: Vec<String> = sorted.iter().map(|t| t.id.clone().unwrap()).collect();
    assert_eq!(ids, strings(&["T0", "T1", "T2", "T3"]));
    assert!(sort_by_added_at(Vec::new()).is_empty());
}

#[test]
fn derive_albums_scenario() {
    let tracks = vec![track("T1", "A1", 1), track("T2", "A2", 2), track("T3", "A1", 3)];
    assert_eq!(derive_album_ids(&tracks), strings(&["A1", "A2"]));
}

#[test]
fn derive_albums_skips_missing_and_repeats() {
    let tracks = vec![
        Track::new(Some(s("T1")), None, 1),
        track("T2", "B", 2),
        track("T3", "A", 3),
        Track::new(None, Some(s("B")), 4),
        track("T5", "C", 5),
        track("T6", "A", 6),
    ];
    assert_eq!(derive_album_ids(&tracks), strings(&["B", "A", "C"]));
    assert!(derive_album_ids(&[]).is_empty());
}

#[test]
fn dedup_removes_scattered_repeats() {
    let ids = strings(&["A", "B", "A", "A", "C", "B"]);
    assert_eq!(dedup_ids(&ids), strings(&["A", "B", "C"]));
    assert!(contains_id(&ids, &s("C")));
    assert!(!contains_id(&ids, &s("D")));
}

#[test]
fn chunking_keeps_every_id_once() {
    let ids: Vec<String> = (0..45).map(|i| format!("id{}", i)).collect();
    let chunks = chunk_ids(&ids, ALBUM_DELETE_BATCH_SIZE);
    assert_eq!(chunks.iter().map(|c| c.len()).collect::<Vec<_>>(), vec![20, 20, 5]);
    assert_eq!(chunks.concat(), ids);
    assert!(chunk_ids(&[], 20).is_empty());
    assert_eq!(chunk_ids(&ids[..40], 20).len(), 2);
}

#[test]
fn backup_plan_preserves_order() {
    let mut tracks = Vec::new();
    for i in 0..120 {
        if i % 7 == 3 {
            tracks.push(Track::new(None, Some(s("X")), i));
        } else {
            tracks.push(track(&format!("T{}", i), "X", i));
        }
    }
    let plan = plan_backup(&tracks, BACKUP_BATCH_SIZE);
    assert_eq!(plan.len(), 3);
    let expected = present_track_ids(&tracks, 0, tracks.len());
    // Apply the appends in reverse order: the offsets still rebuild the order.
    let mut playlist: Vec<String> = Vec::new();
    let mut order: Vec<usize> = (0..plan.len()).collect();
    order.reverse();
    for k in order {
        let b = &plan[k];
        let at = usize::min(b.offset, playlist.len());
        for (j, id) in b.ids.iter().enumerate() {
            playlist.insert(at + j, id.clone());
        }
    }
    assert_ne!(playlist, expected);
    let mut playlist: Vec<String> = Vec::new();
    for b in &plan {
        for (j, id) in b.ids.iter().enumerate() {
            playlist.insert(b.offset + j, id.clone());
        }
    }
    assert_eq!(playlist, expected);
    assert_eq!(plan[0].offset, 0);
    assert_eq!(plan[1].offset, plan[0].ids.len());
    assert_eq!(plan[2].offset, plan[0].ids.len() + plan[1].ids.len());
    assert_eq!(expected.len(), 120 - 17);
}

#[test]
fn spillover_is_current_minus_original() {
    let original = vec![track("T1", "A1", 1), track("T2", "A2", 2), Track::new(None, Some(s("A3")), 3)];
    let current = vec![
        track("T5", "A2", 5),
        track("T1", "A1", 1),
        Track::new(None, Some(s("A4")), 9),
        track("T4", "A2", 4),
        track("T2", "A2", 2),
    ];
    assert_eq!(spillover_ids(&original, &current), strings(&["T5", "T4"]));
    assert!(spillover_ids(&original, &original).is_empty());
}

#[test]
fn album_deletion_scenario() {
    let batches = plan_album_deletion(&strings(&["A3"]), ALBUM_DELETE_BATCH_SIZE);
    assert_eq!(batches, vec![strings(&["A3"])]);
    let many: Vec<String> = (0..25).map(|i| format!("A{}", i % 22)).collect();
    let batches = plan_album_deletion(&many, ALBUM_DELETE_BATCH_SIZE);
    assert_eq!(batches.iter().map(|c| c.len()).collect::<Vec<_>>(), vec![20, 2]);
}

#[test]
fn session_adds_in_order_without_overflow() {
    let tracks = vec![track("T1", "A1", 1), track("T2", "A2", 2), track("T3", "A1", 3)];
    let mut session = AlbumSession::for_tracks(&tracks);
    let mut added = Vec::new();
    loop {
        match session.action() {
            SessionAction::AddAlbum(a) => {
                added.push(a);
                session.step(SessionEvent::AddSucceeded);
            }
            SessionAction::Finished => break,
            other => panic!("unexpected action {:?}", other),
        }
    }
    assert_eq!(added, strings(&["A1", "A2"]));
    assert!(plan_spillover_deletion(&tracks, &tracks, SPILLOVER_DELETE_BATCH_SIZE).is_empty());
}

#[test]
fn session_recovers_from_overflow() {
    let original = vec![track("T1", "A1", 1), track("T2", "A2", 2), track("T3", "A1", 3)];
    let mut session = AlbumSession::for_tracks(&original);
    assert_eq!(album_of(&session.action()), Some(s("A1")));
    session.step(SessionEvent::AddSucceeded);
    assert_eq!(album_of(&session.action()), Some(s("A2")));
    session.step(SessionEvent::AddFailed);
    assert!(matches!(session.action(), SessionAction::ResolveSpillover));
    assert_eq!(session.phase, AddPhase::Overflowed);

    let mut current = original.clone();
    current.push(track("T4", "A7", 4));
    assert_eq!(spillover_ids(&original, &current), strings(&["T4"]));
    assert_eq!(plan_spillover_deletion(&original, &current, SPILLOVER_DELETE_BATCH_SIZE), vec![strings(&["T4"])]);

    session.step(SessionEvent::SpilloverResolved);
    assert_eq!(album_of(&session.action()), Some(s("A2")));
    session.step(SessionEvent::AddSucceeded);
    assert!(matches!(session.action(), SessionAction::Finished));
    assert_eq!(session.next, 2);
}

#[test]
fn session_fails_after_second_overflow() {
    let mut session = AlbumSession::new(strings(&["A1", "A2"]));
    session.step(SessionEvent::AddFailed);
    session.step(SessionEvent::SpilloverResolved);
    session.step(SessionEvent::AddFailed);
    assert!(matches!(session.action(), SessionAction::Abort(SyncError::LibraryOverflow)));
    session.step(SessionEvent::AddSucceeded);
    assert!(matches!(session.action(), SessionAction::Abort(SyncError::LibraryOverflow)));
}

#[test]
fn session_fails_when_cleanup_fails() {
    let mut session = AlbumSession::new(strings(&["A1"]));
    session.step(SessionEvent::AddFailed);
    session.step(SessionEvent::SpilloverFailed);
    assert!(matches!(session.action(), SessionAction::Abort(SyncError::TransientUpstream)));
}

#[test]
fn session_ignores_events_that_do_not_answer() {
    let mut session = AlbumSession::new(strings(&["A1"]));
    session.step(SessionEvent::SpilloverResolved);
    assert_eq!(album_of(&session.action()), Some(s("A1")));
    session.step(SessionEvent::AddSucceeded);
    session.step(SessionEvent::AddSucceeded);
    assert_eq!(session.next, 1);
    assert!(matches!(session.action(), SessionAction::Finished));
}

#[test]
fn rerun_adds_same_albums() {
    let tracks = vec![track("T1", "A1", 1), track("T2", "A2", 2), track("T3", "A1", 3), track("T4", "A3", 4)];
    let run = |tracks: &[Track]| {
        let mut session = AlbumSession::for_tracks(tracks);
        let mut added = Vec::new();
        while let SessionAction::AddAlbum(a) = session.action() {
            added.push(a);
            session.step(SessionEvent::AddSucceeded);
        }
        added
    };
    let first = run(&tracks);
    assert!(spillover_ids(&tracks, &tracks).is_empty());
    let second = run(&tracks);
    assert_eq!(first, second);
    assert_eq!(first, strings(&["A1", "A2", "A3"]));
}

#[test]
fn spillover_deletion_batches_of_fifty() {
    let original = vec![track("T0", "A", 0)];
    let mut current = original.clone();
    for i in 1..=60 {
        current.push(track(&format!("T{}", i), "A", i));
    }
    let batches = plan_spillover_deletion(&original, &current, SPILLOVER_DELETE_BATCH_SIZE);
    assert_eq!(batches.iter().map(|c| c.len()).collect::<Vec<_>>(), vec![50, 10]);
    assert!(!batches.concat().contains(&s("T0")));
}

#[test]
fn scenario_delete_then_add_in_order() {
    let tracks = vec![track("T1", "A1", 1), track("T2", "A2", 2), track("T3", "A1", 3)];
    let albums = derive_album_ids(&tracks);
    assert_eq!(albums, strings(&["A1", "A2"]));
    assert_eq!(plan_album_deletion(&strings(&["A3"]), ALBUM_DELETE_BATCH_SIZE), vec![strings(&["A3"])]);
    let mut session = AlbumSession::for_tracks(&tracks);
    let mut requests: Vec<Vec<String>> = Vec::new();
    while let SessionAction::AddAlbum(a) = session.action() {
        requests.push(vec![a]);
        session.step(SessionEvent::AddSucceeded);
    }
    assert_eq!(requests, vec![strings(&["A1"]), strings(&["A2"])]);
    assert!(matches!(session.action(), SessionAction::Finished));
}

#[test]
fn scenario_overflow_cleanup_and_retry() {
    let original = vec![track("T1", "A1", 1), track("T2", "A2", 2), track("T3", "A1", 3)];
    let mut current = original.clone();
    current.push(track("T4", "A2", 4));
    let mut session = AlbumSession::for_tracks(&original);
    let mut saved_albums: Vec<String> = Vec::new();
    let mut saved_tracks: Vec<Track> = current.clone();
    let mut overflowed_once = false;
    loop {
        match session.action() {
            SessionAction::AddAlbum(a) => {
                if a == "A2" && !overflowed_once {
                    overflowed_once = true;
                    session.step(SessionEvent::AddFailed);
                } else {
                    saved_albums.push(a);
                    session.step(SessionEvent::AddSucceeded);
                }
            }
            SessionAction::ResolveSpillover => {
                let spill = spillover_ids(&original, &saved_tracks);
                assert_eq!(spill, strings(&["T4"]));
                saved_tracks.retain(|t| !spill.contains(t.id.as_ref().unwrap()));
                session.step(SessionEvent::SpilloverResolved);
            }
            SessionAction::Finished => break,
            SessionAction::Abort(e) => panic!("aborted: {:?}", e),
        }
    }
    assert_eq!(saved_albums, strings(&["A1", "A2"]));
    let ids: Vec<String> = saved_tracks.iter().map(|t| t.id.clone().unwrap()).collect();
    assert_eq!(ids, strings(&["T1", "T2", "T3"]));
}
