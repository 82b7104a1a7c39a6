use rippify::ids::{CatalogId, CatalogReference, ResourceKind};
use rippify::resolve::{AlbumGroup, IdSet, ResolutionEngine};

fn id(s: &str) -> CatalogId {
    CatalogId::new(s.as_bytes().to_vec())
}

fn reference(kind: ResourceKind, s: &str) -> CatalogReference {
    CatalogReference { kind, id: id(s) }
}

fn set_ids(set: IdSet) -> Vec<Vec<u8>> {
    set.into_items().into_iter().map(|i| i.as_bytes().clone()).collect()
}

#[test]
fn track_references_need_no_lookup() {
    let mut engine = ResolutionEngine::new(vec![
        reference(ResourceKind::Track, "t0000000000000000000001"),
        reference(ResourceKind::Track, "t0000000000000000000002"),
    ]);
    assert!(engine.take_request().is_none());
    let (set, warnings) = engine.into_results();
    assert_eq!(set_ids(set).len(), 2);
    assert!(warnings.is_empty());
}

#[test]
fn playlist_members_are_collected() {
    let mut engine = ResolutionEngine::new(vec![reference(
        ResourceKind::Playlist,
        "p0000000000000000000001",
    )]);
    let req = engine.take_request().unwrap();
    assert_eq!(req.kind, ResourceKind::Playlist);
    engine.on_members(&vec![id("ta"), id("tb"), id("tc")]);
    assert!(engine.take_request().is_none());
    let (set, warnings) = engine.into_results();
    assert_eq!(set_ids(set), vec![b"ta".to_vec(), b"tb".to_vec(), b"tc".to_vec()]);
    assert!(warnings.is_empty());
}

#[test]
fn same_playlist_twice_never_double_counts() {
    // Dedup idempotence: two references to the same playlist yield a set
    // whose size is the number of distinct tracks.
    let mut engine = ResolutionEngine::new(vec![
        reference(ResourceKind::Playlist, "p0000000000000000000001"),
        reference(ResourceKind::Playlist, "p0000000000000000000001"),
    ]);
    let members = vec![id("ta"), id("tb")];
    engine.take_request().unwrap();
    engine.on_members(&members);
    engine.take_request().unwrap();
    engine.on_members(&members);
    assert!(engine.take_request().is_none());
    let (set, _) = engine.into_results();
    assert_eq!(set_ids(set), vec![b"ta".to_vec(), b"tb".to_vec()]);
}

#[test]
fn shared_track_between_collections_counted_once() {
    let mut engine = ResolutionEngine::new(vec![
        reference(ResourceKind::Playlist, "p0000000000000000000001"),
        reference(ResourceKind::Album, "a0000000000000000000001"),
    ]);
    engine.take_request().unwrap();
    engine.on_members(&vec![id("shared"), id("only-in-playlist")]);
    engine.take_request().unwrap();
    engine.on_members(&vec![id("shared"), id("only-in-album")]);
    assert!(engine.take_request().is_none());
    let (set, _) = engine.into_results();
    let ids = set_ids(set);
    assert_eq!(ids.len(), 3);
    assert_eq!(ids.iter().filter(|i| i.as_slice() == b"shared").count(), 1);
}

#[test]
fn artist_expands_through_groups_to_albums() {
    // Artist -> album groups -> albums -> tracks, the albums resolved as
    // ordinary album references.
    let mut engine = ResolutionEngine::new(vec![reference(
        ResourceKind::Artist,
        "r0000000000000000000001",
    )]);
    let req = engine.take_request().unwrap();
    assert_eq!(req.kind, ResourceKind::Artist);
    engine.on_artist(&vec![
        AlbumGroup { albums: vec![id("alb1"), id("alb2")] },
        AlbumGroup { albums: vec![id("alb3")] },
    ]);
    let expected_albums = [b"alb1".to_vec(), b"alb2".to_vec(), b"alb3".to_vec()];
    for expected in &expected_albums {
        let req = engine.take_request().unwrap();
        assert_eq!(req.kind, ResourceKind::Album);
        assert_eq!(req.id.as_bytes(), expected);
        engine.on_members(&vec![id(&format!("track-of-{}", String::from_utf8_lossy(expected)))]);
    }
    assert!(engine.take_request().is_none());
    let (set, warnings) = engine.into_results();
    assert_eq!(set_ids(set).len(), 3);
    assert!(warnings.is_empty());
}

#[test]
fn failed_lookup_warns_and_continues() {
    let mut engine = ResolutionEngine::new(vec![
        reference(ResourceKind::Playlist, "p0000000000000000000001"),
        reference(ResourceKind::Track, "t0000000000000000000001"),
    ]);
    let req = engine.take_request().unwrap();
    engine.on_failure(req.kind, req.id, b"lookup failed".to_vec());
    assert!(engine.take_request().is_none());
    let (set, warnings) = engine.into_results();
    assert_eq!(set_ids(set), vec![b"t0000000000000000000001".to_vec()]);
    assert_eq!(warnings.len(), 1);
    assert_eq!(warnings[0].kind, ResourceKind::Playlist);
    assert_eq!(warnings[0].cause, b"lookup failed".to_vec());
}

#[test]
fn empty_reference_list_resolves_to_nothing() {
    let mut engine = ResolutionEngine::new(vec![]);
    assert!(engine.take_request().is_none());
    let (set, warnings) = engine.into_results();
    assert_eq!(set.len(), 0);
    assert!(warnings.is_empty());
}

#[test]
fn id_set_insert_and_contains() {
    let mut set = IdSet::new();
    set.insert(id("one"));
    set.insert(id("two"));
    set.insert(id("one"));
    assert_eq!(set.len(), 2);
    assert!(set.contains(&id("one")));
    assert!(set.contains(&id("two")));
    assert!(!set.contains(&id("three")));
}
