use rippify::ids::{CatalogId, ResourceKind};
use rippify::locate::locate;

fn line(s: &str) -> Vec<u8> {
    s.as_bytes().to_vec()
}

fn expect_kind(s: &str, kind: ResourceKind, id: &str) {
    let r = locate(&line(s)).unwrap_or_else(|_| panic!("{} should match", s));
    assert_eq!(r.kind, kind);
    assert!(r.id.same_as(&CatalogId::new(id.as_bytes().to_vec())));
}

fn expect_unrecognized(s: &str) {
    let r = locate(&line(s));
    match r {
        Ok(_) => panic!("{} should not match", s),
        Err(e) => assert_eq!(e.line, s.as_bytes().to_vec()),
    }
}

#[test]
fn track_uri_matches() {
    expect_kind(
        "spotify:track:4uLU6hMCjMI75M1A2tKUQC",
        ResourceKind::Track,
        "4uLU6hMCjMI75M1A2tKUQC",
    );
}

#[test]
fn track_uri_exact_width() {
    // 22 alphanumeric characters match; 21 or 23 do not, nor does a
    // trailing extra character.
    let id22 = "a1b2c3d4e5f6g7h8i9j0k1";
    assert_eq!(id22.len(), 22);
    expect_kind(
        &format!("spotify:track:{}", id22),
        ResourceKind::Track,
        id22,
    );
    expect_unrecognized(&format!("spotify:track:{}", &id22[..21]));
    expect_unrecognized(&format!("spotify:track:{}X", id22));
    expect_unrecognized(&format!("spotify:track:{} ", id22));
}

#[test]
fn album_forms_match() {
    expect_kind(
        "spotify:album:11dNzPvj9g1KZ7X3XhwFr1",
        ResourceKind::Album,
        "11dNzPvj9g1KZ7X3XhwFr1",
    );
    expect_kind(
        "open.spotify.com/album/11dNzPvj9g1KZ7X3XhwFr1",
        ResourceKind::Album,
        "11dNzPvj9g1KZ7X3XhwFr1",
    );
    expect_kind(
        "http://open.spotify.com/album/11dNzPvj9g1KZ7X3XhwFr1",
        ResourceKind::Album,
        "11dNzPvj9g1KZ7X3XhwFr1",
    );
    expect_kind(
        "https://open.spotify.com/album/11dNzPvj9g1KZ7X3XhwFr1",
        ResourceKind::Album,
        "11dNzPvj9g1KZ7X3XhwFr1",
    );
}

#[test]
fn playlist_and_artist_match() {
    expect_kind(
        "spotify:playlist:aaaaaaaaaaaaaaaaaaaaaa",
        ResourceKind::Playlist,
        "aaaaaaaaaaaaaaaaaaaaaa",
    );
    expect_kind(
        "https://open.spotify.com/artist/ZZZZZZZZZZZZZZZZZZZZZZ",
        ResourceKind::Artist,
        "ZZZZZZZZZZZZZZZZZZZZZZ",
    );
}

#[test]
fn anchored_no_partial_matches() {
    expect_unrecognized(" spotify:track:4uLU6hMCjMI75M1A2tKUQC");
    expect_unrecognized("spotify:track:4uLU6hMCjMI75M1A2tKUQC trailing");
    expect_unrecognized("xhttps://open.spotify.com/album/11dNzPvj9g1KZ7X3XhwFr1");
    expect_unrecognized("https//open.spotify.com/album/11dNzPvj9g1KZ7X3XhwFr1");
}

#[test]
fn non_alphanumeric_id_rejected() {
    expect_unrecognized("spotify:track:4uLU6hMCjMI75M1A2tKUQ_");
    expect_unrecognized("spotify:track:4uLU6hMCjMI75M1A2tKUQ ");
}

#[test]
fn unknown_kinds_rejected() {
    expect_unrecognized("spotify:episode:4uLU6hMCjMI75M1A2tKUQC");
    expect_unrecognized("spotify:Track:4uLU6hMCjMI75M1A2tKUQC");
    expect_unrecognized("");
}
