//! The whole pipeline on an in-memory catalog: one album reference in,
//! two rewritten containers out, the second authored from an alternative
//! record's metadata.

use rippify::comment::{make_comment_header, parse_comment_header, CommentBlock, CommentEntry};
use rippify::formats::{Encoding, EncodingTag, FileId, FormatResolver, TrackRecord};
use rippify::ids::{CatalogId, ResourceKind};
use rippify::locate::locate;
use rippify::packets::OggPacket;
use rippify::resolve::ResolutionEngine;
use rippify::rewrite::write_all_packets;
use rippify::tags::track_add_metadata_tags;

const OGG_VORBIS_320: EncodingTag = EncodingTag { code: 2 };
const OGG_VORBIS_160: EncodingTag = EncodingTag { code: 1 };
const OGG_VORBIS_96: EncodingTag = EncodingTag { code: 0 };

fn id(s: &str) -> CatalogId {
    CatalogId::new(s.as_bytes().to_vec())
}

fn record(
    id_s: &str,
    name: &str,
    encodings: Vec<Encoding>,
    alternatives: Vec<CatalogId>,
) -> TrackRecord {
    TrackRecord {
        id: id(id_s),
        name: name.as_bytes().to_vec(),
        album_name: b"The Album".to_vec(),
        artist_names: vec![b"First Artist".to_vec(), b"Second Artist".to_vec()],
        encodings,
        alternatives,
    }
}

/// A minimal container: an ident-like packet, an empty comment header, one
/// audio-like packet.
fn blank_container() -> Vec<u8> {
    let empty = CommentBlock { vendor: b"encoder".to_vec(), entries: vec![] };
    let comment_payload = make_comment_header(&empty).unwrap();
    let mut ident = vec![0x01];
    ident.extend(b"vorbis");
    write_all_packets(vec![
        OggPacket { payload: ident, serial: 7, last_in_page: true, last_in_stream: false, absgp: 0 },
        OggPacket {
            payload: comment_payload,
            serial: 7,
            last_in_page: true,
            last_in_stream: false,
            absgp: 0,
        },
        OggPacket {
            payload: vec![0xAA; 64],
            serial: 7,
            last_in_page: false,
            last_in_stream: true,
            absgp: 1000,
        },
    ])
}

fn title_of(container: &[u8], entries: &[CommentEntry]) -> String {
    let _ = container;
    let title = entries
        .iter()
        .find(|e| e.key == b"title".to_vec())
        .expect("a title entry must be present");
    String::from_utf8(title.value.clone()).unwrap()
}

#[test]
fn album_reference_to_two_rewritten_containers() {
    // The album holds two tracks. The first offers an acceptable encoding
    // itself; the second does not, but its one alternative does.
    let album_id = "11dNzPvj9g1KZ7X3XhwFr1";
    let track1 = record(
        "t1000000000000000000001",
        "Track One",
        vec![Encoding { tag: OGG_VORBIS_160, file: FileId { bytes: b"file-1".to_vec() } }],
        vec![],
    );
    let track2 = record("t2000000000000000000002", "Track Two", vec![], vec![id(
        "t2alt000000000000000003",
    )]);
    let track2_alt = record(
        "t2alt000000000000000003",
        "Track Two (alternate)",
        vec![Encoding { tag: OGG_VORBIS_96, file: FileId { bytes: b"file-2a".to_vec() } }],
        vec![],
    );

    // Input line -> typed reference.
    let line = format!("spotify:album:{}", album_id).into_bytes();
    let reference = match locate(&line) {
        Ok(r) => r,
        Err(_) => panic!("album line must match"),
    };
    assert_eq!(reference.kind, ResourceKind::Album);

    // Reference -> deduplicated track set, via the engine.
    let mut engine = ResolutionEngine::new(vec![reference]);
    let req = engine.take_request().unwrap();
    assert_eq!(req.kind, ResourceKind::Album);
    assert!(req.id.same_as(&id(album_id)));
    engine.on_members(&vec![track1.id.duplicate(), track2.id.duplicate()]);
    assert!(engine.take_request().is_none());
    let (set, warnings) = engine.into_results();
    assert!(warnings.is_empty());
    let track_ids = set.into_items();
    assert_eq!(track_ids.len(), 2);

    // Per track: format selection, then the metadata rewrite.
    let catalog = [&track1, &track2, &track2_alt];
    let priority = vec![OGG_VORBIS_320, OGG_VORBIS_160, OGG_VORBIS_96];
    let mut outputs: Vec<(String, bool)> = Vec::new();
    for track_id in &track_ids {
        let mut walk = FormatResolver::new(track_id.duplicate(), priority.clone());
        let mut serving: Option<(TrackRecord, FileId)> = None;
        while let Some(wanted) = walk.next_request() {
            let rec = catalog
                .iter()
                .find(|r| r.id.same_as(&wanted))
                .expect("the synthetic catalog is closed");
            if let Some(f) = walk.on_record(rec) {
                let rec_copy = record_copy(rec);
                serving = Some((rec_copy, f));
                break;
            }
        }
        let (serving_rec, file_id) = serving.expect("both tracks must resolve");
        assert!(!file_id.bytes.is_empty());

        let container = blank_container();
        let tagged = track_add_metadata_tags(&container, &serving_rec).unwrap();
        let packets = rippify::rewrite::read_all_packets(&tagged).unwrap();
        let comments = parse_comment_header(&packets[1].payload).unwrap();
        let substituted = !serving_rec.id.same_as(track_id);
        outputs.push((title_of(&tagged, &comments.entries), substituted));
    }

    assert_eq!(outputs.len(), 2);
    let direct = outputs.iter().find(|(_, substituted)| !substituted).unwrap();
    let fallback = outputs.iter().find(|(_, substituted)| *substituted).unwrap();
    assert_eq!(direct.0, "Track One");
    // The second container is authored from the alternative record's
    // metadata, not the originally requested track's.
    assert_eq!(fallback.0, "Track Two (alternate)");
}

fn record_copy(r: &TrackRecord) -> TrackRecord {
    TrackRecord {
        id: r.id.duplicate(),
        name: r.name.clone(),
        album_name: r.album_name.clone(),
        artist_names: r.artist_names.clone(),
        encodings: r
            .encodings
            .iter()
            .map(|e| Encoding { tag: e.tag, file: e.file.duplicate() })
            .collect(),
        alternatives: r.alternatives.iter().map(|a| a.duplicate()).collect(),
    }
}

#[test]
fn rewritten_container_carries_all_artists() {
    let track = record(
        "t1000000000000000000001",
        "Track One",
        vec![Encoding { tag: OGG_VORBIS_320, file: FileId { bytes: b"f".to_vec() } }],
        vec![],
    );
    let tagged = track_add_metadata_tags(&blank_container(), &track).unwrap();
    let packets = rippify::rewrite::read_all_packets(&tagged).unwrap();
    let comments = parse_comment_header(&packets[1].payload).unwrap();
    assert_eq!(comments.vendor, b"Ogg".to_vec());
    let artists: Vec<Vec<u8>> = comments
        .entries
        .iter()
        .filter(|e| e.key == b"artist".to_vec())
        .map(|e| e.value.clone())
        .collect();
    assert_eq!(artists, vec![b"First Artist".to_vec(), b"Second Artist".to_vec()]);
}
