use rippify::formats::{
    choose_encoding, Encoding, EncodingTag, FileId, FormatResolver, TrackRecord,
};
use rippify::ids::CatalogId;

const OGG_VORBIS_320: EncodingTag = EncodingTag { code: 2 };
const OGG_VORBIS_160: EncodingTag = EncodingTag { code: 1 };
const OGG_VORBIS_96: EncodingTag = EncodingTag { code: 0 };
const MP3_256: EncodingTag = EncodingTag { code: 10 };

fn id(s: &str) -> CatalogId {
    CatalogId::new(s.as_bytes().to_vec())
}

fn file(s: &str) -> FileId {
    FileId { bytes: s.as_bytes().to_vec() }
}

fn priority() -> Vec<EncodingTag> {
    vec![OGG_VORBIS_320, OGG_VORBIS_160, OGG_VORBIS_96]
}

fn record(id_s: &str, encodings: Vec<Encoding>, alternatives: Vec<CatalogId>) -> TrackRecord {
    TrackRecord {
        id: id(id_s),
        name: format!("name of {}", id_s).into_bytes(),
        album_name: b"album".to_vec(),
        artist_names: vec![b"artist".to_vec()],
        encodings,
        alternatives,
    }
}

#[test]
fn selection_is_by_fixed_priority_order() {
    // The first tag of the priority list present wins, not the best
    // available: a 160 entry beats a 320 entry when 320 is absent.
    let rec = record(
        "t1",
        vec![
            Encoding { tag: MP3_256, file: file("mp3") },
            Encoding { tag: OGG_VORBIS_96, file: file("low") },
            Encoding { tag: OGG_VORBIS_160, file: file("mid") },
        ],
        vec![],
    );
    let f = choose_encoding(&rec, &priority()).unwrap();
    assert_eq!(f.bytes, b"mid".to_vec());
}

#[test]
fn highest_priority_wins_when_present() {
    let rec = record(
        "t1",
        vec![
            Encoding { tag: OGG_VORBIS_96, file: file("low") },
            Encoding { tag: OGG_VORBIS_320, file: file("high") },
        ],
        vec![],
    );
    let f = choose_encoding(&rec, &priority()).unwrap();
    assert_eq!(f.bytes, b"high".to_vec());
}

#[test]
fn no_listed_encoding_selects_nothing() {
    let rec = record("t1", vec![Encoding { tag: MP3_256, file: file("mp3") }], vec![]);
    assert!(choose_encoding(&rec, &priority()).is_none());
}

#[test]
fn fallback_substitutes_first_alternative() {
    // The requested record offers nothing acceptable; its first
    // alternative does. The walk must hand out the alternative and answer
    // with the alternative's file — and the caller can see that the
    // serving record differs from the requested one.
    let requested = record("t-requested0000000000A", vec![], vec![id("t-alternate0000000000A")]);
    let alternate = record(
        "t-alternate0000000000A",
        vec![Encoding { tag: OGG_VORBIS_320, file: file("alt-file") }],
        vec![],
    );

    let mut walk = FormatResolver::new(id("t-requested0000000000A"), priority());
    let first = walk.next_request().unwrap();
    assert!(first.same_as(&requested.id));
    assert!(walk.on_record(&requested).is_none());

    let second = walk.next_request().unwrap();
    assert!(second.same_as(&alternate.id));
    assert!(!second.same_as(&requested.id), "substitution must be visible");
    let f = walk.on_record(&alternate).unwrap();
    assert_eq!(f.bytes, b"alt-file".to_vec());
}

#[test]
fn cyclic_alternatives_terminate() {
    // A's alternatives point at B and B's at A; neither offers an
    // acceptable encoding. The walk must end with exhaustion, not loop.
    let a = record("t-cycle-a-000000000000", vec![], vec![id("t-cycle-b-000000000000")]);
    let b = record("t-cycle-b-000000000000", vec![], vec![id("t-cycle-a-000000000000")]);

    let mut walk = FormatResolver::new(id("t-cycle-a-000000000000"), priority());
    let mut fetches = 0;
    loop {
        match walk.next_request() {
            None => break,
            Some(req) => {
                fetches += 1;
                assert!(fetches <= 2, "the walk revisited an identifier");
                let rec = if req.same_as(&a.id) { &a } else { &b };
                assert!(walk.on_record(rec).is_none());
            },
        }
    }
    assert_eq!(fetches, 2);
}

#[test]
fn queue_is_breadth_first() {
    // Alternatives of the requested track are tried before alternatives
    // of alternatives.
    let start = record("s000000000000000000000", vec![], vec![id("x1"), id("x2")]);
    let x1 = record("x1", vec![], vec![id("y1")]);
    let x2 = record("x2", vec![Encoding { tag: OGG_VORBIS_96, file: file("x2-file") }], vec![]);

    let mut walk = FormatResolver::new(id("s000000000000000000000"), priority());
    assert!(walk.next_request().unwrap().same_as(&start.id));
    assert!(walk.on_record(&start).is_none());
    assert!(walk.next_request().unwrap().same_as(&x1.id));
    assert!(walk.on_record(&x1).is_none());
    assert!(walk.next_request().unwrap().same_as(&x2.id));
    let f = walk.on_record(&x2).unwrap();
    assert_eq!(f.bytes, b"x2-file".to_vec());
}

#[test]
fn visited_request_not_repeated() {
    // The requested track lists itself; the walk discards the revisit.
    let selfish = record("t-selfish0000000000000", vec![], vec![id("t-selfish0000000000000")]);
    let mut walk = FormatResolver::new(id("t-selfish0000000000000"), priority());
    assert!(walk.next_request().is_some());
    assert!(walk.on_record(&selfish).is_none());
    assert!(walk.next_request().is_none());
}
