use rippify::comment::{make_comment_header, parse_comment_header, CommentBlock, CommentEntry};
use rippify::packets::{OggPacket, RewriteError};
use rippify::rewrite::{read_all_packets, replace_header_comment, write_all_packets};

fn entry(key: &str, value: &str) -> CommentEntry {
    CommentEntry { key: key.as_bytes().to_vec(), value: value.as_bytes().to_vec() }
}

fn packet(payload: Vec<u8>, last_in_page: bool, last_in_stream: bool, absgp: u64) -> OggPacket {
    OggPacket { payload, serial: 0x5370_7466, last_in_page, last_in_stream, absgp }
}

/// An identification-header-like payload: recognizably not a comment.
fn ident_payload() -> Vec<u8> {
    let mut p = vec![0x01];
    p.extend(b"vorbis");
    p.extend([0u8; 23]);
    p
}

fn audio_payload(seed: u8) -> Vec<u8> {
    (0..40u8).map(|i| i.wrapping_mul(7).wrapping_add(seed)).collect()
}

/// A ten-packet container whose second packet is a comment header with
/// three entries.
fn build_container() -> Vec<u8> {
    let old_comments = CommentBlock {
        vendor: "old vendor".as_bytes().to_vec(),
        entries: vec![entry("title", "Old"), entry("album", "Older"), entry("artist", "Oldest")],
    };
    let comment_payload = make_comment_header(&old_comments).unwrap();
    let mut packets = vec![
        packet(ident_payload(), true, false, 0),
        packet(comment_payload, true, false, 0),
    ];
    for i in 0..7u8 {
        packets.push(packet(audio_payload(i), false, false, 4200));
    }
    packets.push(packet(audio_payload(99), false, true, 4200));
    write_all_packets(packets)
}

fn new_comments() -> CommentBlock {
    CommentBlock {
        vendor: "Ogg".as_bytes().to_vec(),
        entries: vec![entry("title", "New"), entry("album", "Newer"), entry("artist", "Newest")],
    }
}

#[test]
fn rewrite_round_trip_preserves_stream() {
    let container = build_container();
    let original = read_all_packets(&container).unwrap();
    assert_eq!(original.len(), 10);

    let out = replace_header_comment(&container, &new_comments()).unwrap();
    let rewritten = read_all_packets(&out).unwrap();

    assert_eq!(rewritten.len(), 10);
    for i in 0..10 {
        assert_eq!(rewritten[i].serial, original[i].serial, "serial of packet {}", i);
        assert_eq!(
            rewritten[i].last_in_page, original[i].last_in_page,
            "page boundary of packet {}",
            i
        );
        assert_eq!(
            rewritten[i].last_in_stream, original[i].last_in_stream,
            "stream boundary of packet {}",
            i
        );
        assert_eq!(rewritten[i].absgp, original[i].absgp, "granule position of packet {}", i);
        if i != 1 {
            assert_eq!(rewritten[i].payload, original[i].payload, "payload of packet {}", i);
        }
    }

    let parsed = parse_comment_header(&rewritten[1].payload).expect("new comment must parse");
    assert_eq!(parsed.vendor, b"Ogg".to_vec());
    assert_eq!(parsed.entries.len(), 3);
    assert_eq!(parsed.entries[0].key, b"title".to_vec());
    assert_eq!(parsed.entries[0].value, b"New".to_vec());
    assert_eq!(parsed.entries[1].key, b"album".to_vec());
    assert_eq!(parsed.entries[1].value, b"Newer".to_vec());
    assert_eq!(parsed.entries[2].key, b"artist".to_vec());
    assert_eq!(parsed.entries[2].value, b"Newest".to_vec());
}

#[test]
fn rewrite_replaces_only_first_comment_packet() {
    // Two packets parse as comment headers; only the first is replaced.
    let c1 = make_comment_header(&CommentBlock {
        vendor: b"one".to_vec(),
        entries: vec![entry("n", "1")],
    })
    .unwrap();
    let c2 = make_comment_header(&CommentBlock {
        vendor: b"two".to_vec(),
        entries: vec![entry("n", "2")],
    })
    .unwrap();
    let container = write_all_packets(vec![
        packet(c1, true, false, 0),
        packet(c2.clone(), false, true, 0),
    ]);
    let out = replace_header_comment(&container, &new_comments()).unwrap();
    let rewritten = read_all_packets(&out).unwrap();
    assert_eq!(rewritten.len(), 2);
    let first = parse_comment_header(&rewritten[0].payload).unwrap();
    assert_eq!(first.vendor, b"Ogg".to_vec());
    assert_eq!(rewritten[1].payload, c2);
}

#[test]
fn missing_comment_header_is_an_error() {
    // No packet recognizable as a comment header: a hard failure, not a
    // best-effort insertion.
    let container = write_all_packets(vec![
        packet(ident_payload(), true, false, 0),
        packet(audio_payload(1), false, false, 100),
        packet(audio_payload(2), false, true, 100),
    ]);
    let r = replace_header_comment(&container, &new_comments());
    assert_eq!(r.unwrap_err(), RewriteError::InvalidCommentHeader);
}

#[test]
fn empty_container_is_a_read_error() {
    let r = replace_header_comment(&Vec::new(), &new_comments());
    assert_eq!(r.unwrap_err(), RewriteError::PacketRead);
}

#[test]
fn corrupted_page_is_a_read_error() {
    let mut container = build_container();
    let last = container.len() - 1;
    container[last] ^= 0xff; // breaks the final page's checksum
    let r = replace_header_comment(&container, &new_comments());
    assert_eq!(r.unwrap_err(), RewriteError::PacketRead);
}
