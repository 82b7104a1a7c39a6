use rippify::comment::{make_comment_header, parse_comment_header, CommentBlock, CommentEntry};

fn entry(key: &str, value: &str) -> CommentEntry {
    CommentEntry { key: key.as_bytes().to_vec(), value: value.as_bytes().to_vec() }
}

fn block(vendor: &str, entries: Vec<CommentEntry>) -> CommentBlock {
    CommentBlock { vendor: vendor.as_bytes().to_vec(), entries }
}

#[test]
fn serializer_exact_bytes() {
    // Layout check against a hand-computed byte string: signature, then
    // length-prefixed vendor, entry count, length-prefixed "key=value"
    // entries, and the framing byte.
    let c = block("Xy", vec![entry("a", "b")]);
    let bytes = make_comment_header(&c).unwrap();
    let expected: Vec<u8> = vec![
        0x03, 0x76, 0x6f, 0x72, 0x62, 0x69, 0x73, // '\x03' "vorbis"
        2, 0, 0, 0, // vendor length
        0x58, 0x79, // "Xy"
        1, 0, 0, 0, // one entry
        3, 0, 0, 0, // entry length
        0x61, 0x3d, 0x62, // "a=b"
        1, // framing byte
    ];
    assert_eq!(bytes, expected);
}

#[test]
fn serializer_empty_block() {
    let c = block("", vec![]);
    let bytes = make_comment_header(&c).unwrap();
    let expected: Vec<u8> = vec![
        0x03, 0x76, 0x6f, 0x72, 0x62, 0x69, 0x73, 0, 0, 0, 0, 0, 0, 0, 0, 1,
    ];
    assert_eq!(bytes, expected);
}

#[test]
fn round_trip_preserves_entries() {
    let c = block(
        "test vendor",
        vec![
            entry("title", "Some Song"),
            entry("artist", "First Artist"),
            entry("artist", "Second Artist"),
            entry("album", "An Album"),
        ],
    );
    let bytes = make_comment_header(&c).unwrap();
    let parsed = parse_comment_header(&bytes).expect("serialized block must parse");
    assert_eq!(parsed.vendor, c.vendor);
    assert_eq!(parsed.entries.len(), c.entries.len());
    for (p, o) in parsed.entries.iter().zip(c.entries.iter()) {
        assert_eq!(p.key, o.key);
        assert_eq!(p.value, o.value);
    }
}

#[test]
fn repeated_keys_kept_in_order() {
    let c = block("v", vec![entry("artist", "A"), entry("artist", "B")]);
    let bytes = make_comment_header(&c).unwrap();
    let parsed = parse_comment_header(&bytes).unwrap();
    assert_eq!(parsed.entries[0].value, b"A".to_vec());
    assert_eq!(parsed.entries[1].value, b"B".to_vec());
}

#[test]
fn lewton_reads_our_serialization() {
    // Cross-check against an independent reader of the same layout.
    let c = block("Ogg", vec![entry("title", "T"), entry("album", "L"), entry("artist", "A")]);
    let bytes = make_comment_header(&c).unwrap();
    let hdr = lewton::header::read_header_comment(&bytes).expect("lewton must accept the bytes");
    assert_eq!(hdr.vendor, "Ogg");
    assert_eq!(
        hdr.comment_list,
        vec![
            ("title".to_string(), "T".to_string()),
            ("album".to_string(), "L".to_string()),
            ("artist".to_string(), "A".to_string()),
        ]
    );
}

#[test]
fn parser_rejects_bad_signature() {
    let c = block("v", vec![entry("a", "b")]);
    let mut bytes = make_comment_header(&c).unwrap();
    bytes[0] = 1; // an ident-header type byte, not a comment header
    assert!(parse_comment_header(&bytes).is_none());
}

#[test]
fn parser_rejects_truncation() {
    let c = block("vendor", vec![entry("a", "b")]);
    let bytes = make_comment_header(&c).unwrap();
    for cut in [1, 7, 10, bytes.len() - 1] {
        let shorter = bytes[..cut].to_vec();
        assert!(parse_comment_header(&shorter).is_none(), "cut at {}", cut);
    }
}

#[test]
fn parser_requires_framing_byte() {
    let c = block("v", vec![]);
    let mut bytes = make_comment_header(&c).unwrap();
    let last = bytes.len() - 1;
    bytes[last] = 0;
    assert!(parse_comment_header(&bytes).is_none());
}

#[test]
fn parser_skips_entry_without_separator() {
    // An entry without '=' carries no tag: the surrounding block still
    // parses and the entry is dropped, as tolerant readers do.
    let mut bytes: Vec<u8> = vec![0x03, 0x76, 0x6f, 0x72, 0x62, 0x69, 0x73];
    bytes.extend([0, 0, 0, 0]); // empty vendor
    bytes.extend([2, 0, 0, 0]); // two entries
    bytes.extend([3, 0, 0, 0]);
    bytes.extend(b"abc"); // no '='
    bytes.extend([3, 0, 0, 0]);
    bytes.extend(b"a=b");
    bytes.push(1);
    let parsed = parse_comment_header(&bytes).unwrap();
    assert_eq!(parsed.entries.len(), 1);
    assert_eq!(parsed.entries[0].key, b"a".to_vec());
    assert_eq!(parsed.entries[0].value, b"b".to_vec());
}

#[test]
fn value_may_contain_separator() {
    let c = block("v", vec![entry("k", "x=y")]);
    let bytes = make_comment_header(&c).unwrap();
    let parsed = parse_comment_header(&bytes).unwrap();
    assert_eq!(parsed.entries[0].key, b"k".to_vec());
    assert_eq!(parsed.entries[0].value, b"x=y".to_vec());
}
