use asn_tools::block::Block;
use asn_tools::codec::{load, store, CodecError};
use asn_tools::index::build;

fn ip(a: u32, b: u32, c: u32, d: u32) -> u32 {
    (a << 24) | (b << 16) | (c << 8) | d
}

fn block(ip: u32, prefix_len: u8, as_number: u32, country: &str, owner: &str) -> Block {
    Block {
        ip,
        prefix_len,
        as_number,
        country: country.to_string(),
        owner: owner.to_string(),
    }
}

#[test]
fn round_trip_preserves_every_field() {
    let index = build(vec![
        block(ip(8, 8, 8, 0), 23, 15169, "US", "GOOGLE"),
        block(ip(1, 0, 0, 0), 24, 13335, "US", "CLOUDFLARENET"),
        block(ip(200, 0, 0, 0), 16, 64496, "BR", "EXAMPLE LTDA"),
    ]);
    let bytes = store(&index);
    let loaded = load(&bytes).expect("stored stream loads");
    assert_eq!(loaded.len(), index.len());
    for k in 0..index.len() {
        let a = index.get(k);
        let b = loaded.get(k);
        assert_eq!(a.ip, b.ip);
        assert_eq!(a.prefix_len, b.prefix_len);
        assert_eq!(a.as_number, b.as_number);
        assert_eq!(a.country, b.country);
        assert_eq!(a.owner, b.owner);
    }
}

#[test]
fn round_trip_of_empty_index() {
    let index = build(Vec::new());
    let bytes = store(&index);
    let loaded = load(&bytes).expect("empty index loads");
    assert_eq!(loaded.len(), 0);
}

#[test]
fn round_trip_keeps_non_ascii_text() {
    let index = build(vec![block(ip(5, 0, 0, 0), 8, 64497, "DE", "Müller Straße ✓")]);
    let bytes = store(&index);
    let loaded = load(&bytes).expect("unicode owner loads");
    assert_eq!(loaded.get(0).owner, "Müller Straße ✓");
}

#[test]
fn load_rejects_empty_stream() {
    assert!(matches!(load(&Vec::new()), Err(CodecError::Truncated)));
}

#[test]
fn load_rejects_foreign_header() {
    let bytes = vec![b'P', b'K', 3, 4, 0, 0, 0, 0, 0, 0, 0, 0, 0];
    assert!(matches!(load(&bytes), Err(CodecError::BadHeader)));
}

#[test]
fn load_rejects_wrong_version() {
    let index = build(Vec::new());
    let mut bytes = store(&index);
    bytes[4] = 2;
    assert!(matches!(load(&bytes), Err(CodecError::BadHeader)));
}

#[test]
fn load_rejects_truncated_stream() {
    let index = build(vec![block(ip(1, 0, 0, 0), 24, 13335, "US", "CLOUDFLARENET")]);
    let bytes = store(&index);
    for cut in [3, 8, 14, bytes.len() - 1] {
        let shorter: Vec<u8> = bytes[..cut].to_vec();
        assert!(matches!(load(&shorter), Err(CodecError::Truncated)), "cut at {}", cut);
    }
}

#[test]
fn load_rejects_out_of_range_prefix() {
    let index = build(vec![block(ip(1, 0, 0, 0), 24, 13335, "US", "CLOUDFLARENET")]);
    let mut bytes = store(&index);
    // The prefix length sits right after the header, count, and base
    // address: 5 + 8 + 4 bytes in.
    bytes[17] = 33;
    assert!(matches!(load(&bytes), Err(CodecError::BadPrefixLen)));
}

#[test]
fn load_rejects_invalid_utf8_text() {
    let index = build(vec![block(ip(1, 0, 0, 0), 24, 13335, "US", "OWNER")]);
    let mut bytes = store(&index);
    // First byte of the country field: header (5) + count (8) + ip (4)
    // + prefix (1) + as number (4) + country length (8).
    bytes[30] = 0xFF;
    assert!(matches!(load(&bytes), Err(CodecError::BadText)));
}

#[test]
fn load_rejects_trailing_garbage() {
    let index = build(vec![block(ip(1, 0, 0, 0), 24, 13335, "US", "OWNER")]);
    let mut bytes = store(&index);
    bytes.push(0);
    assert!(matches!(load(&bytes), Err(CodecError::TrailingData)));
}

#[test]
fn loaded_index_answers_lookups() {
    let index = build(vec![
        block(ip(1, 0, 0, 0), 24, 13335, "US", "CLOUDFLARENET"),
        block(ip(8, 8, 8, 0), 23, 15169, "US", "GOOGLE"),
    ]);
    let loaded = load(&store(&index)).expect("loads");
    let hit = loaded.lookup(ip(8, 8, 9, 1)).expect("covered");
    assert_eq!(hit.as_number, 15169);
    assert!(loaded.lookup(ip(9, 0, 0, 0)).is_none());
}

#[test]
fn check_wf_rejects_a_reordered_cache() {
    // Two blocks whose encodings are 28 bytes each: swapping the two
    // segments after the 13-byte header yields a structurally valid
    // stream whose blocks are out of order.
    let index = build(vec![
        block(ip(1, 0, 0, 0), 24, 13335, "US", "A"),
        block(ip(8, 8, 8, 0), 23, 15169, "US", "B"),
    ]);
    assert!(index.check_wf());
    let bytes = store(&index);
    assert_eq!(bytes.len(), 13 + 28 + 28);
    let mut swapped: Vec<u8> = bytes[..13].to_vec();
    swapped.extend_from_slice(&bytes[41..69]);
    swapped.extend_from_slice(&bytes[13..41]);
    let reordered = load(&swapped).expect("still structurally valid");
    assert!(!reordered.check_wf());
    assert_eq!(reordered.get(0).ip, ip(8, 8, 8, 0));
    assert_eq!(reordered.get(1).ip, ip(1, 0, 0, 0));
}

#[test]
fn stored_form_has_the_documented_layout() {
    let index = build(vec![block(ip(1, 0, 0, 0), 24, 13335, "US", "A")]);
    let bytes = store(&index);
    assert_eq!(&bytes[..5], &[65, 83, 68, 66, 1]);
    assert_eq!(&bytes[5..13], &1u64.to_le_bytes());
    assert_eq!(&bytes[13..17], &ip(1, 0, 0, 0).to_le_bytes());
    assert_eq!(bytes[17], 24);
    assert_eq!(&bytes[18..22], &13335u32.to_le_bytes());
    assert_eq!(&bytes[22..30], &2u64.to_le_bytes());
    assert_eq!(&bytes[30..32], b"US");
    assert_eq!(&bytes[32..40], &1u64.to_le_bytes());
    assert_eq!(&bytes[40..41], b"A");
    assert_eq!(bytes.len(), 41);
}
