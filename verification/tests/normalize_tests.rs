use asn_tools::block::RawRange;
use asn_tools::normalize::normalize;

fn ip(a: u32, b: u32, c: u32, d: u32) -> u32 {
    (a << 24) | (b << 16) | (c << 8) | d
}

fn range(start: u32, end: u32, as_number: u32, country: &str, owner: &str) -> RawRange {
    RawRange {
        start,
        end,
        as_number,
        country: country.to_string(),
        owner: owner.to_string(),
    }
}

#[test]
fn cloudflare_slash_24_single_block() {
    let r = range(ip(1, 0, 0, 0), ip(1, 0, 0, 255), 13335, "US", "CLOUDFLARENET");
    let blocks = normalize(&r, 8);
    assert_eq!(blocks.len(), 1);
    assert_eq!(blocks[0].ip, ip(1, 0, 0, 0));
    assert_eq!(blocks[0].prefix_len, 24);
    assert_eq!(blocks[0].as_number, 13335);
    assert_eq!(blocks[0].country, "US");
    assert_eq!(blocks[0].owner, "CLOUDFLARENET");
}

#[test]
fn aligned_slash_23_single_block() {
    // 8.8.8.0-8.8.9.255 is already /23-aligned: the greedy strategy picks
    // the largest valid prefix and emits exactly one block.
    let r = range(ip(8, 8, 8, 0), ip(8, 8, 9, 255), 15169, "US", "GOOGLE");
    let blocks = normalize(&r, 8);
    assert_eq!(blocks.len(), 1);
    assert_eq!(blocks[0].ip, ip(8, 8, 8, 0));
    assert_eq!(blocks[0].prefix_len, 23);
}

#[test]
fn unaligned_range_decomposes_minimally() {
    // 10.0.0.3-10.0.0.10 needs /32 + /30 + /31 + /32.
    let r = range(ip(10, 0, 0, 3), ip(10, 0, 0, 10), 64496, "ZZ", "EXAMPLE");
    let blocks = normalize(&r, 8);
    let got: Vec<(u32, u8)> = blocks.iter().map(|b| (b.ip, b.prefix_len)).collect();
    assert_eq!(
        got,
        vec![
            (ip(10, 0, 0, 3), 32),
            (ip(10, 0, 0, 4), 30),
            (ip(10, 0, 0, 8), 31),
            (ip(10, 0, 0, 10), 32),
        ]
    );
}

#[test]
fn emitted_blocks_cover_exactly_the_range() {
    let start = ip(192, 168, 1, 7);
    let end = ip(192, 168, 3, 42);
    let r = range(start, end, 64497, "ZZ", "EXAMPLE");
    let blocks = normalize(&r, 8);
    // Contiguous cover: first block starts at the range start, each block
    // starts one past the previous block's end, the last ends at the range
    // end.
    let mut expected_next = start as u64;
    for b in blocks.iter() {
        assert_eq!(b.ip as u64, expected_next);
        let size = 1u64 << (32 - b.prefix_len as u64);
        assert_eq!(b.ip as u64 % size, 0, "block is CIDR-aligned");
        expected_next = b.ip as u64 + size;
    }
    assert_eq!(expected_next, end as u64 + 1);
}

#[test]
fn minimum_prefix_floor_bounds_block_size() {
    // Two full /8 networks with a /8 floor: exactly two blocks.
    let r = range(ip(10, 0, 0, 0), ip(11, 255, 255, 255), 64498, "ZZ", "EXAMPLE");
    let blocks = normalize(&r, 8);
    let got: Vec<(u32, u8)> = blocks.iter().map(|b| (b.ip, b.prefix_len)).collect();
    assert_eq!(got, vec![(ip(10, 0, 0, 0), 8), (ip(11, 0, 0, 0), 8)]);
}

#[test]
fn whole_address_space_with_floor() {
    // The floor keeps the block count bounded: 256 blocks of /8.
    let r = range(0, u32::MAX, 64499, "ZZ", "EXAMPLE");
    let blocks = normalize(&r, 8);
    assert_eq!(blocks.len(), 256);
    assert_eq!(blocks[0].ip, 0);
    assert_eq!(blocks[255].ip, ip(255, 0, 0, 0));
    assert!(blocks.iter().all(|b| b.prefix_len == 8));
}

#[test]
fn inverted_range_yields_nothing() {
    let r = range(ip(2, 0, 0, 0), ip(1, 0, 0, 0), 64500, "ZZ", "EXAMPLE");
    let blocks = normalize(&r, 8);
    assert_eq!(blocks.len(), 0);
}

#[test]
fn single_address_range() {
    let r = range(ip(9, 9, 9, 9), ip(9, 9, 9, 9), 64501, "ZZ", "EXAMPLE");
    let blocks = normalize(&r, 8);
    assert_eq!(blocks.len(), 1);
    assert_eq!(blocks[0].ip, ip(9, 9, 9, 9));
    assert_eq!(blocks[0].prefix_len, 32);
}

#[test]
fn normalizing_twice_gives_identical_blocks() {
    let r = range(ip(172, 16, 0, 5), ip(172, 16, 9, 200), 64502, "ZZ", "EXAMPLE");
    let first = normalize(&r, 8);
    let second = normalize(&r, 8);
    assert_eq!(first.len(), second.len());
    for (a, b) in first.iter().zip(second.iter()) {
        assert_eq!(a.ip, b.ip);
        assert_eq!(a.prefix_len, b.prefix_len);
        assert_eq!(a.as_number, b.as_number);
        assert_eq!(a.country, b.country);
        assert_eq!(a.owner, b.owner);
    }
}
