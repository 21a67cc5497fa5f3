use asn_tools::block::{Block, RawRange};
use asn_tools::index::{build, sort_dedup_addrs, Index};
use asn_tools::normalize::normalize;

fn ip(a: u32, b: u32, c: u32, d: u32) -> u32 {
    (a << 24) | (b << 16) | (c << 8) | d
}

fn block(ip: u32, prefix_len: u8, as_number: u32, owner: &str) -> Block {
    Block {
        ip,
        prefix_len,
        as_number,
        country: "ZZ".to_string(),
        owner: owner.to_string(),
    }
}

fn sample_index() -> Index {
    // Three disjoint networks with a gap between the second and third.
    build(vec![
        block(ip(8, 8, 8, 0), 23, 15169, "GOOGLE"),
        block(ip(1, 0, 0, 0), 24, 13335, "CLOUDFLARENET"),
        block(ip(200, 0, 0, 0), 16, 64496, "EXAMPLE"),
    ])
}

#[test]
fn build_sorts_by_base_address() {
    let index = sample_index();
    assert_eq!(index.len(), 3);
    assert_eq!(index.get(0).ip, ip(1, 0, 0, 0));
    assert_eq!(index.get(1).ip, ip(8, 8, 8, 0));
    assert_eq!(index.get(2).ip, ip(200, 0, 0, 0));
}

#[test]
fn lookup_hits_inside_each_block() {
    let index = sample_index();
    let hit = index.lookup(ip(1, 0, 0, 42)).expect("address is covered");
    assert_eq!(hit.as_number, 13335);
    assert_eq!(hit.owner, "CLOUDFLARENET");
    let hit = index.lookup(ip(8, 8, 9, 255)).expect("last address of /23");
    assert_eq!(hit.as_number, 15169);
    let hit = index.lookup(ip(200, 0, 255, 255)).expect("inside the /16");
    assert_eq!(hit.as_number, 64496);
}

#[test]
fn lookup_below_first_block_misses() {
    let index = sample_index();
    assert!(index.lookup(ip(0, 255, 255, 255)).is_none());
    assert!(index.lookup(0).is_none());
}

#[test]
fn lookup_above_last_block_misses() {
    let index = sample_index();
    assert!(index.lookup(ip(200, 1, 0, 0)).is_none());
    assert!(index.lookup(u32::MAX).is_none());
}

#[test]
fn lookup_in_gap_misses() {
    let index = sample_index();
    // Just past 1.0.0.0/24 and just before 8.8.8.0/23.
    assert!(index.lookup(ip(1, 0, 1, 1)).is_none());
    assert!(index.lookup(ip(8, 8, 7, 255)).is_none());
}

#[test]
fn lookup_matches_linear_scan() {
    let ranges = [
        (ip(10, 0, 0, 3), ip(10, 0, 0, 10)),
        (ip(10, 1, 0, 0), ip(10, 1, 255, 255)),
        (ip(172, 16, 0, 1), ip(172, 16, 0, 1)),
    ];
    let mut blocks = Vec::new();
    for (i, (start, end)) in ranges.iter().enumerate() {
        let r = RawRange {
            start: *start,
            end: *end,
            as_number: 64500 + i as u32,
            country: "ZZ".to_string(),
            owner: format!("OWNER{}", i),
        };
        blocks.extend(normalize(&r, 8));
    }
    let index = build(blocks);
    let probes = [
        ip(10, 0, 0, 2),
        ip(10, 0, 0, 3),
        ip(10, 0, 0, 10),
        ip(10, 0, 0, 11),
        ip(10, 1, 128, 9),
        ip(172, 16, 0, 0),
        ip(172, 16, 0, 1),
        ip(172, 16, 0, 2),
    ];
    for &addr in probes.iter() {
        // Scan the sorted blocks for the first one containing the address.
        let mut expected: Option<usize> = None;
        for k in 0..index.len() {
            let b = index.get(k);
            let size = 1u64 << (32 - b.prefix_len as u64);
            let end = b.ip as u64 + size - 1;
            if b.ip as u64 <= addr as u64 && addr as u64 <= end {
                expected = Some(k);
                break;
            }
        }
        match (index.lookup(addr), expected) {
            (Some(found), Some(k)) => {
                let b = index.get(k);
                assert_eq!(found.ip, b.ip);
                assert_eq!(found.prefix_len, b.prefix_len);
                assert_eq!(found.as_number, b.as_number);
            }
            (None, None) => {}
            (got, want) => panic!(
                "lookup disagrees with linear scan for {}: got {:?}, want index {:?}",
                addr,
                got.map(|b| b.ip),
                want
            ),
        }
    }
}

#[test]
fn empty_index_never_matches() {
    let index = build(Vec::new());
    assert_eq!(index.len(), 0);
    assert!(index.lookup(0).is_none());
    assert!(index.lookup(ip(127, 0, 0, 1)).is_none());
    assert!(index.lookup(u32::MAX).is_none());
}

#[test]
fn sort_dedup_orders_and_drops_duplicates() {
    let addrs = vec![
        ip(8, 8, 8, 8),
        ip(1, 1, 1, 1),
        ip(8, 8, 8, 8),
        ip(1, 1, 1, 1),
        ip(200, 0, 0, 1),
        ip(1, 1, 1, 1),
    ];
    let prepared = sort_dedup_addrs(&addrs);
    assert_eq!(prepared, vec![ip(1, 1, 1, 1), ip(8, 8, 8, 8), ip(200, 0, 0, 1)]);
}

#[test]
fn sort_dedup_of_empty_batch_is_empty() {
    let prepared = sort_dedup_addrs(&Vec::new());
    assert!(prepared.is_empty());
}

#[test]
fn check_wf_accepts_a_built_index() {
    assert!(sample_index().check_wf());
    assert!(build(Vec::new()).check_wf());
}
