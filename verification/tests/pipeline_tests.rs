use asn_tools::codec::{load, store};
use asn_tools::ingest::{normalize_and_build, parse_records, BuildError};
use asn_tools::parse::{Field, TsvRecord};

fn ip(a: u32, b: u32, c: u32, d: u32) -> u32 {
    (a << 24) | (b << 16) | (c << 8) | d
}

fn record(start: &str, end: &str, asn: &str, country: &str, owner: &str) -> TsvRecord {
    TsvRecord {
        range_start: start.to_string(),
        range_end: end.to_string(),
        as_number: asn.to_string(),
        country: country.to_string(),
        owner: owner.to_string(),
    }
}

#[test]
fn builds_a_queryable_index_from_records() {
    let records = vec![
        record("8.8.8.0", "8.8.9.255", "15169", "US", "GOOGLE"),
        record("1.0.0.0", "1.0.0.255", "13335", "US", "CLOUDFLARENET"),
    ];
    let index = normalize_and_build(&records, 8).expect("well-formed dataset builds");
    assert_eq!(index.len(), 2);
    let hit = index.lookup(ip(1, 0, 0, 42)).expect("covered address");
    assert_eq!(hit.as_number, 13335);
    assert_eq!(hit.owner, "CLOUDFLARENET");
    assert!(index.lookup(ip(1, 0, 1, 1)).is_none());
}

#[test]
fn sentinel_owner_contributes_no_blocks() {
    let records = vec![
        record("1.0.0.0", "1.0.0.255", "13335", "US", "CLOUDFLARENET"),
        record("2.0.0.0", "2.0.0.255", "0", "None", "None"),
        record("3.0.0.0", "3.0.0.255", "0", "None", "Not routed"),
    ];
    let index = normalize_and_build(&records, 8).expect("dataset builds");
    assert_eq!(index.len(), 1);
    assert_eq!(index.get(0).owner, "CLOUDFLARENET");
    assert!(index.lookup(ip(2, 0, 0, 1)).is_none());
    assert!(index.lookup(ip(3, 0, 0, 1)).is_none());
}

#[test]
fn first_malformed_record_aborts_the_build() {
    let records = vec![
        record("1.0.0.0", "1.0.0.255", "13335", "US", "CLOUDFLARENET"),
        record("8.8.8.0", "8.8.9.255", "googol", "US", "GOOGLE"),
        record("9.9.9.0", "bad", "64496", "ZZ", "EXAMPLE"),
    ];
    let BuildError::Parse(err) =
        normalize_and_build(&records, 8).expect_err("malformed dataset is rejected");
    assert_eq!(err.field, Field::AsNumber);
    assert_eq!(err.value, "googol");
}

#[test]
fn parse_records_collects_all_ranges() {
    let records = vec![
        record("1.0.0.0", "1.0.0.255", "13335", "US", "CLOUDFLARENET"),
        record("8.8.8.0", "8.8.9.255", "15169", "US", "GOOGLE"),
    ];
    let ranges = parse_records(&records).expect("both records parse");
    assert_eq!(ranges.len(), 2);
    assert_eq!(ranges[0].start, ip(1, 0, 0, 0));
    assert_eq!(ranges[1].end, ip(8, 8, 9, 255));
}

#[test]
fn built_index_survives_store_and_load() {
    let records = vec![
        record("1.0.0.0", "1.0.0.255", "13335", "US", "CLOUDFLARENET"),
        record("8.8.8.0", "8.8.9.255", "15169", "US", "GOOGLE"),
        record("10.0.0.3", "10.0.0.10", "64496", "ZZ", "EXAMPLE"),
    ];
    let index = normalize_and_build(&records, 8).expect("dataset builds");
    let loaded = load(&store(&index)).expect("stored index loads");
    assert_eq!(loaded.len(), index.len());
    for k in 0..index.len() {
        let a = index.get(k);
        let b = loaded.get(k);
        assert_eq!(a.ip, b.ip);
        assert_eq!(a.prefix_len, b.prefix_len);
        assert_eq!(a.as_number, b.as_number);
        assert_eq!(a.country, b.country);
        assert_eq!(a.owner, b.owner);
    }
    let hit = loaded.lookup(ip(10, 0, 0, 7)).expect("covered address");
    assert_eq!(hit.as_number, 64496);
}
