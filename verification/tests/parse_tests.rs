use asn_tools::parse::{
    owner_is_sentinel, parse_ipv4, parse_record, parse_u32, Field, TsvRecord,
};

fn ip(a: u32, b: u32, c: u32, d: u32) -> u32 {
    (a << 24) | (b << 16) | (c << 8) | d
}

fn record(start: &str, end: &str, asn: &str, country: &str, owner: &str) -> TsvRecord {
    TsvRecord {
        range_start: start.to_string(),
        range_end: end.to_string(),
        as_number: asn.to_string(),
        country: country.to_string(),
        owner: owner.to_string(),
    }
}

#[test]
fn parses_dotted_quads() {
    assert_eq!(parse_ipv4("1.0.0.0"), Some(ip(1, 0, 0, 0)));
    assert_eq!(parse_ipv4("8.8.9.255"), Some(ip(8, 8, 9, 255)));
    assert_eq!(parse_ipv4("0.0.0.0"), Some(0));
    assert_eq!(parse_ipv4("255.255.255.255"), Some(u32::MAX));
}

#[test]
fn rejects_malformed_addresses() {
    assert_eq!(parse_ipv4(""), None);
    assert_eq!(parse_ipv4("1.2.3"), None);
    assert_eq!(parse_ipv4("1.2.3.4.5"), None);
    assert_eq!(parse_ipv4("256.0.0.1"), None);
    assert_eq!(parse_ipv4("1.2.3.256"), None);
    assert_eq!(parse_ipv4("01.2.3.4"), None);
    assert_eq!(parse_ipv4("1.2.3.04"), None);
    assert_eq!(parse_ipv4("1..3.4"), None);
    assert_eq!(parse_ipv4("1.2.3."), None);
    assert_eq!(parse_ipv4(".2.3.4"), None);
    assert_eq!(parse_ipv4("a.b.c.d"), None);
    assert_eq!(parse_ipv4("1.2.3.4 "), None);
    assert_eq!(parse_ipv4("1234.2.3.4"), None);
}

#[test]
fn parses_decimal_as_numbers() {
    assert_eq!(parse_u32("0"), Some(0));
    assert_eq!(parse_u32("13335"), Some(13335));
    assert_eq!(parse_u32("4294967295"), Some(u32::MAX));
    assert_eq!(parse_u32("007"), Some(7));
}

#[test]
fn rejects_malformed_as_numbers() {
    assert_eq!(parse_u32(""), None);
    assert_eq!(parse_u32("-1"), None);
    assert_eq!(parse_u32("+7"), None);
    assert_eq!(parse_u32("13 335"), None);
    assert_eq!(parse_u32("4294967296"), None);
    assert_eq!(parse_u32("99999999999999999999"), None);
    assert_eq!(parse_u32("12x"), None);
}

#[test]
fn parse_record_yields_the_range() {
    let rec = record("1.0.0.0", "1.0.0.255", "13335", "US", "CLOUDFLARENET");
    let range = parse_record(&rec).expect("well-formed record parses");
    assert_eq!(range.start, ip(1, 0, 0, 0));
    assert_eq!(range.end, ip(1, 0, 0, 255));
    assert_eq!(range.as_number, 13335);
    assert_eq!(range.country, "US");
    assert_eq!(range.owner, "CLOUDFLARENET");
}

#[test]
fn parse_record_names_the_bad_start_field() {
    let rec = record("1.0.0.x", "1.0.0.255", "13335", "US", "CLOUDFLARENET");
    let err = parse_record(&rec).expect_err("bad start address");
    assert_eq!(err.field, Field::RangeStart);
    assert_eq!(err.value, "1.0.0.x");
}

#[test]
fn parse_record_names_the_bad_end_field() {
    let rec = record("1.0.0.0", "1.0.0.999", "13335", "US", "CLOUDFLARENET");
    let err = parse_record(&rec).expect_err("bad end address");
    assert_eq!(err.field, Field::RangeEnd);
    assert_eq!(err.value, "1.0.0.999");
}

#[test]
fn parse_record_names_the_bad_as_number_field() {
    let rec = record("1.0.0.0", "1.0.0.255", "AS13335", "US", "CLOUDFLARENET");
    let err = parse_record(&rec).expect_err("bad AS number");
    assert_eq!(err.field, Field::AsNumber);
    assert_eq!(err.value, "AS13335");
}

#[test]
fn parse_record_reports_the_first_bad_field() {
    let rec = record("bad", "also bad", "nope", "US", "CLOUDFLARENET");
    let err = parse_record(&rec).expect_err("everything is bad");
    assert_eq!(err.field, Field::RangeStart);
}

#[test]
fn sentinel_owners_are_recognised() {
    assert!(owner_is_sentinel(&"Not routed".to_string()));
    assert!(owner_is_sentinel(&"None".to_string()));
    assert!(!owner_is_sentinel(&"CLOUDFLARENET".to_string()));
    assert!(!owner_is_sentinel(&"none".to_string()));
    assert!(!owner_is_sentinel(&"".to_string()));
}
