//! Field parsing for ingested records: dotted-quad IPv4 addresses and
//! decimal AS numbers, with errors that identify the offending field.

use crate::block::{RawRange, RawRangeV};
use vstd::prelude::*;
use vstd::string::{StrSliceExecFns, StringExecFns};

verus! {

/// Whether a character is a decimal digit.
pub open spec fn is_digit(c: char) -> bool {
    48 <= c as u32 <= 57
}

/// The numeric value of a decimal digit.
pub open spec fn digit_val(c: char) -> int {
    c as u32 - 48
}

/// Whether every character of the sequence is a decimal digit.
pub open spec fn all_digits(s: Seq<char>) -> bool {
    forall|k: int| 0 <= k < s.len() ==> is_digit(#[trigger] s[k])
}

/// The integer a sequence of decimal digits denotes, most significant
/// digit first. The empty sequence denotes zero.
pub open spec fn digits_to_int(s: Seq<char>) -> int
    decreases s.len(),
{
    if s.len() == 0 {
        0
    } else {
        digits_to_int(s.drop_last()) * 10 + digit_val(s.last())
    }
}

/// A digit string's value is never negative.
pub proof fn lemma_digits_nonneg(s: Seq<char>)
    requires
        all_digits(s),
    ensures
        digits_to_int(s) >= 0,
    decreases s.len(),
{
    if s.len() > 0 {
        assert(all_digits(s.drop_last()));
        lemma_digits_nonneg(s.drop_last());
    }
}

/// A prefix of a digit string never denotes more than the whole string.
pub proof fn lemma_digits_prefix_le(s: Seq<char>, m: int)
    requires
        all_digits(s),
        0 <= m <= s.len(),
    ensures
        digits_to_int(s.take(m)) <= digits_to_int(s),
    decreases s.len() - m,
{
    if m < s.len() {
        lemma_digits_prefix_le(s, m + 1);
        let p = s.take(m);
        let q = s.take(m + 1);
        assert(q.drop_last() =~= p);
        assert(q.last() == s[m]);
        assert(all_digits(p));
        lemma_digits_nonneg(p);
        assert(digits_to_int(q) == digits_to_int(p) * 10 + digit_val(s[m]));
    } else {
        assert(s.take(m) =~= s);
    }
}

/// What a decimal unsigned-integer field denotes: its digits' value, if
/// the field is non-empty, all digits, and in range.
pub open spec fn spec_parse_u32(s: Seq<char>) -> Option<u32> {
    if s.len() > 0 && all_digits(s) && digits_to_int(s) <= u32::MAX {
        Some(digits_to_int(s) as u32)
    } else {
        None
    }
}

/// Parses a decimal unsigned-integer field: non-empty, digits only, value
/// at most `u32::MAX`.
pub fn parse_u32(s: &str) -> (r: Option<u32>)
    ensures
        r == spec_parse_u32(s@),
{
    let n = s.unicode_len();
    if n == 0 {
        return None;
    }
    let mut acc: u64 = 0;
    let mut i: usize = 0;
    while i < n
        invariant
            0 < n == s@.len(),
            i <= n,
            all_digits(s@.take(i as int)),
            acc == digits_to_int(s@.take(i as int)),
            acc <= u32::MAX,
        decreases n - i,
    {
        let c = s.get_char(i);
        let d = c as u32;
        if d < 48 || d > 57 {
            assert(!is_digit(s@[i as int]));
            return None;
        }
        let ghost pre = s@.take(i as int);
        let ghost cur = s@.take(i as int + 1);
        proof {
            assert(cur.drop_last() =~= pre);
            assert(cur.last() == s@[i as int]);
        }
        acc = acc * 10 + (d - 48) as u64;
        i = i + 1;
        assert(acc == digits_to_int(cur));
        if acc > 0xFFFF_FFFFu64 {
            proof {
                if all_digits(s@) {
                    lemma_digits_prefix_le(s@, i as int);
                }
            }
            return None;
        }
    }
    proof {
        assert(s@.take(n as int) =~= s@);
    }
    Some(acc as u32)
}

/// The position of the first `'.'` in the sequence, or its length when it
/// has none.
pub open spec fn first_dot(s: Seq<char>) -> int
    decreases s.len(),
{
    if s.len() == 0 {
        0
    } else if s[0] == '.' {
        0
    } else {
        1 + first_dot(s.drop_first())
    }
}

/// `first_dot` points at the first dot: nothing before it is a dot, and it
/// is a dot unless the sequence has none.
pub proof fn lemma_first_dot_props(s: Seq<char>)
    ensures
        0 <= first_dot(s) <= s.len(),
        first_dot(s) < s.len() ==> s[first_dot(s)] == '.',
        forall|j: int| 0 <= j < first_dot(s) ==> s[j] != '.',
    decreases s.len(),
{
    if s.len() > 0 && s[0] != '.' {
        let rest = s.drop_first();
        lemma_first_dot_props(rest);
        assert(forall|j: int| 0 <= j < rest.len() ==> rest[j] == s[j + 1]);
        assert forall|j: int| 0 <= j < first_dot(s) implies s[j] != '.' by {
            if j > 0 {
                assert(rest[j - 1] != '.');
            }
        }
    }
}

/// `first_dot` is `k` exactly when no dot precedes `k` and either `k` is a
/// dot or the whole sequence is dot-free.
pub proof fn lemma_first_dot_at(s: Seq<char>, k: int)
    requires
        0 <= k <= s.len(),
        forall|j: int| 0 <= j < k ==> s[j] != '.',
        k < s.len() ==> s[k] == '.',
    ensures
        first_dot(s) == if k < s.len() {
            k
        } else {
            s.len() as int
        },
{
    lemma_first_dot_props(s);
    let fd = first_dot(s);
    if k < s.len() {
        if fd < k {
            assert(s[fd] != '.');
        }
        if fd > k {
            assert(s[k] != '.');
        }
    } else {
        if fd < s.len() {
            assert(s[fd] != '.');
        }
    }
}

/// A valid dotted-quad component: one to three digits, no leading zero,
/// value at most 255.
pub open spec fn valid_octet(s: Seq<char>) -> bool {
    &&& 1 <= s.len() <= 3
    &&& all_digits(s)
    &&& (s.len() > 1 ==> s[0] != '0')
    &&& digits_to_int(s) <= 255
}

/// What a dotted-quad IPv4 field denotes: four valid octets separated by
/// single dots, nothing more.
pub open spec fn spec_parse_ipv4(s: Seq<char>) -> Option<u32> {
    let d1 = first_dot(s);
    if d1 >= s.len() {
        None
    } else {
        let p1 = s.take(d1);
        let r1 = s.skip(d1 + 1);
        let d2 = first_dot(r1);
        if d2 >= r1.len() {
            None
        } else {
            let p2 = r1.take(d2);
            let r2 = r1.skip(d2 + 1);
            let d3 = first_dot(r2);
            if d3 >= r2.len() {
                None
            } else {
                let p3 = r2.take(d3);
                let p4 = r2.skip(d3 + 1);
                if first_dot(p4) < p4.len() {
                    None
                } else if valid_octet(p1) && valid_octet(p2) && valid_octet(p3) && valid_octet(
                    p4,
                ) {
                    Some(
                        (digits_to_int(p1) * 0x100_0000 + digits_to_int(p2) * 0x1_0000
                            + digits_to_int(p3) * 0x100 + digits_to_int(p4)) as u32,
                    )
                } else {
                    None
                }
            }
        }
    }
}

/// Scans for the first `'.'` at or after `from`, returning its position,
/// or the string's length when there is none.
fn find_dot_from(s: &str, from: usize, n: usize) -> (d: usize)
    requires
        n == s@.len(),
        from <= n,
    ensures
        from <= d <= n,
        d < n ==> s@[d as int] == '.',
        forall|j: int| from <= j < d ==> s@[j] != '.',
{
    let mut k = from;
    while k < n
        invariant
            from <= k <= n == s@.len(),
            forall|j: int| from <= j < k ==> s@[j] != '.',
        decreases n - k,
    {
        if s.get_char(k) == '.' {
            return k;
        }
        k = k + 1;
    }
    k
}

/// Parses the component of `s` between `start` and `end` as an octet.
fn parse_octet(s: &str, start: usize, end: usize) -> (r: Option<u32>)
    requires
        start <= end <= s@.len(),
    ensures
        ({
            let part = s@.subrange(start as int, end as int);
            match r {
                Some(v) => valid_octet(part) && v == digits_to_int(part) && v <= 255,
                None => !valid_octet(part),
            }
        }),
{
    let ghost part = s@.subrange(start as int, end as int);
    let len = end - start;
    if len == 0 || len > 3 {
        return None;
    }
    let mut val: u32 = 0;
    let mut t: usize = 0;
    while t < len
        invariant
            start <= end <= s@.len(),
            len == end - start,
            0 < len <= 3,
            t <= len,
            part == s@.subrange(start as int, end as int),
            all_digits(part.take(t as int)),
            val == digits_to_int(part.take(t as int)),
            t == 0 ==> val == 0,
            t == 1 ==> val <= 9,
            t == 2 ==> val <= 99,
            t == 3 ==> val <= 999,
        decreases len - t,
    {
        let c = s.get_char(start + t);
        assert(c == part[t as int]);
        let d = c as u32;
        if d < 48 || d > 57 {
            assert(!is_digit(part[t as int]));
            return None;
        }
        let ghost pre = part.take(t as int);
        let ghost cur = part.take(t as int + 1);
        proof {
            assert(cur.drop_last() =~= pre);
            assert(cur.last() == part[t as int]);
        }
        val = val * 10 + (d - 48);
        t = t + 1;
        assert(val == digits_to_int(cur));
    }
    proof {
        assert(part.take(len as int) =~= part);
    }
    if len > 1 && s.get_char(start) == '0' {
        assert(part[0] == '0');
        return None;
    }
    if val > 255 {
        return None;
    }
    Some(val)
}

/// Parses a dotted-quad IPv4 address field: four octets of one to three
/// digits each, no leading zeros, separated by single dots.
pub fn parse_ipv4(s: &str) -> (r: Option<u32>)
    ensures
        r == spec_parse_ipv4(s@),
{
    let n = s.unicode_len();
    let d1 = find_dot_from(s, 0, n);
    proof {
        lemma_first_dot_props(s@);
        assert(first_dot(s@) == d1);
    }
    if d1 == n {
        return None;
    }
    let ghost r1 = s@.skip(d1 + 1);
    let d2 = find_dot_from(s, d1 + 1, n);
    proof {
        assert(forall|j: int| 0 <= j < r1.len() ==> r1[j] == s@[j + d1 + 1]);
        assert forall|j: int| 0 <= j < d2 - (d1 + 1) implies r1[j] != '.' by {
            assert(r1[j] == s@[j + d1 + 1]);
        }
        if d2 < n {
            assert(r1[d2 - (d1 + 1)] == s@[d2 as int]);
        }
        lemma_first_dot_at(r1, d2 - (d1 + 1));
    }
    if d2 == n {
        return None;
    }
    let ghost r2 = r1.skip(d2 - d1);
    let d3 = find_dot_from(s, d2 + 1, n);
    proof {
        assert(forall|j: int| 0 <= j < r2.len() ==> r2[j] == s@[j + d2 + 1]);
        assert forall|j: int| 0 <= j < d3 - (d2 + 1) implies r2[j] != '.' by {
            assert(r2[j] == s@[j + d2 + 1]);
        }
        if d3 < n {
            assert(r2[d3 - (d2 + 1)] == s@[d3 as int]);
        }
        lemma_first_dot_at(r2, d3 - (d2 + 1));
    }
    if d3 == n {
        return None;
    }
    let ghost p4 = r2.skip(d3 - d2);
    let d4 = find_dot_from(s, d3 + 1, n);
    proof {
        assert(forall|j: int| 0 <= j < p4.len() ==> p4[j] == s@[j + d3 + 1]);
        assert forall|j: int| 0 <= j < d4 - (d3 + 1) implies p4[j] != '.' by {
            assert(p4[j] == s@[j + d3 + 1]);
        }
        if d4 < n {
            assert(p4[d4 - (d3 + 1)] == s@[d4 as int]);
        }
        lemma_first_dot_at(p4, d4 - (d3 + 1));
        assert(first_dot(p4) < p4.len() <==> d4 < n);
    }
    if d4 != n {
        return None;
    }
    proof {
        assert(s@.take(first_dot(s@)) =~= s@.subrange(0, d1 as int));
        assert(r1.take(first_dot(r1)) =~= s@.subrange(d1 + 1, d2 as int));
        assert(r2.take(first_dot(r2)) =~= s@.subrange(d2 + 1, d3 as int));
        assert(p4 =~= s@.subrange(d3 + 1, n as int));
    }
    let o1 = parse_octet(s, 0, d1);
    let o2 = parse_octet(s, d1 + 1, d2);
    let o3 = parse_octet(s, d2 + 1, d3);
    let o4 = parse_octet(s, d3 + 1, n);
    match (o1, o2, o3, o4) {
        (Some(v1), Some(v2), Some(v3), Some(v4)) => {
            let v = v1 * 0x100_0000 + v2 * 0x1_0000 + v3 * 0x100 + v4;
            Some(v)
        },
        _ => None,
    }
}

/// One textual record of the source dataset, already split into its five
/// tab-separated fields.
#[derive(Debug)]
pub struct TsvRecord {
    /// First address of the range, dotted quad.
    pub range_start: String,
    /// Last address of the range, dotted quad.
    pub range_end: String,
    /// Decimal AS number.
    pub as_number: String,
    /// Two-letter country code.
    pub country: String,
    /// Owner name, possibly a sentinel marking an unassigned range.
    pub owner: String,
}

/// Mathematical model of a [`TsvRecord`].
pub ghost struct TsvRecordV {
    /// First address of the range, dotted quad.
    pub range_start: Seq<char>,
    /// Last address of the range, dotted quad.
    pub range_end: Seq<char>,
    /// Decimal AS number.
    pub as_number: Seq<char>,
    /// Two-letter country code.
    pub country: Seq<char>,
    /// Owner name, possibly a sentinel marking an unassigned range.
    pub owner: Seq<char>,
}

impl View for TsvRecord {
    type V = TsvRecordV;

    open spec fn view(&self) -> TsvRecordV {
        TsvRecordV {
            range_start: self.range_start@,
            range_end: self.range_end@,
            as_number: self.as_number@,
            country: self.country@,
            owner: self.owner@,
        }
    }
}

/// The field of a record that failed to parse.
#[derive(Clone, Copy, Debug, PartialEq, Eq, Structural)]
pub enum Field {
    /// The range's first address.
    RangeStart,
    /// The range's last address.
    RangeEnd,
    /// The AS number.
    AsNumber,
}

/// A malformed field in an ingested record: which field, and the raw value
/// it held.
#[derive(Debug)]
pub struct SourceParseError {
    /// The field that failed to parse.
    pub field: Field,
    /// The raw text of that field.
    pub value: String,
}

/// Mathematical model of a [`SourceParseError`].
pub ghost struct SourceParseErrorV {
    /// The field that failed to parse.
    pub field: Field,
    /// The raw text of that field.
    pub value: Seq<char>,
}

impl View for SourceParseError {
    type V = SourceParseErrorV;

    open spec fn view(&self) -> SourceParseErrorV {
        SourceParseErrorV { field: self.field, value: self.value@ }
    }
}

/// What parsing a record yields: the range it describes, or the first
/// malformed field in field order.
pub open spec fn spec_parse_record(rec: TsvRecordV) -> Result<RawRangeV, SourceParseErrorV> {
    if spec_parse_ipv4(rec.range_start) is None {
        Err(SourceParseErrorV { field: Field::RangeStart, value: rec.range_start })
    } else if spec_parse_ipv4(rec.range_end) is None {
        Err(SourceParseErrorV { field: Field::RangeEnd, value: rec.range_end })
    } else if spec_parse_u32(rec.as_number) is None {
        Err(SourceParseErrorV { field: Field::AsNumber, value: rec.as_number })
    } else {
        Ok(
            RawRangeV {
                start: spec_parse_ipv4(rec.range_start)->Some_0,
                end: spec_parse_ipv4(rec.range_end)->Some_0,
                as_number: spec_parse_u32(rec.as_number)->Some_0,
                country: rec.country,
                owner: rec.owner,
            },
        )
    }
}

/// Parses the address and integer fields of a record into a raw range,
/// failing on the first malformed field with an error naming it and
/// retaining its raw value.
pub fn parse_record(rec: &TsvRecord) -> (r: Result<RawRange, SourceParseError>)
    ensures
        match r {
            Ok(range) => spec_parse_record(rec@) is Ok && range@ == spec_parse_record(
                rec@,
            )->Ok_0,
            Err(e) => spec_parse_record(rec@) is Err && e@ == spec_parse_record(rec@)->Err_0,
        },
{
    let start = match parse_ipv4(self_str(&rec.range_start)) {
        Some(v) => v,
        None => {
            return Err(
                SourceParseError { field: Field::RangeStart, value: rec.range_start.clone() },
            );
        },
    };
    let end = match parse_ipv4(self_str(&rec.range_end)) {
        Some(v) => v,
        None => {
            return Err(SourceParseError { field: Field::RangeEnd, value: rec.range_end.clone() });
        },
    };
    let as_number = match parse_u32(self_str(&rec.as_number)) {
        Some(v) => v,
        None => {
            return Err(SourceParseError { field: Field::AsNumber, value: rec.as_number.clone() });
        },
    };
    Ok(
        RawRange {
            start,
            end,
            as_number,
            country: rec.country.clone(),
            owner: rec.owner.clone(),
        },
    )
}

/// Borrows a string's contents as a slice.
fn self_str(s: &String) -> (r: &str)
    ensures
        r@ == s@,
{
    s.as_str()
}

/// The owner values that mark a range as unassigned or not routed; records
/// bearing them are dropped before decomposition.
pub open spec fn is_sentinel_owner(owner: Seq<char>) -> bool {
    owner == "Not routed"@ || owner == "None"@
}

/// Whether an owner field holds one of the sentinel values.
pub fn owner_is_sentinel(owner: &String) -> (b: bool)
    ensures
        b == is_sentinel_owner(owner@),
{
    let not_routed = String::from_str("Not routed");
    let none_text = String::from_str("None");
    *owner == not_routed || *owner == none_text
}

} // verus!
