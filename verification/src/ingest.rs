//! The ingestion pipeline: parses textual records, drops sentinel-owner
//! ranges, decomposes the rest into blocks, and builds the sorted index.
//! The whole build aborts on the first malformed field.

use crate::block::{
    block_end, block_wf, blocks_disjoint, range_views, views_of, Block, BlockV, RawRange,
    RawRangeV,
};
use crate::index::{build, index_wf, sorted_by_ip, Index};
use crate::normalize::{lemma_normalize_exact_cover, normalize, spec_normalize};
use crate::parse::{
    is_sentinel_owner, owner_is_sentinel, parse_record, spec_parse_record, SourceParseError,
    SourceParseErrorV, TsvRecord, TsvRecordV,
};
use vstd::prelude::*;

verus! {

broadcast use vstd::arithmetic::power2::lemma_pow2_pos;

/// The models of a sequence of textual records.
pub open spec fn record_views(s: Seq<TsvRecord>) -> Seq<TsvRecordV> {
    s.map_values(|t: TsvRecord| t@)
}

/// A failure that aborts a whole build; it wraps the parse error of the
/// first malformed record. Partial indexes are never returned.
#[derive(Debug)]
pub enum BuildError {
    /// A record held a malformed field.
    Parse(SourceParseError),
}

impl View for BuildError {
    type V = SourceParseErrorV;

    open spec fn view(&self) -> SourceParseErrorV {
        match self {
            BuildError::Parse(e) => e@,
        }
    }
}

/// What parsing a whole dataset yields: every record's range in order, or
/// the error of the first malformed record.
pub open spec fn spec_parse_ranges(recs: Seq<TsvRecordV>) -> Result<
    Seq<RawRangeV>,
    SourceParseErrorV,
>
    decreases recs.len(),
{
    if recs.len() == 0 {
        Ok(Seq::empty())
    } else {
        match spec_parse_record(recs[0]) {
            Err(e) => Err(e),
            Ok(r) => match spec_parse_ranges(recs.drop_first()) {
                Err(e) => Err(e),
                Ok(rest) => Ok(seq![r] + rest),
            },
        }
    }
}

/// The blocks a sequence of ranges contributes: each non-sentinel range's
/// decomposition, in range order; sentinel-owner ranges contribute nothing.
pub open spec fn spec_all_blocks(ranges: Seq<RawRangeV>, min_p: int) -> Seq<BlockV>
    decreases ranges.len(),
{
    if ranges.len() == 0 {
        Seq::empty()
    } else {
        let head = if is_sentinel_owner(ranges[0].owner) {
            Seq::empty()
        } else {
            spec_normalize(ranges[0], min_p)
        };
        head + spec_all_blocks(ranges.drop_first(), min_p)
    }
}

/// Every range starts no later than it ends.
pub open spec fn ranges_wf(ranges: Seq<RawRangeV>) -> bool {
    forall|i: int| 0 <= i < ranges.len() ==> (#[trigger] ranges[i]).start <= ranges[i].end
}

/// No address lies in two ranges.
pub open spec fn ranges_disjoint(ranges: Seq<RawRangeV>) -> bool {
    forall|i: int, j: int|
        0 <= i < j < ranges.len() ==> (#[trigger] ranges[i]).end < (#[trigger] ranges[j]).start
            || ranges[j].end < ranges[i].start
}

/// The block lies inside one of the ranges.
pub open spec fn in_some_range(b: BlockV, ranges: Seq<RawRangeV>) -> bool {
    exists|t: int|
        0 <= t < ranges.len() && (#[trigger] ranges[t]).start <= b.ip && block_end(b)
            <= ranges[t].end
}

/// The blocks of one well-formed range are well formed, lie inside the
/// range, and are pairwise disjoint.
proof fn lemma_normalize_blocks_bounds(r: RawRangeV, min_p: int)
    requires
        r.start <= r.end,
        0 <= min_p <= 32,
    ensures
        ({
            let bs = spec_normalize(r, min_p);
            &&& forall|k: int| 0 <= k < bs.len() ==> block_wf(#[trigger] bs[k])
            &&& forall|k: int|
                0 <= k < bs.len() ==> r.start <= (#[trigger] bs[k]).ip && block_end(bs[k]) <= r.end
            &&& forall|k: int, l: int|
                0 <= k < l < bs.len() ==> blocks_disjoint(#[trigger] bs[k], #[trigger] bs[l])
        }),
{
    lemma_normalize_exact_cover(r, min_p);
    let bs = spec_normalize(r, min_p);
    assert forall|k: int| 0 <= k < bs.len() implies r.start <= (#[trigger] bs[k]).ip && block_end(
        bs[k],
    ) <= r.end by {
        if k > 0 {
            assert(block_end(bs[0]) < bs[k].ip);
        }
        if k < bs.len() - 1 {
            assert(block_end(bs[k]) < bs[bs.len() - 1].ip);
        }
    }
}

/// The blocks a dataset of well-formed, pairwise non-overlapping ranges
/// contributes are well formed, each lies inside one of the ranges, and
/// they are pairwise disjoint.
proof fn lemma_all_blocks_props(ranges: Seq<RawRangeV>, min_p: int)
    requires
        ranges_wf(ranges),
        ranges_disjoint(ranges),
        0 <= min_p <= 32,
    ensures
        ({
            let c = spec_all_blocks(ranges, min_p);
            &&& forall|k: int| 0 <= k < c.len() ==> block_wf(#[trigger] c[k])
            &&& forall|k: int| 0 <= k < c.len() ==> in_some_range(#[trigger] c[k], ranges)
            &&& forall|k: int, l: int|
                0 <= k < l < c.len() ==> blocks_disjoint(#[trigger] c[k], #[trigger] c[l])
        }),
    decreases ranges.len(),
{
    if ranges.len() > 0 {
        let c = spec_all_blocks(ranges, min_p);
        let r0 = ranges[0];
        let head = if is_sentinel_owner(r0.owner) {
            Seq::<BlockV>::empty()
        } else {
            spec_normalize(r0, min_p)
        };
        let rd = ranges.drop_first();
        let tail = spec_all_blocks(rd, min_p);
        assert(forall|i: int| 0 <= i < rd.len() ==> rd[i] == ranges[i + 1]);
        lemma_all_blocks_props(rd, min_p);
        if !is_sentinel_owner(r0.owner) {
            lemma_normalize_blocks_bounds(r0, min_p);
        }
        assert(c == head + tail);
        assert forall|k: int| 0 <= k < c.len() implies block_wf(#[trigger] c[k]) by {
            if k < head.len() {
                assert(c[k] == head[k]);
            } else {
                assert(c[k] == tail[k - head.len()]);
            }
        }
        assert forall|k: int| 0 <= k < c.len() implies in_some_range(#[trigger] c[k], ranges) by {
            if k < head.len() {
                assert(c[k] == head[k]);
                assert(ranges[0].start <= c[k].ip && block_end(c[k]) <= ranges[0].end);
            } else {
                assert(c[k] == tail[k - head.len()]);
                assert(in_some_range(tail[k - head.len()], rd));
                let t = choose|t: int|
                    0 <= t < rd.len() && (#[trigger] rd[t]).start <= c[k].ip && block_end(c[k])
                        <= rd[t].end;
                assert(ranges[t + 1].start <= c[k].ip && block_end(c[k]) <= ranges[t + 1].end);
            }
        }
        assert forall|k: int, l: int| 0 <= k < l < c.len() implies blocks_disjoint(
            #[trigger] c[k],
            #[trigger] c[l],
        ) by {
            if l < head.len() {
                assert(c[k] == head[k] && c[l] == head[l]);
            } else if k >= head.len() {
                assert(c[k] == tail[k - head.len()] && c[l] == tail[l - head.len()]);
            } else {
                assert(c[k] == head[k] && c[l] == tail[l - head.len()]);
                assert(ranges[0].start <= c[k].ip && block_end(c[k]) <= ranges[0].end);
                assert(in_some_range(tail[l - head.len()], rd));
                let t = choose|t: int|
                    0 <= t < rd.len() && (#[trigger] rd[t]).start <= c[l].ip && block_end(c[l])
                        <= rd[t].end;
                assert(ranges[0].end < ranges[t + 1].start || ranges[t + 1].end < ranges[0].start);
            }
        }
    }
}

/// A sorted arrangement of exactly the blocks that well-formed, pairwise
/// non-overlapping ranges contribute is a well-formed index: sorted with
/// pairwise non-overlapping networks, as `lookup` relies on. With the
/// contract of `normalize_and_build`, every index built from such ranges
/// satisfies the index invariant.
pub proof fn lemma_built_index_wf(ranges: Seq<RawRangeV>, min_p: int, s: Seq<BlockV>)
    requires
        ranges_wf(ranges),
        ranges_disjoint(ranges),
        0 <= min_p <= 32,
        s.to_multiset() == spec_all_blocks(ranges, min_p).to_multiset(),
        sorted_by_ip(s),
    ensures
        index_wf(s),
{
    let c = spec_all_blocks(ranges, min_p);
    lemma_all_blocks_props(ranges, min_p);
    assert forall|i: int| 0 <= i < s.len() implies block_wf(#[trigger] s[i]) by {
        assert(s.contains(s[i]));
        vstd::seq_lib::to_multiset_contains(s, s[i]);
        vstd::seq_lib::to_multiset_contains(c, s[i]);
        assert(c.contains(s[i]));
        let k = choose|k: int| 0 <= k < c.len() && c[k] == s[i];
        assert(block_wf(c[k]));
    }
    assert(c.no_duplicates()) by {
        assert forall|k: int, l: int|
            0 <= k < c.len() && 0 <= l < c.len() && k != l implies c[k] != c[l] by {
            if k < l {
                assert(blocks_disjoint(c[k], c[l]));
            } else {
                assert(blocks_disjoint(c[l], c[k]));
            }
            assert(block_wf(c[k]) && block_wf(c[l]));
        }
    }
    assert forall|i: int, j: int| 0 <= i < j < s.len() implies block_end(#[trigger] s[i]) < (
    #[trigger] s[j]).ip by {
        assert(s.contains(s[i]) && s.contains(s[j]));
        vstd::seq_lib::to_multiset_contains(s, s[i]);
        vstd::seq_lib::to_multiset_contains(s, s[j]);
        vstd::seq_lib::to_multiset_contains(c, s[i]);
        vstd::seq_lib::to_multiset_contains(c, s[j]);
        assert(c.contains(s[i]) && c.contains(s[j]));
        if s[i] == s[j] {
            c.lemma_multiset_has_no_duplicates();
            s.lemma_multiset_has_no_duplicates_conv();
            assert(s[i] != s[j]);
        }
        let k = choose|k: int| 0 <= k < c.len() && c[k] == s[i];
        let l = choose|l: int| 0 <= l < c.len() && c[l] == s[j];
        assert(k != l);
        if k < l {
            assert(blocks_disjoint(c[k], c[l]));
        } else {
            assert(blocks_disjoint(c[l], c[k]));
        }
        assert(block_wf(s[i]) && block_wf(s[j]));
        assert(s[i].ip <= s[j].ip);
    }
}

/// Parses every record of a dataset, in order, aborting on the first
/// malformed field.
pub fn parse_records(records: &Vec<TsvRecord>) -> (r: Result<Vec<RawRange>, SourceParseError>)
    ensures
        ({
            let parsed = spec_parse_ranges(record_views(records@));
            match r {
                Ok(ranges) => parsed is Ok && range_views(ranges@) == parsed->Ok_0,
                Err(e) => parsed is Err && e@ == parsed->Err_0,
            }
        }),
{
    let ghost rv = record_views(records@);
    let mut out: Vec<RawRange> = Vec::new();
    let n = records.len();
    let mut i: usize = 0;
    proof {
        assert(rv.skip(0) =~= rv);
        assert(range_views(out@) =~= Seq::<RawRangeV>::empty());
    }
    while i < n
        invariant
            i <= n == records@.len(),
            rv == record_views(records@),
            spec_parse_ranges(rv.skip(i as int)) is Ok ==> spec_parse_ranges(rv) == Ok::<
                Seq<RawRangeV>,
                SourceParseErrorV,
            >(range_views(out@) + spec_parse_ranges(rv.skip(i as int))->Ok_0),
            spec_parse_ranges(rv.skip(i as int)) is Err ==> spec_parse_ranges(rv)
                == spec_parse_ranges(rv.skip(i as int)),
        decreases n - i,
    {
        let ghost tail = rv.skip(i as int);
        proof {
            assert(tail[0] == rv[i as int]);
            assert(tail.drop_first() =~= rv.skip(i as int + 1));
        }
        match parse_record(&records[i]) {
            Ok(range) => {
                let ghost prev = range_views(out@);
                out.push(range);
                proof {
                    assert(range_views(out@) =~= prev + seq![range@]);
                    if spec_parse_ranges(rv.skip(i as int + 1)) is Ok {
                        assert((prev + seq![range@]) + spec_parse_ranges(
                            rv.skip(i as int + 1),
                        )->Ok_0 =~= prev + (seq![range@] + spec_parse_ranges(
                            rv.skip(i as int + 1),
                        )->Ok_0));
                    }
                }
            },
            Err(e) => {
                return Err(e);
            },
        }
        i = i + 1;
    }
    proof {
        assert(rv.skip(n as int) =~= Seq::<TsvRecordV>::empty());
        assert(range_views(out@) + Seq::<RawRangeV>::empty() =~= range_views(out@));
    }
    Ok(out)
}

/// Decomposes every non-sentinel range into blocks, in range order.
pub fn normalize_ranges(ranges: &Vec<RawRange>, min_prefix_len: u8) -> (blocks: Vec<Block>)
    requires
        min_prefix_len <= 32,
    ensures
        views_of(blocks@) == spec_all_blocks(range_views(ranges@), min_prefix_len as int),
{
    let ghost rgv = range_views(ranges@);
    let ghost min_p = min_prefix_len as int;
    let mut blocks: Vec<Block> = Vec::new();
    let n = ranges.len();
    let mut i: usize = 0;
    proof {
        assert(rgv.skip(0) =~= rgv);
        assert(views_of(blocks@) =~= Seq::<BlockV>::empty());
    }
    while i < n
        invariant
            i <= n == ranges@.len(),
            min_prefix_len <= 32,
            min_p == min_prefix_len as int,
            rgv == range_views(ranges@),
            views_of(blocks@) + spec_all_blocks(rgv.skip(i as int), min_p) == spec_all_blocks(
                rgv,
                min_p,
            ),
        decreases n - i,
    {
        let ghost tail = rgv.skip(i as int);
        proof {
            assert(tail[0] == rgv[i as int]);
            assert(tail.drop_first() =~= rgv.skip(i as int + 1));
        }
        let ghost prev = views_of(blocks@);
        if !owner_is_sentinel(&ranges[i].owner) {
            let mut chunk = normalize(&ranges[i], min_prefix_len);
            blocks.append(&mut chunk);
            proof {
                assert(views_of(blocks@) =~= prev + spec_normalize(rgv[i as int], min_p));
                assert((prev + spec_normalize(rgv[i as int], min_p)) + spec_all_blocks(
                    rgv.skip(i as int + 1),
                    min_p,
                ) =~= prev + (spec_normalize(rgv[i as int], min_p) + spec_all_blocks(
                    rgv.skip(i as int + 1),
                    min_p,
                )));
            }
        } else {
            proof {
                assert(Seq::<BlockV>::empty() + spec_all_blocks(rgv.skip(i as int + 1), min_p)
                    =~= spec_all_blocks(rgv.skip(i as int + 1), min_p));
            }
        }
        i = i + 1;
    }
    proof {
        assert(rgv.skip(n as int) =~= Seq::<RawRangeV>::empty());
        assert(views_of(blocks@) + Seq::<BlockV>::empty() =~= views_of(blocks@));
    }
    blocks
}

/// Builds the index for a whole textual dataset: parses every record,
/// drops sentinel-owner ranges, decomposes the rest, and sorts the blocks.
/// The first malformed field aborts the build; a partial index is never
/// returned.
pub fn normalize_and_build(records: &Vec<TsvRecord>, min_prefix_len: u8) -> (r: Result<
    Index,
    BuildError,
>)
    requires
        min_prefix_len <= 32,
    ensures
        ({
            let parsed = spec_parse_ranges(record_views(records@));
            match r {
                Ok(index) => {
                    &&& parsed is Ok
                    &&& index@.to_multiset() == spec_all_blocks(
                        parsed->Ok_0,
                        min_prefix_len as int,
                    ).to_multiset()
                    &&& sorted_by_ip(index@)
                },
                Err(e) => parsed is Err && e@ == parsed->Err_0,
            }
        }),
{
    match parse_records(records) {
        Ok(ranges) => {
            let blocks = normalize_ranges(&ranges, min_prefix_len);
            Ok(build(blocks))
        },
        Err(e) => Err(BuildError::Parse(e)),
    }
}

} // verus!
