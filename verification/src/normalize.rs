//! The range normalizer: decomposes an arbitrary inclusive address range
//! into the minimal sequence of CIDR-aligned blocks that exactly covers it,
//! greedily emitting the largest possible block at each step.

use crate::block::{
    block_contains, block_end, block_size, block_wf, seq_covers, views_of, Block, BlockV, RawRange,
    RawRangeV,
};
use vstd::arithmetic::power2::{
    lemma2_to64, lemma2_to64_rest, lemma_pow2_pos, lemma_pow2_strictly_increases, pow2,
};
use vstd::bits::{lemma_u64_pow2_no_overflow, lemma_u64_shl_is_mul};
use vstd::prelude::*;

verus! {

/// The minimum prefix length used by the ingestion pipeline: ranges are
/// never covered by blocks larger than a /8.
pub const DEFAULT_MIN_PREFIX_LEN: u8 = 8;

/// A block of `block_size(p)` addresses based at `a` starts exactly at `a`
/// (alignment) and does not extend past `end`.
pub open spec fn prefix_ok(a: int, end: int, p: int) -> bool {
    &&& a % block_size(p) == 0
    &&& a + block_size(p) - 1 <= end
}

/// The smallest prefix length in `[lo, 32]` (hence the largest block)
/// allowed at address `a` within a range ending at `end`.
pub open spec fn best_prefix_from(a: int, end: int, lo: int) -> int
    decreases 32 - lo,
{
    if lo >= 32 {
        32
    } else if prefix_ok(a, end, lo) {
        lo
    } else {
        best_prefix_from(a, end, lo + 1)
    }
}

/// A block's size is positive and at most the whole address space.
pub proof fn lemma_block_size_bounds(p: int)
    requires
        0 <= p <= 32,
    ensures
        0 < block_size(p) <= 0x1_0000_0000,
{
    lemma_pow2_pos((32 - p) as nat);
    lemma2_to64();
    lemma2_to64_rest();
    if p > 0 {
        lemma_pow2_strictly_increases((32 - p) as nat, 32);
    }
}

/// The chosen prefix is in range and its block is aligned and fits.
pub proof fn lemma_best_prefix_ok(a: int, end: int, lo: int)
    requires
        0 <= a <= end,
        0 <= lo <= 32,
    ensures
        lo <= best_prefix_from(a, end, lo) <= 32,
        prefix_ok(a, end, best_prefix_from(a, end, lo)),
    decreases 32 - lo,
{
    if lo >= 32 || !prefix_ok(a, end, lo) {
        if lo < 32 {
            lemma_best_prefix_ok(a, end, lo + 1);
        } else {
            assert(block_size(32) == 1) by {
                lemma2_to64();
            }
        }
    }
}

/// The block emitted for the address `a` of a range.
pub open spec fn emitted_block(r: RawRangeV, a: int, min_p: int) -> BlockV {
    BlockV {
        ip: a as u32,
        prefix_len: best_prefix_from(a, r.end as int, min_p) as u8,
        as_number: r.as_number,
        country: r.country,
        owner: r.owner,
    }
}

/// The blocks the normalizer emits for the part of a range that starts at
/// `a`: greedily the largest aligned block that fits, then the rest.
pub open spec fn spec_normalize_from(r: RawRangeV, a: int, min_p: int) -> Seq<BlockV>
    decreases r.end + 1 - a,
        via spec_normalize_from_decreases
{
    if !(0 <= a <= r.end && 0 <= min_p <= 32) {
        Seq::empty()
    } else {
        let p = best_prefix_from(a, r.end as int, min_p);
        seq![emitted_block(r, a, min_p)] + spec_normalize_from(r, a + block_size(p), min_p)
    }
}

#[via_fn]
proof fn spec_normalize_from_decreases(r: RawRangeV, a: int, min_p: int) {
    if 0 <= a <= r.end && 0 <= min_p <= 32 {
        lemma_best_prefix_ok(a, r.end as int, min_p);
        lemma_pow2_pos((32 - best_prefix_from(a, r.end as int, min_p)) as nat);
    }
}

/// The blocks the normalizer emits for a whole range.
pub open spec fn spec_normalize(r: RawRangeV, min_p: int) -> Seq<BlockV> {
    spec_normalize_from(r, r.start as int, min_p)
}

/// Structural facts about the decomposition of the tail of a range: it is
/// never empty, it starts exactly at `a`, it ends exactly at `r.end`, its
/// blocks are well formed, no larger than a `/min_p`, contiguous, and all
/// carry the range's AS data.
pub proof fn lemma_normalize_from_props(r: RawRangeV, a: int, min_p: int)
    requires
        0 <= a <= r.end,
        0 <= min_p <= 32,
    ensures
        ({
            let bs = spec_normalize_from(r, a, min_p);
            &&& bs.len() > 0
            &&& bs[0].ip == a
            &&& block_end(bs[bs.len() - 1]) == r.end
            &&& forall|k: int| 0 <= k < bs.len() ==> block_wf(#[trigger] bs[k])
            &&& forall|k: int| 0 <= k < bs.len() ==> min_p <= (#[trigger] bs[k]).prefix_len
            &&& forall|k: int|
                0 <= k < bs.len() ==> (#[trigger] bs[k]).as_number == r.as_number && bs[k].country
                    == r.country && bs[k].owner == r.owner
            &&& forall|k: int|
                0 <= k < bs.len() - 1 ==> (#[trigger] bs[k + 1]).ip == block_end(bs[k]) + 1
        }),
    decreases r.end + 1 - a,
{
    lemma_best_prefix_ok(a, r.end as int, min_p);
    let p = best_prefix_from(a, r.end as int, min_p);
    lemma_block_size_bounds(p);
    let b0 = emitted_block(r, a, min_p);
    let bs = spec_normalize_from(r, a, min_p);
    let a2 = a + block_size(p);
    assert(block_end(b0) == a + block_size(p) - 1);
    assert(block_wf(b0));
    if a2 > r.end {
        assert(block_end(b0) == r.end);
        assert(spec_normalize_from(r, a2, min_p) =~= Seq::<BlockV>::empty());
        assert(bs =~= seq![b0]);
    } else {
        lemma_normalize_from_props(r, a2, min_p);
        let rest = spec_normalize_from(r, a2, min_p);
        assert(bs[0] == b0);
        assert(forall|k: int| 1 <= k < bs.len() ==> bs[k] == rest[k - 1]);
        assert(bs[bs.len() - 1] == rest[rest.len() - 1]);
        assert forall|k: int| 0 <= k < bs.len() - 1 implies (#[trigger] bs[k + 1]).ip == block_end(
            bs[k],
        ) + 1 by {
            if k == 0 {
                assert(rest[0].ip == a2);
            } else {
                assert(bs[k] == rest[k - 1]);
                assert(bs[k + 1] == rest[k]);
                assert(rest[(k - 1) + 1].ip == block_end(rest[k - 1]) + 1);
            }
        }
    }
}

/// Every address of the tail `[a, r.end]` lies in one of the emitted
/// blocks, and every emitted block lies inside the tail.
pub proof fn lemma_normalize_from_union(r: RawRangeV, a: int, min_p: int, addr: int)
    requires
        0 <= a <= r.end,
        0 <= min_p <= 32,
    ensures
        ({
            let bs = spec_normalize_from(r, a, min_p);
            (a <= addr <= r.end) <==> seq_covers(bs, addr)
        }),
    decreases r.end + 1 - a,
{
    lemma_best_prefix_ok(a, r.end as int, min_p);
    let p = best_prefix_from(a, r.end as int, min_p);
    lemma_block_size_bounds(p);
    let b0 = emitted_block(r, a, min_p);
    let bs = spec_normalize_from(r, a, min_p);
    let a2 = a + block_size(p);
    assert(bs[0] == b0);
    if a2 > r.end {
        assert(spec_normalize_from(r, a2, min_p) =~= Seq::<BlockV>::empty());
        if a <= addr <= r.end {
            assert(block_contains(bs[0], addr));
            assert(seq_covers(bs, addr));
        }
        if seq_covers(bs, addr) {
            let k = choose|k: int| 0 <= k < bs.len() && block_contains(#[trigger] bs[k], addr);
            assert(k == 0);
        }
    } else {
        lemma_normalize_from_union(r, a2, min_p, addr);
        let rest = spec_normalize_from(r, a2, min_p);
        assert(forall|k: int| 1 <= k < bs.len() ==> bs[k] == rest[k - 1]);
        if a <= addr <= r.end {
            if addr < a2 {
                assert(block_contains(bs[0], addr));
            } else {
                assert(seq_covers(rest, addr));
                let k = choose|k: int|
                    0 <= k < rest.len() && block_contains(#[trigger] rest[k], addr);
                assert(block_contains(bs[k + 1], addr));
            }
            assert(seq_covers(bs, addr));
        }
        if seq_covers(bs, addr) {
            let k = choose|k: int| 0 <= k < bs.len() && block_contains(#[trigger] bs[k], addr);
            if k > 0 {
                assert(block_contains(rest[k - 1], addr));
                assert(seq_covers(rest, addr));
            }
        }
    }
}

/// A contiguous run of well-formed blocks is ordered and pairwise disjoint:
/// every earlier block ends before a later one starts.
pub proof fn lemma_contiguous_ordered(bs: Seq<BlockV>, k: int, l: int)
    requires
        forall|i: int| 0 <= i < bs.len() ==> block_wf(#[trigger] bs[i]),
        forall|i: int| 0 <= i < bs.len() - 1 ==> (#[trigger] bs[i + 1]).ip == block_end(bs[i]) + 1,
        0 <= k < l < bs.len(),
    ensures
        block_end(bs[k]) < bs[l].ip,
    decreases l - k,
{
    lemma_block_size_bounds(bs[l - 1].prefix_len as int);
    assert(bs[l - 1].ip <= block_end(bs[l - 1]));
    assert(bs[((l - 1) + 1)].ip == block_end(bs[l - 1]) + 1);
    if k < l - 1 {
        lemma_contiguous_ordered(bs, k, l - 1);
    }
}

/// For all ranges with `start <= end`: the union of the emitted blocks'
/// address sets is exactly `[start, end]`, every emitted block is
/// CIDR-aligned and well formed, no larger than a `/min_p`, and the blocks
/// carry the range's AS data.
pub proof fn lemma_normalize_exact_cover(r: RawRangeV, min_p: int)
    requires
        r.start <= r.end,
        0 <= min_p <= 32,
    ensures
        ({
            let bs = spec_normalize(r, min_p);
            &&& bs.len() > 0
            &&& bs[0].ip == r.start
            &&& block_end(bs[bs.len() - 1]) == r.end
            &&& forall|k: int| 0 <= k < bs.len() ==> block_wf(#[trigger] bs[k])
            &&& forall|k: int| 0 <= k < bs.len() ==> min_p <= (#[trigger] bs[k]).prefix_len
            &&& forall|k: int|
                0 <= k < bs.len() ==> (#[trigger] bs[k]).as_number == r.as_number && bs[k].country
                    == r.country && bs[k].owner == r.owner
            &&& forall|k: int, l: int|
                0 <= k < l < bs.len() ==> block_end(#[trigger] bs[k]) < (#[trigger] bs[l]).ip
            &&& forall|addr: int|
                (r.start <= addr <= r.end) <==> #[trigger] seq_covers(bs, addr)
        }),
{
    let bs = spec_normalize(r, min_p);
    lemma_normalize_from_props(r, r.start as int, min_p);
    assert forall|k: int, l: int| 0 <= k < l < bs.len() implies block_end(#[trigger] bs[k]) < (
    #[trigger] bs[l]).ip by {
        lemma_contiguous_ordered(bs, k, l);
    }
    assert forall|addr: int| (r.start <= addr <= r.end) <==> #[trigger] seq_covers(bs, addr) by {
        lemma_normalize_from_union(r, r.start as int, min_p, addr);
    }
}

/// Decomposition is deterministic: any two block sequences obtained by
/// normalizing the same range with the same minimum prefix length are
/// identical.
pub proof fn lemma_normalize_deterministic(
    r1: RawRangeV,
    r2: RawRangeV,
    min_p: int,
    bs1: Seq<BlockV>,
    bs2: Seq<BlockV>,
)
    requires
        r1 == r2,
        bs1 == spec_normalize(r1, min_p),
        bs2 == spec_normalize(r2, min_p),
    ensures
        bs1 == bs2,
{
}

/// Computes the largest block allowed at `a`, as the smallest prefix length
/// in `[min_prefix_len, 32]` whose block is aligned at `a` and ends by `end`.
fn find_best_prefix(a: u64, end: u64, min_prefix_len: u8) -> (p: u8)
    requires
        a <= end < 0x1_0000_0000,
        min_prefix_len <= 32,
    ensures
        p == best_prefix_from(a as int, end as int, min_prefix_len as int),
        min_prefix_len <= p <= 32,
        prefix_ok(a as int, end as int, p as int),
{
    proof {
        lemma_best_prefix_ok(a as int, end as int, min_prefix_len as int);
    }
    let mut p: u8 = min_prefix_len;
    while p < 32
        invariant
            a <= end < 0x1_0000_0000,
            min_prefix_len <= p <= 32,
            best_prefix_from(a as int, end as int, min_prefix_len as int) == best_prefix_from(
                a as int,
                end as int,
                p as int,
            ),
        decreases 32 - p,
    {
        let shift: u64 = (32 - p) as u64;
        proof {
            lemma_u64_pow2_no_overflow(shift as nat);
            lemma_u64_shl_is_mul(1u64, shift);
            lemma_block_size_bounds(p as int);
        }
        let size: u64 = 1u64 << shift;
        assert(size == block_size(p as int));
        if a % size == 0 && a + size - 1 <= end {
            assert(prefix_ok(a as int, end as int, p as int));
            return p;
        }
        assert(!prefix_ok(a as int, end as int, p as int));
        p = p + 1;
    }
    assert(prefix_ok(a as int, end as int, 32)) by {
        lemma_best_prefix_ok(a as int, end as int, min_prefix_len as int);
    }
    p
}

/// Decomposes an inclusive address range into the blocks that exactly cover
/// it, each aligned, each no larger than a `/min_prefix_len`, annotated with
/// the range's AS data. A range whose start exceeds its end yields nothing.
pub fn normalize(range: &RawRange, min_prefix_len: u8) -> (blocks: Vec<Block>)
    requires
        min_prefix_len <= 32,
    ensures
        views_of(blocks@) == spec_normalize(range@, min_prefix_len as int),
{
    let mut blocks: Vec<Block> = Vec::new();
    let end: u64 = range.end as u64;
    let mut a: u64 = range.start as u64;
    proof {
        assert(views_of(blocks@) =~= Seq::<BlockV>::empty());
    }
    if range.start > range.end {
        assert(views_of(blocks@) =~= spec_normalize(range@, min_prefix_len as int));
        return blocks;
    }
    while a <= end
        invariant
            end == range@.end,
            end < 0x1_0000_0000,
            min_prefix_len <= 32,
            a <= end + 1,
            views_of(blocks@) + spec_normalize_from(range@, a as int, min_prefix_len as int)
                == spec_normalize(range@, min_prefix_len as int),
        decreases end + 1 - a,
    {
        let p = find_best_prefix(a, end, min_prefix_len);
        let shift: u64 = (32 - p) as u64;
        proof {
            lemma_u64_pow2_no_overflow(shift as nat);
            lemma_u64_shl_is_mul(1u64, shift);
            lemma_block_size_bounds(p as int);
        }
        let size: u64 = 1u64 << shift;
        assert(size == block_size(p as int));
        let ghost prev = blocks@;
        let ghost a0 = a as int;
        blocks.push(
            Block {
                ip: a as u32,
                prefix_len: p,
                as_number: range.as_number,
                country: range.country.clone(),
                owner: range.owner.clone(),
            },
        );
        a = a + size;
        proof {
            assert(views_of(blocks@) =~= views_of(prev) + seq![
                emitted_block(range@, a0, min_prefix_len as int),
            ]);
            assert(views_of(blocks@) + spec_normalize_from(
                range@,
                a as int,
                min_prefix_len as int,
            ) =~= spec_normalize(range@, min_prefix_len as int));
        }
    }
    proof {
        assert(spec_normalize_from(range@, a as int, min_prefix_len as int)
            =~= Seq::<BlockV>::empty());
        assert(views_of(blocks@) =~= spec_normalize(range@, min_prefix_len as int));
    }
    blocks
}

} // verus!
