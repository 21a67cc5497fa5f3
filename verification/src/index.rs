//! The index: an immutable sequence of blocks sorted by base address, and
//! the lookup engine that resolves a single address by binary search.

use crate::block::{block_contains, block_end, block_wf, views_of, Block, BlockV};
use vstd::prelude::*;

verus! {

broadcast use vstd::arithmetic::power2::lemma_pow2_pos;

/// Blocks sorted by base address, ascending.
pub open spec fn sorted_by_ip(s: Seq<BlockV>) -> bool {
    forall|i: int, j: int| 0 <= i <= j < s.len() ==> (#[trigger] s[i]).ip <= (#[trigger] s[j]).ip
}

/// The index invariant: every block is well formed, and the blocks are
/// sorted by base address with pairwise non-overlapping ranges (every
/// earlier block ends before a later one starts).
pub open spec fn index_wf(s: Seq<BlockV>) -> bool {
    &&& forall|i: int| 0 <= i < s.len() ==> block_wf(#[trigger] s[i])
    &&& forall|i: int, j: int|
        0 <= i < j < s.len() ==> block_end(#[trigger] s[i]) < (#[trigger] s[j]).ip
}

/// The first block, in index order, whose range contains the address:
/// what a linear scan would return.
pub open spec fn first_match(s: Seq<BlockV>, addr: int) -> Option<BlockV>
    decreases s.len(),
{
    if s.len() == 0 {
        None
    } else if block_contains(s[0], addr) {
        Some(s[0])
    } else {
        first_match(s.drop_first(), addr)
    }
}

/// A block that no earlier block precedes in containing the address is the
/// first match.
pub proof fn lemma_first_match_at(s: Seq<BlockV>, addr: int, i: int)
    requires
        0 <= i < s.len(),
        block_contains(s[i], addr),
        forall|j: int| 0 <= j < i ==> !block_contains(#[trigger] s[j], addr),
    ensures
        first_match(s, addr) == Some(s[i]),
    decreases i,
{
    if i > 0 {
        let rest = s.drop_first();
        assert(forall|j: int| 0 <= j < rest.len() ==> rest[j] == s[j + 1]);
        lemma_first_match_at(rest, addr, i - 1);
    }
}

/// When no block contains the address, there is no match.
pub proof fn lemma_first_match_none(s: Seq<BlockV>, addr: int)
    requires
        forall|j: int| 0 <= j < s.len() ==> !block_contains(#[trigger] s[j], addr),
    ensures
        first_match(s, addr) is None,
    decreases s.len(),
{
    if s.len() > 0 {
        let rest = s.drop_first();
        assert(forall|j: int| 0 <= j < rest.len() ==> rest[j] == s[j + 1]);
        lemma_first_match_none(rest, addr);
    }
}

/// An immutable, ordered sequence of blocks. Built once, then only read.
#[derive(Debug)]
pub struct Index {
    blocks: Vec<Block>,
}

impl View for Index {
    type V = Seq<BlockV>;

    closed spec fn view(&self) -> Seq<BlockV> {
        views_of(self.blocks@)
    }
}

impl Index {
    /// The index invariant, over the index's model.
    pub open spec fn wf(&self) -> bool {
        index_wf(self@)
    }

    /// Wraps an already-ordered block sequence as an index without
    /// re-validating it; the codec uses this when reloading a stored
    /// index, which trusts the stream to hold sorted, disjoint blocks.
    pub(crate) fn from_blocks(blocks: Vec<Block>) -> (index: Index)
        ensures
            index@ == views_of(blocks@),
    {
        Index { blocks }
    }

    /// Number of blocks in the index.
    pub fn len(&self) -> (n: usize)
        ensures
            n == self@.len(),
    {
        self.blocks.len()
    }

    /// The block at a position, in base-address order.
    pub fn get(&self, i: usize) -> (b: &Block)
        requires
            i < self@.len(),
        ensures
            b@ == self@[i as int],
    {
        &self.blocks[i]
    }

    /// Decides whether the index satisfies its invariant: every block well
    /// formed, sorted by base address, ranges pairwise non-overlapping.
    /// `lookup` relies on the invariant; an index reloaded from an
    /// untrusted cache file can be validated here first.
    pub fn check_wf(&self) -> (r: bool)
        ensures
            r == self.wf(),
    {
        let ghost s = self@;
        let n = self.blocks.len();
        let mut prev_end: u64 = 0;
        let mut i: usize = 0;
        while i < n
            invariant
                i <= n == s.len(),
                s == self@,
                i > 0 ==> prev_end == block_end(s[i - 1]),
                forall|k: int| 0 <= k < i ==> block_wf(#[trigger] s[k]),
                forall|k: int| 0 <= k && k + 1 < i ==> block_end(#[trigger] s[k]) < s[k + 1].ip,
            decreases n - i,
        {
            let b = &self.blocks[i];
            assert(s[i as int] == self.blocks@[i as int]@);
            if b.prefix_len > 32 {
                assert(!block_wf(s[i as int]));
                return false;
            }
            let shift: u64 = (32 - b.prefix_len) as u64;
            proof {
                vstd::bits::lemma_u64_pow2_no_overflow(shift as nat);
                vstd::bits::lemma_u64_shl_is_mul(1u64, shift);
            }
            let size: u64 = 1u64 << shift;
            assert(size == crate::block::block_size(s[i as int].prefix_len as int));
            proof {
                crate::normalize::lemma_block_size_bounds(b.prefix_len as int);
            }
            let end: u64 = b.ip as u64 + size - 1;
            if end > 0xFFFF_FFFFu64 {
                assert(!block_wf(s[i as int]));
                return false;
            }
            if (b.ip as u64) % size != 0 {
                assert(!block_wf(s[i as int]));
                return false;
            }
            if i > 0 && prev_end >= b.ip as u64 {
                assert(block_end(s[i as int - 1]) >= s[i as int].ip);
                return false;
            }
            prev_end = end;
            i = i + 1;
        }
        proof {
            assert forall|k: int, l: int| 0 <= k < l < s.len() implies block_end(
                #[trigger] s[k],
            ) < (#[trigger] s[l]).ip by {
                lemma_adjacent_disjoint_ordered(s, k, l);
            }
        }
        true
    }

    /// Finds the unique block whose network contains `addr`, by binary
    /// search for the rightmost block whose base address is at most `addr`,
    /// followed by a containment check. Returns exactly what a linear scan
    /// for the first containing block would.
    pub fn lookup(&self, addr: u32) -> (r: Option<&Block>)
        requires
            self.wf(),
        ensures
            match r {
                Some(b) => first_match(self@, addr as int) == Some(b@),
                None => first_match(self@, addr as int) is None,
            },
    {
        let ghost s = self@;
        let n = self.blocks.len();
        let mut i1: usize = 0;
        let mut i2: usize = n;
        while i1 < i2
            invariant
                i1 <= i2 <= n == s.len(),
                s == self@,
                index_wf(s),
                forall|k: int| 0 <= k < i1 ==> (#[trigger] s[k]).ip <= addr,
                forall|k: int| i2 <= k < s.len() ==> (#[trigger] s[k]).ip > addr,
            decreases i2 - i1,
        {
            let mid = i1 + (i2 - i1) / 2;
            assert(s[mid as int] == self.blocks@[mid as int]@);
            if self.blocks[mid].ip <= addr {
                i1 = mid + 1;
            } else {
                i2 = mid;
            }
        }
        if i1 == 0 {
            proof {
                assert(forall|j: int|
                    0 <= j < s.len() ==> !block_contains(#[trigger] s[j], addr as int));
                lemma_first_match_none(s, addr as int);
            }
            return None;
        }
        let c = i1 - 1;
        let b = &self.blocks[c];
        assert(block_wf(s[c as int]));
        let size: u64 = 1u64 << ((32 - b.prefix_len) as u64);
        proof {
            vstd::bits::lemma_u64_pow2_no_overflow((32 - b.prefix_len) as nat);
            vstd::bits::lemma_u64_shl_is_mul(1u64, (32 - b.prefix_len) as u64);
        }
        assert(size == crate::block::block_size(s[c as int].prefix_len as int));
        let last: u64 = b.ip as u64 + size - 1;
        assert(last == block_end(s[c as int]));
        if (addr as u64) <= last {
            proof {
                assert forall|j: int| 0 <= j < c implies !block_contains(
                    #[trigger] s[j],
                    addr as int,
                ) by {
                    assert(block_end(s[j]) < s[c as int].ip);
                }
                lemma_first_match_at(s, addr as int, c as int);
            }
            Some(b)
        } else {
            proof {
                assert forall|j: int| 0 <= j < s.len() implies !block_contains(
                    #[trigger] s[j],
                    addr as int,
                ) by {
                    if j < c {
                        assert(block_end(s[j]) < s[c as int].ip);
                    }
                }
                lemma_first_match_none(s, addr as int);
            }
            None
        }
    }
}

/// Pairwise disjointness follows from disjointness of neighbours, since a
/// well-formed block ends no earlier than it starts.
pub proof fn lemma_adjacent_disjoint_ordered(s: Seq<BlockV>, k: int, l: int)
    requires
        forall|i: int| 0 <= i < s.len() ==> block_wf(#[trigger] s[i]),
        forall|i: int| 0 <= i && i + 1 < s.len() ==> block_end(#[trigger] s[i]) < s[i + 1].ip,
        0 <= k < l < s.len(),
    ensures
        block_end(s[k]) < s[l].ip,
    decreases l - k,
{
    if k < l - 1 {
        lemma_adjacent_disjoint_ordered(s, k, l - 1);
        assert(s[l - 1].ip <= block_end(s[l - 1]));
        assert(block_end(s[l - 1]) < s[(l - 1) + 1].ip);
    }
}

/// Blocks sorted by base address among the first `m` positions.
spec fn sorted_upto(s: Seq<BlockV>, m: int) -> bool {
    forall|k: int, l: int|
        0 <= k <= l < m && l < s.len() ==> (#[trigger] s[k]).ip <= (#[trigger] s[l]).ip
}

/// Mapping to models commutes with removing an element.
proof fn lemma_views_remove(s: Seq<Block>, i: int)
    requires
        0 <= i < s.len(),
    ensures
        views_of(s.remove(i)) =~= views_of(s).remove(i),
{
}

/// Mapping to models commutes with inserting an element.
proof fn lemma_views_insert(s: Seq<Block>, i: int, b: Block)
    requires
        0 <= i <= s.len(),
    ensures
        views_of(s.insert(i, b)) =~= views_of(s).insert(i, b@),
{
}

/// Collects blocks into an index, sorting them by base address, ascending.
/// No merging or overlap reconciliation is performed: the order among the
/// input blocks is the only thing that changes.
pub fn build(blocks: Vec<Block>) -> (index: Index)
    ensures
        index@.to_multiset() == views_of(blocks@).to_multiset(),
        sorted_by_ip(index@),
{
    broadcast use vstd::seq_lib::group_to_multiset_ensures;
    broadcast use vstd::seq_lib::to_multiset_insert;

    let ghost orig = views_of(blocks@);
    let mut v = blocks;
    let n = v.len();
    let mut i: usize = 1;
    while i < n
        invariant
            1 <= i,
            n == v.len(),
            views_of(v@).to_multiset() == orig.to_multiset(),
            sorted_upto(views_of(v@), i as int),
        decreases n - i,
    {
        let ghost s0 = views_of(v@);
        let key: u32 = v[i].ip;
        assert(key == s0[i as int].ip);
        let mut j: usize = 0;
        while j < i && v[j].ip <= key
            invariant
                j <= i < n == v.len(),
                views_of(v@) == s0,
                key == s0[i as int].ip,
                forall|k: int| 0 <= k < j ==> (#[trigger] s0[k]).ip <= key,
            decreases i - j,
        {
            assert(s0[j as int] == v@[j as int]@);
            j = j + 1;
        }
        assert(j == i || s0[j as int].ip > key) by {
            if j < i {
                assert(s0[j as int] == v@[j as int]@);
            }
        }
        if j < i {
            let ghost bs0 = v@;
            let x = v.remove(i);
            let ghost bs1 = v@;
            v.insert(j, x);
            proof {
                lemma_views_remove(bs0, i as int);
                lemma_views_insert(bs1, j as int, x);
                let xv = s0[i as int];
                let s1 = views_of(v@);
                let rem = s0.remove(i as int);
                assert(s1 =~= rem.insert(j as int, xv));
                assert(s0.contains(xv));
                vstd::seq_lib::to_multiset_contains(s0, xv);
                vstd::seq_lib::to_multiset_remove(s0, i as int);
                vstd::seq_lib::to_multiset_insert(rem, j as int, xv);
                assert(s1.to_multiset() == s0.to_multiset().remove(xv).insert(xv));
                assert(s1.to_multiset() =~= s0.to_multiset());
                s0.remove_ensures(i as int);
                rem.insert_ensures(j as int, xv);
                assert(s1.len() == s0.len());
                assert(forall|k: int| 0 <= k < j ==> #[trigger] s1[k] == s0[k]);
                assert(s1[j as int] == xv);
                assert forall|k: int| j < k <= i implies #[trigger] s1[k] == s0[k - 1] by {
                    assert(s1[k] == rem[k - 1]);
                }
                assert forall|k: int, l: int|
                    0 <= k <= l < i + 1 && l < s1.len() implies (#[trigger] s1[k]).ip <= (
                #[trigger] s1[l]).ip by {
                    if l == j {
                        assert(s1[l] == xv);
                    } else if l > j {
                        assert(s1[l] == s0[l - 1]);
                        assert(s0[j as int].ip <= s0[l - 1].ip);
                        if k < j {
                            assert(s1[k] == s0[k]);
                        } else if k == j {
                            assert(s1[k] == xv);
                        } else {
                            assert(s1[k] == s0[k - 1]);
                        }
                    }
                }
                assert(sorted_upto(views_of(v@), i + 1));
            }
        }
        i = i + 1;
    }
    Index { blocks: v }
}

/// Prepares a batch of query addresses: sorts them ascending and drops
/// duplicates, so results can be grouped by matched block afterwards.
pub fn sort_dedup_addrs(addrs: &Vec<u32>) -> (r: Vec<u32>)
    ensures
        forall|i: int, j: int| 0 <= i < j < r@.len() ==> r@[i] < r@[j],
        forall|x: u32| r@.contains(x) <==> addrs@.contains(x),
{
    broadcast use vstd::seq_lib::group_to_multiset_ensures;
    broadcast use vstd::seq_lib::to_multiset_insert;

    let mut out: Vec<u32> = Vec::new();
    let n = addrs.len();
    let mut i: usize = 0;
    proof {
        assert(addrs@.take(0) =~= Seq::<u32>::empty());
    }
    while i < n
        invariant
            i <= n == addrs@.len(),
            forall|k: int, l: int| 0 <= k < l < out@.len() ==> out@[k] < out@[l],
            forall|x: u32| out@.contains(x) <==> addrs@.take(i as int).contains(x),
        decreases n - i,
    {
        let a = addrs[i];
        let mut p: usize = 0;
        while p < out.len() && out[p] < a
            invariant
                p <= out@.len(),
                forall|k: int| 0 <= k < p ==> out@[k] < a,
            decreases out@.len() - p,
        {
            p = p + 1;
        }
        let ghost before = out@;
        let is_present = p < out.len() && out[p] == a;
        if !is_present {
            out.insert(p, a);
            proof {
                before.insert_ensures(p as int, a);
                vstd::seq_lib::to_multiset_insert(before, p as int, a);
                assert(out@.to_multiset() == before.to_multiset().insert(a));
                assert forall|k: int, l: int| 0 <= k < l < out@.len() implies out@[k] < out@[l] by {
                    if l < p {
                        assert(out@[k] == before[k] && out@[l] == before[l]);
                    } else if l == p {
                        assert(out@[k] == before[k]);
                    } else {
                        assert(out@[l] == before[l - 1]);
                        if k < p {
                            assert(out@[k] == before[k]);
                            assert(before[p as int] >= a);
                        } else if k == p {
                            assert(before[p as int] >= a);
                            assert(before[p as int] != a);
                        } else {
                            assert(out@[k] == before[k - 1]);
                        }
                    }
                }
            }
        }
        proof {
            assert(addrs@.take(i as int + 1) =~= addrs@.take(i as int).push(a));
            assert forall|x: u32| out@.contains(x) <==> addrs@.take(i as int + 1).contains(
                x,
            ) by {
                vstd::seq_lib::to_multiset_contains(out@, x);
                vstd::seq_lib::to_multiset_contains(before, x);
                vstd::seq_lib::to_multiset_contains(addrs@.take(i as int), x);
                vstd::seq_lib::to_multiset_contains(addrs@.take(i as int + 1), x);
                if is_present {
                    assert(out@.contains(a));
                }
                if x != a {
                    if addrs@.take(i as int + 1).contains(x) {
                        let w = choose|w: int|
                            0 <= w < addrs@.take(i as int + 1).len() && #[trigger] addrs@.take(
                                i as int + 1,
                            )[w] == x;
                        assert(addrs@.take(i as int)[w] == x);
                        assert(addrs@.take(i as int).contains(x));
                    }
                    if addrs@.take(i as int).contains(x) {
                        let w = choose|w: int|
                            0 <= w < addrs@.take(i as int).len() && #[trigger] addrs@.take(
                                i as int,
                            )[w] == x;
                        assert(addrs@.take(i as int + 1)[w] == x);
                    }
                    if !is_present && out@.contains(x) {
                        assert(out@.to_multiset() == before.to_multiset().insert(a));
                        assert(before.contains(x));
                    }
                    if !is_present && before.contains(x) {
                        assert(out@.to_multiset() == before.to_multiset().insert(a));
                    }
                } else {
                    assert(addrs@.take(i as int + 1)[i as int] == a);
                    if !is_present {
                        assert(out@.to_multiset() == before.to_multiset().insert(a));
                        assert(out@.to_multiset().count(a) > 0);
                    }
                }
            }
        }
        i = i + 1;
    }
    proof {
        assert(addrs@.take(n as int) =~= addrs@);
    }
    out
}

/// An address strictly below the first block's base matches nothing.
pub proof fn lemma_lookup_below_first(s: Seq<BlockV>, addr: int)
    requires
        index_wf(s),
        s.len() > 0,
        addr < s[0].ip,
    ensures
        first_match(s, addr) is None,
{
    assert forall|j: int| 0 <= j < s.len() implies !block_contains(#[trigger] s[j], addr) by {
        if j > 0 {
            assert(block_end(s[0]) < s[j].ip);
        }
    }
    lemma_first_match_none(s, addr);
}

/// An address strictly above the last block's range matches nothing.
pub proof fn lemma_lookup_above_last(s: Seq<BlockV>, addr: int)
    requires
        index_wf(s),
        s.len() > 0,
        addr > block_end(s[s.len() - 1]),
    ensures
        first_match(s, addr) is None,
{
    assert forall|j: int| 0 <= j < s.len() implies !block_contains(#[trigger] s[j], addr) by {
        if j < s.len() - 1 {
            assert(block_end(s[j]) < s[s.len() - 1].ip);
        }
    }
    lemma_first_match_none(s, addr);
}

/// An address in the gap between two consecutive blocks matches nothing.
pub proof fn lemma_lookup_in_gap(s: Seq<BlockV>, addr: int, i: int)
    requires
        index_wf(s),
        0 <= i < s.len() - 1,
        block_end(s[i]) < addr < s[i + 1].ip,
    ensures
        first_match(s, addr) is None,
{
    assert forall|j: int| 0 <= j < s.len() implies !block_contains(#[trigger] s[j], addr) by {
        if j < i {
            assert(block_end(s[j]) < s[i].ip);
        }
        if j > i + 1 {
            assert(block_end(s[i + 1]) < s[j].ip);
        }
    }
    lemma_first_match_none(s, addr);
}

} // verus!
