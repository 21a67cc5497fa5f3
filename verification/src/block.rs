//! The unit of the index: a CIDR-aligned IPv4 network block annotated with
//! the AS number, country code and owner name that apply to every address
//! inside it.

use vstd::arithmetic::power2::pow2;
use vstd::prelude::*;

verus! {

/// A raw range as ingested from the source dataset: an inclusive span of
/// IPv4 addresses together with its AS assignment data.
#[derive(Debug)]
pub struct RawRange {
    /// First address of the range.
    pub start: u32,
    /// Last address of the range (inclusive).
    pub end: u32,
    /// Number of the autonomous system announcing the range.
    pub as_number: u32,
    /// Two-letter country code.
    pub country: String,
    /// Name of the organisation the range is assigned to.
    pub owner: String,
}

/// Mathematical model of a [`RawRange`].
pub ghost struct RawRangeV {
    /// First address of the range.
    pub start: u32,
    /// Last address of the range (inclusive).
    pub end: u32,
    /// Number of the autonomous system announcing the range.
    pub as_number: u32,
    /// Two-letter country code.
    pub country: Seq<char>,
    /// Name of the organisation the range is assigned to.
    pub owner: Seq<char>,
}

impl View for RawRange {
    type V = RawRangeV;

    open spec fn view(&self) -> RawRangeV {
        RawRangeV {
            start: self.start,
            end: self.end,
            as_number: self.as_number,
            country: self.country@,
            owner: self.owner@,
        }
    }
}

/// A CIDR-aligned IPv4 network block: base address and prefix length,
/// annotated with the AS data that applies to every address in it.
#[derive(Debug)]
pub struct Block {
    /// Base (network) address of the block.
    pub ip: u32,
    /// Prefix length, between 0 and 32.
    pub prefix_len: u8,
    /// Number of the autonomous system announcing the block.
    pub as_number: u32,
    /// Two-letter country code.
    pub country: String,
    /// Name of the organisation the block is assigned to.
    pub owner: String,
}

/// Mathematical model of a [`Block`].
pub ghost struct BlockV {
    /// Base (network) address of the block.
    pub ip: u32,
    /// Prefix length, between 0 and 32.
    pub prefix_len: u8,
    /// Number of the autonomous system announcing the block.
    pub as_number: u32,
    /// Two-letter country code.
    pub country: Seq<char>,
    /// Name of the organisation the block is assigned to.
    pub owner: Seq<char>,
}

impl View for Block {
    type V = BlockV;

    open spec fn view(&self) -> BlockV {
        BlockV {
            ip: self.ip,
            prefix_len: self.prefix_len,
            as_number: self.as_number,
            country: self.country@,
            owner: self.owner@,
        }
    }
}

/// The models of a sequence of blocks.
pub open spec fn views_of(s: Seq<Block>) -> Seq<BlockV> {
    s.map_values(|b: Block| b@)
}

/// The models of a sequence of raw ranges.
pub open spec fn range_views(s: Seq<RawRange>) -> Seq<RawRangeV> {
    s.map_values(|r: RawRange| r@)
}

/// Number of addresses a block with this prefix length spans.
pub open spec fn block_size(prefix_len: int) -> int
    recommends
        0 <= prefix_len <= 32,
{
    pow2((32 - prefix_len) as nat) as int
}

/// Last address of a block (inclusive).
pub open spec fn block_end(b: BlockV) -> int {
    b.ip + block_size(b.prefix_len as int) - 1
}

/// A block is well formed when its prefix length is in range and its base
/// address is aligned to its size, so the block never straddles a
/// non-power-of-two boundary and fits in the address space.
pub open spec fn block_wf(b: BlockV) -> bool {
    &&& b.prefix_len <= 32
    &&& b.ip as int % block_size(b.prefix_len as int) == 0
    &&& block_end(b) < 0x1_0000_0000
}

/// Whether an address falls inside a block's network range.
pub open spec fn block_contains(b: BlockV, addr: int) -> bool {
    b.ip <= addr <= block_end(b)
}

/// Whether some block of the sequence contains the address.
pub open spec fn seq_covers(bs: Seq<BlockV>, addr: int) -> bool {
    exists|k: int| 0 <= k < bs.len() && block_contains(#[trigger] bs[k], addr)
}

/// Two blocks are disjoint when no address lies in both.
pub open spec fn blocks_disjoint(b1: BlockV, b2: BlockV) -> bool {
    block_end(b1) < b2.ip || block_end(b2) < b1.ip
}

} // verus!
