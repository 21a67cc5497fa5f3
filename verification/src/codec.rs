//! The codec: a compact, self-contained binary form of the sorted block
//! sequence, so an index can be reloaded without rebuilding it. A stream
//! not produced by `store` fails to load with a decode error; loading
//! performs structural validation only and does not re-check range
//! semantics.

use crate::block::{views_of, Block, BlockV};
use crate::index::Index;
use vstd::bytes::{
    lemma_auto_spec_u32_to_from_le_bytes, lemma_auto_spec_u64_to_from_le_bytes,
    spec_u32_from_le_bytes, spec_u32_to_le_bytes, spec_u64_from_le_bytes, spec_u64_to_le_bytes,
    u32_from_le_bytes, u32_to_le_bytes, u64_from_le_bytes, u64_to_le_bytes,
};
use vstd::prelude::*;
use vstd::slice::{slice_subrange, slice_to_vec};
use vstd::string::StrSliceExecFns;
use vstd::utf8::{
    decode_utf8, encode_utf8, encode_utf8_decode_utf8, encode_utf8_valid_utf8, valid_utf8,
};

verus! {

/// Why a byte stream failed to load.
#[derive(Clone, Copy, Debug, PartialEq, Eq, Structural)]
pub enum CodecError {
    /// The stream does not begin with this format's magic and version.
    BadHeader,
    /// The stream ends before the structure it promises.
    Truncated,
    /// A block carries a prefix length over 32.
    BadPrefixLen,
    /// A text field is not valid UTF-8.
    BadText,
    /// Bytes remain after the promised block count.
    TrailingData,
}

/// The five bytes every stored index begins with: a magic tag and a
/// format version.
pub open spec fn header_bytes() -> Seq<u8> {
    seq![65u8, 83u8, 68u8, 66u8, 1u8]
}

/// The encoding of one block: base address, prefix length, AS number,
/// then each text field as a length-prefixed UTF-8 byte string.
pub open spec fn encode_block(b: BlockV) -> Seq<u8> {
    let cb = encode_utf8(b.country);
    let ob = encode_utf8(b.owner);
    spec_u32_to_le_bytes(b.ip) + seq![b.prefix_len] + spec_u32_to_le_bytes(b.as_number)
        + spec_u64_to_le_bytes(cb.len() as u64) + cb + spec_u64_to_le_bytes(ob.len() as u64) + ob
}

/// The concatenated encodings of a sequence of blocks, in order.
pub open spec fn encode_blocks(s: Seq<BlockV>) -> Seq<u8>
    decreases s.len(),
{
    if s.len() == 0 {
        Seq::empty()
    } else {
        encode_block(s[0]) + encode_blocks(s.drop_first())
    }
}

/// The stored form of an index: header, block count, then every block.
pub open spec fn spec_store(s: Seq<BlockV>) -> Seq<u8> {
    header_bytes() + spec_u64_to_le_bytes(s.len() as u64) + encode_blocks(s)
}

/// What decoding one block at `off` yields: the block and the offset past
/// it, or the first structural error encountered.
pub open spec fn decode_block_at(bytes: Seq<u8>, off: int) -> Result<(BlockV, int), CodecError> {
    if off + 9 > bytes.len() {
        Err(CodecError::Truncated)
    } else {
        let ip = spec_u32_from_le_bytes(bytes.subrange(off, off + 4));
        let prefix_len = bytes[off + 4];
        let as_number = spec_u32_from_le_bytes(bytes.subrange(off + 5, off + 9));
        if prefix_len > 32 {
            Err(CodecError::BadPrefixLen)
        } else if off + 17 > bytes.len() {
            Err(CodecError::Truncated)
        } else {
            let clen = spec_u64_from_le_bytes(bytes.subrange(off + 9, off + 17)) as int;
            if off + 17 + clen > bytes.len() {
                Err(CodecError::Truncated)
            } else {
                let cb = bytes.subrange(off + 17, off + 17 + clen);
                if !valid_utf8(cb) {
                    Err(CodecError::BadText)
                } else {
                    let o3 = off + 17 + clen;
                    if o3 + 8 > bytes.len() {
                        Err(CodecError::Truncated)
                    } else {
                        let olen = spec_u64_from_le_bytes(bytes.subrange(o3, o3 + 8)) as int;
                        if o3 + 8 + olen > bytes.len() {
                            Err(CodecError::Truncated)
                        } else {
                            let ob = bytes.subrange(o3 + 8, o3 + 8 + olen);
                            if !valid_utf8(ob) {
                                Err(CodecError::BadText)
                            } else {
                                Ok(
                                    (
                                        BlockV {
                                            ip,
                                            prefix_len,
                                            as_number,
                                            country: decode_utf8(cb),
                                            owner: decode_utf8(ob),
                                        },
                                        o3 + 8 + olen,
                                    ),
                                )
                            }
                        }
                    }
                }
            }
        }
    }
}

/// What decoding `n` blocks starting at `off` yields: the blocks and the
/// offset past them, or the first error.
pub open spec fn decode_blocks_at(bytes: Seq<u8>, off: int, n: int) -> Result<
    (Seq<BlockV>, int),
    CodecError,
>
    decreases n,
{
    if n <= 0 {
        Ok((Seq::empty(), off))
    } else {
        match decode_block_at(bytes, off) {
            Err(e) => Err(e),
            Ok((b, off2)) => match decode_blocks_at(bytes, off2, n - 1) {
                Err(e) => Err(e),
                Ok((rest, end)) => Ok((seq![b] + rest, end)),
            },
        }
    }
}

/// What loading a byte stream yields: the block sequence it stores, or
/// the first structural error: bad header, truncation, an out-of-range
/// prefix length, invalid text, or trailing bytes.
pub open spec fn spec_load(bytes: Seq<u8>) -> Result<Seq<BlockV>, CodecError> {
    if bytes.len() < 5 {
        Err(CodecError::Truncated)
    } else if bytes.subrange(0, 5) != header_bytes() {
        Err(CodecError::BadHeader)
    } else if bytes.len() < 13 {
        Err(CodecError::Truncated)
    } else {
        let n = spec_u64_from_le_bytes(bytes.subrange(5, 13)) as int;
        match decode_blocks_at(bytes, 13, n) {
            Err(e) => Err(e),
            Ok((blocks, end)) => if end != bytes.len() {
                Err(CodecError::TrailingData)
            } else {
                Ok(blocks)
            },
        }
    }
}

/// Appending one block's encoding extends the encoding of a prefix.
proof fn lemma_encode_blocks_snoc(s: Seq<BlockV>, i: int)
    requires
        0 <= i < s.len(),
    ensures
        encode_blocks(s.take(i + 1)) =~= encode_blocks(s.take(i)) + encode_block(s[i]),
    decreases i,
{
    if i == 0 {
        assert(s.take(0) =~= Seq::<BlockV>::empty());
        assert(s.take(1).drop_first() =~= Seq::<BlockV>::empty());
        assert(s.take(1)[0] == s[0]);
        assert(encode_blocks(s.take(1)) == encode_block(s.take(1)[0]) + encode_blocks(
            s.take(1).drop_first(),
        ));
        assert(encode_blocks(s.take(1)) =~= encode_block(s[0]));
    } else {
        let sd = s.drop_first();
        lemma_encode_blocks_snoc(sd, i - 1);
        assert(s.take(i + 1).drop_first() =~= sd.take(i));
        assert(s.take(i).drop_first() =~= sd.take(i - 1));
        assert(s.take(i + 1)[0] == s[0]);
        assert(s.take(i)[0] == s[0]);
        assert(sd[i - 1] == s[i]);
        assert(encode_blocks(s.take(i + 1)) =~= encode_block(s[0]) + encode_blocks(sd.take(i)));
        assert(encode_blocks(s.take(i)) =~= encode_block(s[0]) + encode_blocks(sd.take(i - 1)));
        assert(encode_block(s[0]) + (encode_blocks(sd.take(i - 1)) + encode_block(s[i])) =~= (
        encode_block(s[0]) + encode_blocks(sd.take(i - 1))) + encode_block(s[i]));
    }
}

/// Serializes an index to its compact binary form.
pub fn store(index: &Index) -> (bytes: Vec<u8>)
    ensures
        bytes@ == spec_store(index@),
{
    let ghost s = index@;
    let mut out: Vec<u8> = Vec::new();
    out.push(65);
    out.push(83);
    out.push(68);
    out.push(66);
    out.push(1);
    proof {
        assert(out@ =~= header_bytes());
    }
    let n = index.len();
    let mut count_bytes = u64_to_le_bytes(n as u64);
    out.append(&mut count_bytes);
    let ghost head = header_bytes() + spec_u64_to_le_bytes(s.len() as u64);
    proof {
        assert(out@ =~= head);
        assert(s.take(0) =~= Seq::<BlockV>::empty());
        assert(out@ + encode_blocks(s.take(0)) =~= out@);
    }
    let mut i: usize = 0;
    while i < n
        invariant
            i <= n == s.len(),
            s == index@,
            head == header_bytes() + spec_u64_to_le_bytes(s.len() as u64),
            out@ == head + encode_blocks(s.take(i as int)),
        decreases n - i,
    {
        let b = index.get(i);
        let ghost before = out@;
        let mut ip_bytes = u32_to_le_bytes(b.ip);
        out.append(&mut ip_bytes);
        out.push(b.prefix_len);
        let mut as_bytes = u32_to_le_bytes(b.as_number);
        out.append(&mut as_bytes);
        let mut country_bytes = b.country.as_str().as_bytes_vec();
        let mut clen_bytes = u64_to_le_bytes(country_bytes.len() as u64);
        out.append(&mut clen_bytes);
        let ghost cb = country_bytes@;
        out.append(&mut country_bytes);
        let mut owner_bytes = b.owner.as_str().as_bytes_vec();
        let mut olen_bytes = u64_to_le_bytes(owner_bytes.len() as u64);
        out.append(&mut olen_bytes);
        let ghost ob = owner_bytes@;
        out.append(&mut owner_bytes);
        proof {
            assert(cb == encode_utf8(s[i as int].country));
            assert(ob == encode_utf8(s[i as int].owner));
            assert(out@ =~= before + encode_block(s[i as int]));
            lemma_encode_blocks_snoc(s, i as int);
            assert(out@ =~= head + encode_blocks(s.take(i as int + 1)));
        }
        i = i + 1;
    }
    proof {
        assert(s.take(n as int) =~= s);
    }
    out
}

/// A block the stored form can represent: prefix length in range and text
/// fields whose encodings fit the length fields.
pub open spec fn block_encodable(b: BlockV) -> bool {
    &&& b.prefix_len <= 32
    &&& encode_utf8(b.country).len() <= u64::MAX
    &&& encode_utf8(b.owner).len() <= u64::MAX
}

/// The two halves of a concatenation stand at their own offsets in a
/// stream that holds the concatenation.
proof fn lemma_concat_parts(bytes: Seq<u8>, off: int, x: Seq<u8>, y: Seq<u8>)
    requires
        0 <= off,
        off + x.len() + y.len() <= bytes.len(),
        bytes.subrange(off, off + x.len() + y.len()) == x + y,
    ensures
        bytes.subrange(off, off + x.len() as int) =~= x,
        bytes.subrange(off + x.len() as int, off + x.len() + y.len()) =~= y,
{
    let whole = bytes.subrange(off, off + x.len() + y.len());
    assert forall|k: int|
        0 <= k < x.len() implies bytes.subrange(off, off + x.len() as int)[k] == x[k] by {
        assert(whole[k] == (x + y)[k]);
        assert(whole[k] == bytes[off + k]);
    }
    assert forall|k: int|
        0 <= k < y.len() implies bytes.subrange(
        off + x.len() as int,
        off + x.len() + y.len(),
    )[k] == y[k] by {
        assert(whole[x.len() + k] == (x + y)[x.len() + k]);
        assert(whole[x.len() + k] == bytes[off + x.len() + k]);
    }
}

/// A block decodes from its own encoding, wherever it stands in a stream.
proof fn lemma_decode_block_encode(bytes: Seq<u8>, off: int, b: BlockV)
    requires
        0 <= off,
        off + encode_block(b).len() <= bytes.len(),
        bytes.subrange(off, off + encode_block(b).len()) == encode_block(b),
        block_encodable(b),
    ensures
        decode_block_at(bytes, off) == Ok::<(BlockV, int), CodecError>(
            (b, off + encode_block(b).len()),
        ),
{
    lemma_auto_spec_u32_to_from_le_bytes();
    lemma_auto_spec_u64_to_from_le_bytes();
    encode_utf8_valid_utf8(b.country);
    encode_utf8_valid_utf8(b.owner);
    encode_utf8_decode_utf8(b.country);
    encode_utf8_decode_utf8(b.owner);
    let eb = encode_block(b);
    let cb = encode_utf8(b.country);
    let ob = encode_utf8(b.owner);
    let clen = cb.len() as int;
    let olen = ob.len() as int;
    let a1 = spec_u32_to_le_bytes(b.ip);
    let bp = seq![b.prefix_len];
    let a2 = spec_u32_to_le_bytes(b.as_number);
    let l1 = spec_u64_to_le_bytes(cb.len() as u64);
    let l2 = spec_u64_to_le_bytes(ob.len() as u64);
    assert(a1.len() == 4 && a2.len() == 4 && l1.len() == 8 && l2.len() == 8);
    assert(eb.len() == 25 + clen + olen);
    let t1 = bp + (a2 + (l1 + (cb + (l2 + ob))));
    let t2 = a2 + (l1 + (cb + (l2 + ob)));
    let t3 = l1 + (cb + (l2 + ob));
    let t4 = cb + (l2 + ob);
    let t5 = l2 + ob;
    assert(eb =~= a1 + t1);
    lemma_concat_parts(bytes, off, a1, t1);
    lemma_concat_parts(bytes, off + 4, bp, t2);
    lemma_concat_parts(bytes, off + 5, a2, t3);
    lemma_concat_parts(bytes, off + 9, l1, t4);
    lemma_concat_parts(bytes, off + 17, cb, t5);
    lemma_concat_parts(bytes, off + 17 + clen, l2, ob);
    assert(bytes.subrange(off, off + 4) == a1);
    assert(bytes[off + 4] == bytes.subrange(off + 4, off + 5)[0]);
    assert(bytes[off + 4] == b.prefix_len);
    assert(bytes.subrange(off + 5, off + 9) == a2);
    assert(bytes.subrange(off + 9, off + 17) == l1);
    assert(spec_u64_from_le_bytes(l1) == cb.len() as u64);
    assert(bytes.subrange(off + 17, off + 17 + clen) == cb);
    assert(bytes.subrange(off + 17 + clen, off + 17 + clen + 8) == l2);
    assert(spec_u64_from_le_bytes(l2) == ob.len() as u64);
    assert(bytes.subrange(off + 17 + clen + 8, off + 17 + clen + 8 + olen) == ob);
}

/// A block sequence decodes from its own concatenated encoding.
proof fn lemma_decode_blocks_encode(bytes: Seq<u8>, off: int, s: Seq<BlockV>)
    requires
        0 <= off,
        off + encode_blocks(s).len() <= bytes.len(),
        bytes.subrange(off, off + encode_blocks(s).len()) == encode_blocks(s),
        forall|k: int| 0 <= k < s.len() ==> block_encodable(#[trigger] s[k]),
    ensures
        decode_blocks_at(bytes, off, s.len() as int) == Ok::<(Seq<BlockV>, int), CodecError>(
            (s, off + encode_blocks(s).len()),
        ),
    decreases s.len(),
{
    if s.len() == 0 {
        assert(decode_blocks_at(bytes, off, 0) == Ok::<(Seq<BlockV>, int), CodecError>(
            (Seq::empty(), off),
        ));
        assert(s =~= Seq::<BlockV>::empty());
    } else {
        let eb = encode_block(s[0]);
        let sd = s.drop_first();
        let rest = encode_blocks(sd);
        let all = encode_blocks(s);
        assert(all == eb + rest);
        lemma_concat_parts(bytes, off, eb, rest);
        lemma_decode_block_encode(bytes, off, s[0]);
        let off2 = off + eb.len();
        assert(bytes.subrange(off2, off2 + rest.len() as int) == rest);
        assert(forall|k: int| 0 <= k < sd.len() ==> sd[k] == s[k + 1]);
        lemma_decode_blocks_encode(bytes, off2, sd);
        assert(seq![s[0]] + sd =~= s);
    }
}

/// Round trip: loading a stored block sequence yields it back unchanged,
/// identical in order, base address, prefix length, AS number, and text
/// fields.
pub proof fn lemma_store_load_round_trip(s: Seq<BlockV>)
    requires
        forall|k: int| 0 <= k < s.len() ==> block_encodable(#[trigger] s[k]),
        s.len() <= u64::MAX,
    ensures
        spec_load(spec_store(s)) == Ok::<Seq<BlockV>, CodecError>(s),
{
    lemma_auto_spec_u64_to_from_le_bytes();
    let bytes = spec_store(s);
    let body = encode_blocks(s);
    assert(bytes.len() == 13 + body.len());
    assert(bytes.subrange(0, 5) =~= header_bytes());
    assert(bytes.subrange(5, 13) =~= spec_u64_to_le_bytes(s.len() as u64));
    assert(spec_u64_from_le_bytes(bytes.subrange(5, 13)) == s.len() as u64);
    assert(bytes.subrange(13, 13 + body.len() as int) =~= body);
    lemma_decode_blocks_encode(bytes, 13, s);
}

/// Relies on `String::from_utf8`: it succeeds exactly on valid UTF-8
/// input and yields the string those bytes encode.
#[verifier::external_body]
fn bytes_to_string(v: Vec<u8>) -> (r: Option<String>)
    ensures
        r is Some <==> valid_utf8(v@),
        r is Some ==> r->0@ == decode_utf8(v@),
{
    String::from_utf8(v).ok()
}

/// Reads one block at `off`, mirroring `decode_block_at`.
fn read_block_at(bytes: &Vec<u8>, off: usize) -> (r: Result<(Block, usize), CodecError>)
    requires
        off <= bytes@.len(),
    ensures
        match r {
            Ok(p) => decode_block_at(bytes@, off as int) == Ok::<(BlockV, int), CodecError>(
                (p.0@, p.1 as int),
            ) && off < p.1 <= bytes@.len(),
            Err(e) => decode_block_at(bytes@, off as int) == Err::<(BlockV, int), CodecError>(e),
        },
{
    let n = bytes.len();
    if n - off < 9 {
        return Err(CodecError::Truncated);
    }
    let ip = u32_from_le_bytes(slice_subrange(bytes.as_slice(), off, off + 4));
    let prefix_len = bytes[off + 4];
    let as_number = u32_from_le_bytes(slice_subrange(bytes.as_slice(), off + 5, off + 9));
    if prefix_len > 32 {
        return Err(CodecError::BadPrefixLen);
    }
    if n - (off + 9) < 8 {
        return Err(CodecError::Truncated);
    }
    let clen64 = u64_from_le_bytes(slice_subrange(bytes.as_slice(), off + 9, off + 17));
    let o2 = off + 17;
    if clen64 > (n - o2) as u64 {
        return Err(CodecError::Truncated);
    }
    let clen = clen64 as usize;
    let cvec = slice_to_vec(slice_subrange(bytes.as_slice(), o2, o2 + clen));
    let country = match bytes_to_string(cvec) {
        Some(c) => c,
        None => {
            return Err(CodecError::BadText);
        },
    };
    let o3 = o2 + clen;
    if n - o3 < 8 {
        return Err(CodecError::Truncated);
    }
    let olen64 = u64_from_le_bytes(slice_subrange(bytes.as_slice(), o3, o3 + 8));
    let o4 = o3 + 8;
    if olen64 > (n - o4) as u64 {
        return Err(CodecError::Truncated);
    }
    let olen = olen64 as usize;
    let ovec = slice_to_vec(slice_subrange(bytes.as_slice(), o4, o4 + olen));
    let owner = match bytes_to_string(ovec) {
        Some(o) => o,
        None => {
            return Err(CodecError::BadText);
        },
    };
    Ok((Block { ip, prefix_len, as_number, country, owner }, o4 + olen))
}

/// Deserializes an index from its compact binary form. The stream is
/// validated structurally: enough bytes, prefix lengths in range, text
/// fields valid UTF-8, and nothing after the promised block count. Range
/// semantics are not re-checked: the stream is trusted to hold sorted,
/// disjoint blocks, as `store` writes them.
pub fn load(bytes: &Vec<u8>) -> (r: Result<Index, CodecError>)
    ensures
        match r {
            Ok(index) => spec_load(bytes@) == Ok::<Seq<BlockV>, CodecError>(index@),
            Err(e) => spec_load(bytes@) == Err::<Seq<BlockV>, CodecError>(e),
        },
{
    let n = bytes.len();
    if n < 5 {
        return Err(CodecError::Truncated);
    }
    if !(bytes[0] == 65 && bytes[1] == 83 && bytes[2] == 68 && bytes[3] == 66 && bytes[4] == 1) {
        proof {
            let h = header_bytes();
            let sub = bytes@.subrange(0, 5);
            assert(sub[0] == bytes@[0] && sub[1] == bytes@[1] && sub[2] == bytes@[2] && sub[3]
                == bytes@[3] && sub[4] == bytes@[4]);
            assert(h[0] == 65u8 && h[1] == 83u8 && h[2] == 68u8 && h[3] == 66u8 && h[4] == 1u8);
            assert(sub != h);
        }
        return Err(CodecError::BadHeader);
    }
    proof {
        assert(bytes@.subrange(0, 5) =~= header_bytes());
    }
    if n < 13 {
        return Err(CodecError::Truncated);
    }
    let count = u64_from_le_bytes(slice_subrange(bytes.as_slice(), 5, 13));
    let ghost cnt = count as int;
    let mut blocks: Vec<Block> = Vec::new();
    let mut off: usize = 13;
    let mut i: u64 = 0;
    proof {
        assert(views_of(blocks@) =~= Seq::<BlockV>::empty());
        if decode_blocks_at(bytes@, 13, cnt) is Ok {
            assert(Seq::<BlockV>::empty() + decode_blocks_at(bytes@, 13, cnt)->Ok_0.0
                =~= decode_blocks_at(bytes@, 13, cnt)->Ok_0.0);
        }
    }
    while i < count
        invariant
            13 <= off <= n == bytes@.len(),
            i <= count,
            cnt == count as int,
            bytes@.subrange(0, 5) == header_bytes(),
            cnt == spec_u64_from_le_bytes(bytes@.subrange(5, 13)) as int,
            decode_blocks_at(bytes@, off as int, cnt - i) is Ok ==> decode_blocks_at(
                bytes@,
                13,
                cnt,
            ) == Ok::<(Seq<BlockV>, int), CodecError>(
                (
                    views_of(blocks@) + decode_blocks_at(bytes@, off as int, cnt - i)->Ok_0.0,
                    decode_blocks_at(bytes@, off as int, cnt - i)->Ok_0.1,
                ),
            ),
            decode_blocks_at(bytes@, off as int, cnt - i) is Err ==> decode_blocks_at(
                bytes@,
                13,
                cnt,
            ) == decode_blocks_at(bytes@, off as int, cnt - i),
        decreases count - i,
    {
        match read_block_at(bytes, off) {
            Ok(p) => {
                let (b, off2) = p;
                let ghost prev = views_of(blocks@);
                blocks.push(b);
                proof {
                    assert(views_of(blocks@) =~= prev + seq![b@]);
                    if decode_blocks_at(bytes@, off2 as int, cnt - i - 1) is Ok {
                        let rest = decode_blocks_at(bytes@, off2 as int, cnt - i - 1)->Ok_0.0;
                        assert((prev + seq![b@]) + rest =~= prev + (seq![b@] + rest));
                    }
                }
                off = off2;
            },
            Err(e) => {
                return Err(e);
            },
        }
        i = i + 1;
    }
    if off != n {
        return Err(CodecError::TrailingData);
    }
    Ok(Index::from_blocks(blocks))
}

} // verus!
