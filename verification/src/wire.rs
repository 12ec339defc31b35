//! Byte-level primitives of the wire format: big-endian integers and the
//! error type shared by every decoder.

use vstd::prelude::*;

verus! {

/// All decode failures are alike for the caller: the whole message is
/// rejected and the request is dropped, so one error value suffices.
#[derive(Debug, PartialEq, Eq, Structural, Clone, Copy)]
pub struct ParseError;

/// The big-endian byte pair of a 16-bit value.
pub open spec fn be16(x: u16) -> Seq<u8> {
    seq![(x / 256) as u8, (x % 256) as u8]
}

/// The 16-bit value carried by two big-endian bytes.
pub open spec fn u16_of(hi: u8, lo: u8) -> u16 {
    (hi * 256 + lo) as u16
}

/// The big-endian four bytes of a 32-bit value.
pub open spec fn be32(x: u32) -> Seq<u8> {
    seq![
        (x / 0x1000000) as u8,
        ((x / 0x10000) % 256) as u8,
        ((x / 256) % 256) as u8,
        (x % 256) as u8,
    ]
}

/// The 32-bit value carried by four big-endian bytes.
pub open spec fn u32_of(b0: u8, b1: u8, b2: u8, b3: u8) -> u32 {
    (b0 * 0x1000000 + b1 * 0x10000 + b2 * 256 + b3) as u32
}

pub proof fn lemma_be16_of(hi: u8, lo: u8)
    ensures
        be16(u16_of(hi, lo)) =~= seq![hi, lo],
{
}

pub proof fn lemma_u16_of_be(x: u16)
    ensures
        u16_of(be16(x)[0], be16(x)[1]) == x,
{
}

#[verifier::rlimit(60)]
pub proof fn lemma_be32_of(b0: u8, b1: u8, b2: u8, b3: u8)
    ensures
        be32(u32_of(b0, b1, b2, b3)) =~= seq![b0, b1, b2, b3],
{
    let x = u32_of(b0, b1, b2, b3);
    assert(x == b0 * 0x1000000 + b1 * 0x10000 + b2 * 256 + b3);
    assert(x / 0x1000000 == b0) by (nonlinear_arith)
        requires
            x == b0 * 0x1000000 + b1 * 0x10000 + b2 * 256 + b3,
            b1 < 256 && b2 < 256 && b3 < 256,
    ;
    assert((x / 0x10000) % 256 == b1) by (nonlinear_arith)
        requires
            x == b0 * 0x1000000 + b1 * 0x10000 + b2 * 256 + b3,
            b1 < 256 && b2 < 256 && b3 < 256,
    ;
    assert((x / 256) % 256 == b2) by (nonlinear_arith)
        requires
            x == b0 * 0x1000000 + b1 * 0x10000 + b2 * 256 + b3,
            b1 < 256 && b2 < 256 && b3 < 256,
    ;
    assert(x % 256 == b3) by (nonlinear_arith)
        requires
            x == b0 * 0x1000000 + b1 * 0x10000 + b2 * 256 + b3,
            b2 < 256 && b3 < 256,
    ;
}

#[verifier::rlimit(60)]
pub proof fn lemma_u32_of_be(x: u32)
    ensures
        u32_of(be32(x)[0], be32(x)[1], be32(x)[2], be32(x)[3]) == x,
{
    assert((x / 0x1000000) * 0x1000000 + ((x / 0x10000) % 256) * 0x10000 + ((x / 256) % 256) * 256
        + x % 256 == x) by (nonlinear_arith);
}

/// Reads a big-endian 16-bit value at `pos`, returning it with the position
/// just past it.
pub fn read_u16(data: &[u8], pos: usize) -> (r: Result<(u16, usize), ParseError>)
    ensures
        r is Ok <==> pos + 2 <= data@.len(),
        r matches Ok((x, end)) ==> x == u16_of(data@[pos as int], data@[pos + 1]) && end == pos
            + 2,
{
    if data.len() >= 2 && pos <= data.len() - 2 {
        let hi = data[pos];
        let lo = data[pos + 1];
        Ok((hi as u16 * 256 + lo as u16, pos + 2))
    } else {
        Err(ParseError)
    }
}

/// Reads a big-endian 32-bit value at `pos`.
pub fn read_u32(data: &[u8], pos: usize) -> (r: Result<(u32, usize), ParseError>)
    ensures
        r is Ok <==> pos + 4 <= data@.len(),
        r matches Ok((x, end)) ==> x == u32_of(
            data@[pos as int],
            data@[pos + 1],
            data@[pos + 2],
            data@[pos + 3],
        ) && end == pos + 4,
{
    if data.len() >= 4 && pos <= data.len() - 4 {
        let b0 = data[pos] as u32;
        let b1 = data[pos + 1] as u32;
        let b2 = data[pos + 2] as u32;
        let b3 = data[pos + 3] as u32;
        Ok((b0 * 0x1000000 + b1 * 0x10000 + b2 * 256 + b3, pos + 4))
    } else {
        Err(ParseError)
    }
}

/// Appends the big-endian bytes of a 16-bit value.
pub fn push_u16(v: &mut Vec<u8>, x: u16)
    ensures
        final(v)@ == old(v)@ + be16(x),
{
    v.push((x / 256) as u8);
    v.push((x % 256) as u8);
    proof {
        assert(final(v)@ =~= old(v)@ + be16(x));
    }
}

/// Appends the big-endian bytes of a 32-bit value.
pub fn push_u32(v: &mut Vec<u8>, x: u32)
    ensures
        final(v)@ == old(v)@ + be32(x),
{
    v.push((x / 0x1000000) as u8);
    v.push(((x / 0x10000) % 256) as u8);
    v.push(((x / 256) % 256) as u8);
    v.push((x % 256) as u8);
    proof {
        assert(final(v)@ =~= old(v)@ + be32(x));
    }
}

/// Appends every byte of `src`.
pub fn push_bytes(v: &mut Vec<u8>, src: &Vec<u8>)
    ensures
        final(v)@ == old(v)@ + src@,
{
    let mut i: usize = 0;
    while i < src.len()
        invariant
            i <= src@.len(),
            v@ == old(v)@ + src@.subrange(0, i as int),
        decreases src@.len() - i,
    {
        v.push(src[i]);
        i = i + 1;
        proof {
            assert(v@ =~= old(v)@ + src@.subrange(0, i as int));
        }
    }
    proof {
        assert(src@.subrange(0, src@.len() as int) =~= src@);
    }
}

/// One byte of an encoding embedded at `pos` equals the buffer byte under
/// it.
pub proof fn lemma_embed_byte(data: Seq<u8>, pos: int, enc: Seq<u8>, k: int)
    requires
        0 <= pos,
        pos + enc.len() <= data.len(),
        data.subrange(pos, pos + enc.len() as int) == enc,
        0 <= k < enc.len(),
    ensures
        data[pos + k] == enc[k],
{
    assert(data.subrange(pos, pos + enc.len() as int)[k] == data[pos + k]);
}

/// A slice of an embedded encoding equals the matching slice of the buffer.
pub proof fn lemma_embed_slice(data: Seq<u8>, pos: int, enc: Seq<u8>, i: int, j: int)
    requires
        0 <= pos,
        pos + enc.len() <= data.len(),
        data.subrange(pos, pos + enc.len() as int) == enc,
        0 <= i <= j <= enc.len(),
    ensures
        data.subrange(pos + i, pos + j) == enc.subrange(i, j),
{
    assert forall|k: int| 0 <= k < j - i implies data.subrange(pos + i, pos + j)[k] == enc.subrange(
        i,
        j,
    )[k] by {
        assert(data.subrange(pos, pos + enc.len() as int)[i + k] == data[pos + (i + k)]);
        assert(data.subrange(pos + i, pos + j)[k] == data[pos + i + k]);
    }
    assert(data.subrange(pos + i, pos + j) =~= enc.subrange(i, j));
}

} // verus!
