//! Big-endian integer byte codecs used by the file format.
//!
//! Every multi-byte integer in a WSTF file is stored big-endian. The spec
//! functions below give the byte image of each width; the exec functions
//! write into or read from a byte buffer and are proved to match, and the
//! lemmas show that reading back what was written returns the value.

use vstd::prelude::*;

verus! {

/// Big-endian image of a `u16`: two bytes, most significant first.
pub open spec fn spec_be2(x: u16) -> Seq<u8> {
    seq![(x >> 8) as u8, (x & 0xff) as u8]
}

/// Big-endian image of a `u32`: four bytes, most significant first.
pub open spec fn spec_be4(x: u32) -> Seq<u8> {
    seq![
        ((x >> 24) & 0xff) as u8,
        ((x >> 16) & 0xff) as u8,
        ((x >> 8) & 0xff) as u8,
        (x & 0xff) as u8,
    ]
}

/// Big-endian image of a `u64`: eight bytes, most significant first.
pub open spec fn spec_be8(x: u64) -> Seq<u8> {
    seq![
        ((x >> 56) & 0xff) as u8,
        ((x >> 48) & 0xff) as u8,
        ((x >> 40) & 0xff) as u8,
        ((x >> 32) & 0xff) as u8,
        ((x >> 24) & 0xff) as u8,
        ((x >> 16) & 0xff) as u8,
        ((x >> 8) & 0xff) as u8,
        (x & 0xff) as u8,
    ]
}

/// The `u16` denoted by two big-endian bytes.
pub open spec fn spec_u16_of(b: Seq<u8>) -> u16
    recommends
        b.len() == 2,
{
    (((b[0] as u16) << 8) | (b[1] as u16)) as u16
}

/// The `u32` denoted by four big-endian bytes.
pub open spec fn spec_u32_of(b: Seq<u8>) -> u32
    recommends
        b.len() == 4,
{
    (((b[0] as u32) << 24) | ((b[1] as u32) << 16) | ((b[2] as u32) << 8) | (b[3] as u32)) as u32
}

/// The `u64` denoted by eight big-endian bytes.
pub open spec fn spec_u64_of(b: Seq<u8>) -> u64
    recommends
        b.len() == 8,
{
    (((b[0] as u64) << 56) | ((b[1] as u64) << 48) | ((b[2] as u64) << 40) | ((b[3] as u64) << 32)
        | ((b[4] as u64) << 24) | ((b[5] as u64) << 16) | ((b[6] as u64) << 8) | (
    b[7] as u64)) as u64
}

/// Reading back the two-byte image of `x` yields `x`.
pub proof fn lemma_be2_roundtrip(x: u16)
    ensures
        spec_u16_of(spec_be2(x)) == x,
{
    let b0 = (x >> 8) as u8;
    let b1 = (x & 0xff) as u8;
    assert((((b0 as u16) << 8) | (b1 as u16)) == x) by (bit_vector)
        requires
            b0 == (x >> 8) as u8 && b1 == (x & 0xff) as u8,
    ;
}

/// Reading back the four-byte image of `x` yields `x`.
pub proof fn lemma_be4_roundtrip(x: u32)
    ensures
        spec_u32_of(spec_be4(x)) == x,
{
    let b0 = ((x >> 24) & 0xff) as u8;
    let b1 = ((x >> 16) & 0xff) as u8;
    let b2 = ((x >> 8) & 0xff) as u8;
    let b3 = (x & 0xff) as u8;
    assert((((b0 as u32) << 24) | ((b1 as u32) << 16) | ((b2 as u32) << 8) | (b3 as u32)) == x)
        by (bit_vector)
        requires
            b0 == ((x >> 24) & 0xff) as u8 && b1 == ((x >> 16) & 0xff) as u8 && b2 == ((x >> 8)
                & 0xff) as u8 && b3 == (x & 0xff) as u8,
    ;
}

/// Reading back the eight-byte image of `x` yields `x`.
pub proof fn lemma_be8_roundtrip(x: u64)
    ensures
        spec_u64_of(spec_be8(x)) == x,
{
    let b0 = ((x >> 56) & 0xff) as u8;
    let b1 = ((x >> 48) & 0xff) as u8;
    let b2 = ((x >> 40) & 0xff) as u8;
    let b3 = ((x >> 32) & 0xff) as u8;
    let b4 = ((x >> 24) & 0xff) as u8;
    let b5 = ((x >> 16) & 0xff) as u8;
    let b6 = ((x >> 8) & 0xff) as u8;
    let b7 = (x & 0xff) as u8;
    assert((((b0 as u64) << 56) | ((b1 as u64) << 48) | ((b2 as u64) << 40) | ((b3 as u64) << 32)
        | ((b4 as u64) << 24) | ((b5 as u64) << 16) | ((b6 as u64) << 8) | (b7 as u64)) == x)
        by (bit_vector)
        requires
            b0 == ((x >> 56) & 0xff) as u8 && b1 == ((x >> 48) & 0xff) as u8 && b2 == ((x >> 40)
                & 0xff) as u8 && b3 == ((x >> 32) & 0xff) as u8 && b4 == ((x >> 24) & 0xff) as u8
                && b5 == ((x >> 16) & 0xff) as u8 && b6 == ((x >> 8) & 0xff) as u8 && b7 == (x
                & 0xff) as u8,
    ;
}

/// Appends the big-endian image of a `u16`.
pub fn push_be2(out: &mut Vec<u8>, x: u16)
    ensures
        final(out)@ == old(out)@ + spec_be2(x),
{
    out.push((x >> 8) as u8);
    out.push((x & 0xff) as u8);
    assert(out@ =~= old(out)@ + spec_be2(x));
}

/// Appends the big-endian image of a `u32`.
pub fn push_be4(out: &mut Vec<u8>, x: u32)
    ensures
        final(out)@ == old(out)@ + spec_be4(x),
{
    out.push(((x >> 24) & 0xff) as u8);
    out.push(((x >> 16) & 0xff) as u8);
    out.push(((x >> 8) & 0xff) as u8);
    out.push((x & 0xff) as u8);
    assert(out@ =~= old(out)@ + spec_be4(x));
}

/// Appends the big-endian image of a `u64`.
pub fn push_be8(out: &mut Vec<u8>, x: u64)
    ensures
        final(out)@ == old(out)@ + spec_be8(x),
{
    out.push(((x >> 56) & 0xff) as u8);
    out.push(((x >> 48) & 0xff) as u8);
    out.push(((x >> 40) & 0xff) as u8);
    out.push(((x >> 32) & 0xff) as u8);
    out.push(((x >> 24) & 0xff) as u8);
    out.push(((x >> 16) & 0xff) as u8);
    out.push(((x >> 8) & 0xff) as u8);
    out.push((x & 0xff) as u8);
    assert(out@ =~= old(out)@ + spec_be8(x));
}

/// Reads a big-endian `u16` at `pos`.
pub fn read_be2(buf: &[u8], pos: usize) -> (r: u16)
    requires
        pos + 2 <= buf@.len(),
    ensures
        r == spec_u16_of(buf@.subrange(pos as int, pos + 2)),
{
    let ghost b = buf@.subrange(pos as int, pos + 2);
    let r = ((buf[pos] as u16) << 8) | (buf[pos + 1] as u16);
    assert(b[0] == buf@[pos as int] && b[1] == buf@[pos + 1]);
    r
}

/// Reads a big-endian `u32` at `pos`.
pub fn read_be4(buf: &[u8], pos: usize) -> (r: u32)
    requires
        pos + 4 <= buf@.len(),
    ensures
        r == spec_u32_of(buf@.subrange(pos as int, pos + 4)),
{
    let ghost b = buf@.subrange(pos as int, pos + 4);
    let r = ((buf[pos] as u32) << 24) | ((buf[pos + 1] as u32) << 16) | ((buf[pos + 2] as u32)
        << 8) | (buf[pos + 3] as u32);
    assert(b[0] == buf@[pos as int] && b[1] == buf@[pos + 1] && b[2] == buf@[pos + 2] && b[3]
        == buf@[pos + 3]);
    r
}

/// Reads a big-endian `u64` at `pos`.
pub fn read_be8(buf: &[u8], pos: usize) -> (r: u64)
    requires
        pos + 8 <= buf@.len(),
    ensures
        r == spec_u64_of(buf@.subrange(pos as int, pos + 8)),
{
    let ghost b = buf@.subrange(pos as int, pos + 8);
    let r = ((buf[pos] as u64) << 56) | ((buf[pos + 1] as u64) << 48) | ((buf[pos + 2] as u64)
        << 40) | ((buf[pos + 3] as u64) << 32) | ((buf[pos + 4] as u64) << 24) | ((buf[pos
        + 5] as u64) << 16) | ((buf[pos + 6] as u64) << 8) | (buf[pos + 7] as u64);
    assert(b[0] == buf@[pos as int] && b[1] == buf@[pos + 1] && b[2] == buf@[pos + 2] && b[3]
        == buf@[pos + 3] && b[4] == buf@[pos + 4] && b[5] == buf@[pos + 5] && b[6] == buf@[pos + 6]
        && b[7] == buf@[pos + 7]);
    r
}

} // verus!
