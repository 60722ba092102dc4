//! Little-endian encoding of the fixed-width integers that the log format uses.

use vstd::prelude::*;

verus! {

/// The four little-endian bytes of `x`.
pub open spec fn le_bytes_u32(x: u32) -> Seq<u8> {
    seq![
        (x & 0xff) as u8,
        ((x >> 8) & 0xff) as u8,
        ((x >> 16) & 0xff) as u8,
        ((x >> 24) & 0xff) as u8,
    ]
}

/// The `u32` that the first four bytes of `s` encode, least significant first.
pub open spec fn le_u32(s: Seq<u8>) -> u32
    recommends
        s.len() >= 4,
{
    (s[0] as u32) | ((s[1] as u32) << 8) | ((s[2] as u32) << 16) | ((s[3] as u32) << 24)
}

/// The eight little-endian bytes of `x`.
pub open spec fn le_bytes_u64(x: u64) -> Seq<u8> {
    seq![
        (x & 0xff) as u8,
        ((x >> 8) & 0xff) as u8,
        ((x >> 16) & 0xff) as u8,
        ((x >> 24) & 0xff) as u8,
        ((x >> 32) & 0xff) as u8,
        ((x >> 40) & 0xff) as u8,
        ((x >> 48) & 0xff) as u8,
        ((x >> 56) & 0xff) as u8,
    ]
}

/// The `u64` that the first eight bytes of `s` encode, least significant first.
pub open spec fn le_u64(s: Seq<u8>) -> u64
    recommends
        s.len() >= 8,
{
    (s[0] as u64) | ((s[1] as u64) << 8) | ((s[2] as u64) << 16) | ((s[3] as u64) << 24)
        | ((s[4] as u64) << 32) | ((s[5] as u64) << 40) | ((s[6] as u64) << 48) | ((s[7] as u64)
        << 56)
}

/// The eight little-endian bytes of `x` in two's complement.
pub open spec fn le_bytes_i64(x: i64) -> Seq<u8> {
    le_bytes_u64(x as u64)
}

/// The `i64` that the first eight bytes of `s` encode in two's complement.
pub open spec fn le_i64(s: Seq<u8>) -> i64
    recommends
        s.len() >= 8,
{
    le_u64(s) as i64
}

/// Decoding the encoding of a `u32` gives it back.
pub proof fn lemma_le_u32_roundtrip(x: u32)
    ensures
        le_bytes_u32(x).len() == 4,
        le_u32(le_bytes_u32(x)) == x,
{
    let b = le_bytes_u32(x);
    assert(b[0] == (x & 0xff) as u8);
    assert(b[1] == ((x >> 8) & 0xff) as u8);
    assert(b[2] == ((x >> 16) & 0xff) as u8);
    assert(b[3] == ((x >> 24) & 0xff) as u8);
    assert(((x & 0xff) as u8 as u32) | ((((x >> 8) & 0xff) as u8 as u32) << 8) | ((((x >> 16)
        & 0xff) as u8 as u32) << 16) | ((((x >> 24) & 0xff) as u8 as u32) << 24) == x)
        by (bit_vector);
}

/// Decoding the encoding of a `u64` gives it back.
pub proof fn lemma_le_u64_roundtrip(x: u64)
    ensures
        le_bytes_u64(x).len() == 8,
        le_u64(le_bytes_u64(x)) == x,
{
    let b = le_bytes_u64(x);
    assert(b[0] == (x & 0xff) as u8);
    assert(b[1] == ((x >> 8) & 0xff) as u8);
    assert(b[2] == ((x >> 16) & 0xff) as u8);
    assert(b[3] == ((x >> 24) & 0xff) as u8);
    assert(b[4] == ((x >> 32) & 0xff) as u8);
    assert(b[5] == ((x >> 40) & 0xff) as u8);
    assert(b[6] == ((x >> 48) & 0xff) as u8);
    assert(b[7] == ((x >> 56) & 0xff) as u8);
    assert(((x & 0xff) as u8 as u64) | ((((x >> 8) & 0xff) as u8 as u64) << 8) | ((((x >> 16)
        & 0xff) as u8 as u64) << 16) | ((((x >> 24) & 0xff) as u8 as u64) << 24) | ((((x >> 32)
        & 0xff) as u8 as u64) << 32) | ((((x >> 40) & 0xff) as u8 as u64) << 40) | ((((x >> 48)
        & 0xff) as u8 as u64) << 48) | ((((x >> 56) & 0xff) as u8 as u64) << 56) == x)
        by (bit_vector);
}

/// Decoding the encoding of an `i64` gives it back.
pub proof fn lemma_le_i64_roundtrip(x: i64)
    ensures
        le_bytes_i64(x).len() == 8,
        le_i64(le_bytes_i64(x)) == x,
{
    lemma_le_u64_roundtrip(x as u64);
    assert((x as u64) as i64 == x) by (bit_vector);
}

/// Appends the little-endian bytes of `x`.
pub fn push_u32_le(out: &mut Vec<u8>, x: u32)
    ensures
        final(out)@ == old(out)@ + le_bytes_u32(x),
{
    out.push((x & 0xff) as u8);
    out.push(((x >> 8) & 0xff) as u8);
    out.push(((x >> 16) & 0xff) as u8);
    out.push(((x >> 24) & 0xff) as u8);
    assert(out@ =~= old(out)@ + le_bytes_u32(x));
}

/// Appends the little-endian two's complement bytes of `x`.
pub fn push_i64_le(out: &mut Vec<u8>, x: i64)
    ensures
        final(out)@ == old(out)@ + le_bytes_i64(x),
{
    let u = x as u64;
    out.push((u & 0xff) as u8);
    out.push(((u >> 8) & 0xff) as u8);
    out.push(((u >> 16) & 0xff) as u8);
    out.push(((u >> 24) & 0xff) as u8);
    out.push(((u >> 32) & 0xff) as u8);
    out.push(((u >> 40) & 0xff) as u8);
    out.push(((u >> 48) & 0xff) as u8);
    out.push(((u >> 56) & 0xff) as u8);
    assert(out@ =~= old(out)@ + le_bytes_i64(x));
}

/// Reads the `u32` stored little-endian at `bytes[pos..pos + 4]`.
pub fn read_u32_le(bytes: &[u8], pos: usize) -> (x: u32)
    requires
        pos + 4 <= bytes@.len(),
    ensures
        x == le_u32(bytes@.subrange(pos as int, pos + 4)),
{
    let ghost s = bytes@.subrange(pos as int, pos + 4);
    assert(s[0] == bytes@[pos as int] && s[1] == bytes@[pos + 1] && s[2] == bytes@[pos + 2] && s[3]
        == bytes@[pos + 3]);
    (bytes[pos] as u32) | ((bytes[pos + 1] as u32) << 8) | ((bytes[pos + 2] as u32) << 16) | ((
    bytes[pos + 3] as u32) << 24)
}

/// Reads the `i64` stored little-endian at `bytes[pos..pos + 8]`.
pub fn read_i64_le(bytes: &[u8], pos: usize) -> (x: i64)
    requires
        pos + 8 <= bytes@.len(),
    ensures
        x == le_i64(bytes@.subrange(pos as int, pos + 8)),
{
    let ghost s = bytes@.subrange(pos as int, pos + 8);
    assert(s[0] == bytes@[pos as int] && s[1] == bytes@[pos + 1] && s[2] == bytes@[pos + 2] && s[3]
        == bytes@[pos + 3] && s[4] == bytes@[pos + 4] && s[5] == bytes@[pos + 5] && s[6]
        == bytes@[pos + 6] && s[7] == bytes@[pos + 7]);
    let u: u64 = (bytes[pos] as u64) | ((bytes[pos + 1] as u64) << 8) | ((bytes[pos + 2] as u64)
        << 16) | ((bytes[pos + 3] as u64) << 24) | ((bytes[pos + 4] as u64) << 32) | ((bytes[pos
        + 5] as u64) << 40) | ((bytes[pos + 6] as u64) << 48) | ((bytes[pos + 7] as u64) << 56);
    u as i64
}

/// Appends every byte of `src`.
pub fn push_all(out: &mut Vec<u8>, src: &[u8])
    ensures
        final(out)@ == old(out)@ + src@,
{
    let mut i: usize = 0;
    while i < src.len()
        invariant
            i <= src@.len(),
            out@ == old(out)@ + src@.subrange(0, i as int),
        decreases src@.len() - i,
    {
        out.push(src[i]);
        i = i + 1;
        assert(out@ =~= old(out)@ + src@.subrange(0, i as int));
    }
    assert(src@.subrange(0, i as int) =~= src@);
}

} // verus!
