//! The canonical binary encoding: integers little-endian, fixed-size arrays
//! inline, variable-size collections prefixed by a 64-bit length.
use vstd::prelude::*;

verus! {

/// Little-endian bytes of a `u32`.
pub open spec fn enc_u32(v: u32) -> Seq<u8> {
    seq![v as u8, (v >> 8u32) as u8, (v >> 16u32) as u8, (v >> 24u32) as u8]
}

/// Little-endian bytes of a `u64`.
pub open spec fn enc_u64(v: u64) -> Seq<u8> {
    seq![
        v as u8, (v >> 8u64) as u8, (v >> 16u64) as u8, (v >> 24u64) as u8,
        (v >> 32u64) as u8, (v >> 40u64) as u8, (v >> 48u64) as u8, (v >> 56u64) as u8,
    ]
}

/// The two's complement bits of an `i64`.
pub open spec fn i64_bits(v: i64) -> u64 {
    if v >= 0 {
        v as u64
    } else {
        (v + 0x1_0000_0000_0000_0000) as u64
    }
}

/// Little-endian two's complement bytes of an `i64`.
pub open spec fn enc_i64(v: i64) -> Seq<u8> {
    enc_u64(i64_bits(v))
}

/// The two's complement bits of an `i64`.
pub fn to_bits(v: i64) -> (r: u64)
    ensures
        r == i64_bits(v),
{
    if v >= 0 {
        v as u64
    } else {
        ((v + i64::MAX) + 1) as u64 + 0x8000_0000_0000_0000
    }
}

/// The `i64` with the given two's complement bits.
pub fn from_bits(u: u64) -> (r: i64)
    ensures
        i64_bits(r) == u,
{
    if u < 0x8000_0000_0000_0000 {
        u as i64
    } else {
        ((u - 0x8000_0000_0000_0000) as i64) - i64::MAX - 1
    }
}

/// Little-endian bytes of a `u128`: the low half first.
pub open spec fn enc_u128(v: u128) -> Seq<u8> {
    enc_u64(v as u64) + enc_u64((v >> 64u128) as u64)
}

/// Appends the encoding of a `u32`.
pub fn push_u32(out: &mut Vec<u8>, v: u32)
    ensures
        final(out)@ == old(out)@ + enc_u32(v),
{
    out.push(v as u8);
    out.push((v >> 8u32) as u8);
    out.push((v >> 16u32) as u8);
    out.push((v >> 24u32) as u8);
    assert(final(out)@ =~= old(out)@ + enc_u32(v));
}

/// Appends the encoding of a `u64`.
pub fn push_u64(out: &mut Vec<u8>, v: u64)
    ensures
        final(out)@ == old(out)@ + enc_u64(v),
{
    out.push(v as u8);
    out.push((v >> 8u64) as u8);
    out.push((v >> 16u64) as u8);
    out.push((v >> 24u64) as u8);
    out.push((v >> 32u64) as u8);
    out.push((v >> 40u64) as u8);
    out.push((v >> 48u64) as u8);
    out.push((v >> 56u64) as u8);
    assert(final(out)@ =~= old(out)@ + enc_u64(v));
}

/// Appends the encoding of an `i64`.
pub fn push_i64(out: &mut Vec<u8>, v: i64)
    ensures
        final(out)@ == old(out)@ + enc_i64(v),
{
    push_u64(out, to_bits(v));
}

/// Appends the encoding of a `u128`.
pub fn push_u128(out: &mut Vec<u8>, v: u128)
    ensures
        final(out)@ == old(out)@ + enc_u128(v),
{
    push_u64(out, v as u64);
    push_u64(out, (v >> 64u128) as u64);
    assert(final(out)@ =~= old(out)@ + enc_u128(v));
}

/// Appends bytes as they are (a fixed-size array is written inline).
pub fn push_bytes(out: &mut Vec<u8>, b: &[u8])
    ensures
        final(out)@ == old(out)@ + b@,
{
    let mut i: usize = 0;
    while i < b.len()
        invariant
            0 <= i <= b@.len(),
            out@ == old(out)@ + b@.subrange(0, i as int),
        decreases b@.len() - i,
    {
        out.push(b[i]);
        i = i + 1;
        assert(out@ =~= old(out)@ + b@.subrange(0, i as int));
    }
    assert(b@.subrange(0, b@.len() as int) =~= b@);
}

/// Reads a little-endian `u32` at `pos`.
pub fn read_u32(b: &[u8], pos: usize) -> (r: Option<u32>)
    ensures
        pos + 4 <= b@.len() ==> r is Some && enc_u32(r->0) == b@.subrange(pos as int, pos + 4),
        pos + 4 > b@.len() ==> r is None,
{
    if pos > b.len() || b.len() - pos < 4 {
        return None;
    }
    let v: u32 = (b[pos] as u32) | ((b[pos + 1] as u32) << 8u32) | ((b[pos + 2] as u32) << 16u32)
        | ((b[pos + 3] as u32) << 24u32);
    let b0 = b[pos];
    let b1 = b[pos + 1];
    let b2 = b[pos + 2];
    let b3 = b[pos + 3];
    assert(v as u8 == b0 && (v >> 8u32) as u8 == b1 && (v >> 16u32) as u8 == b2 && (v >> 24u32)
        as u8 == b3) by (bit_vector)
        requires
            v == (b0 as u32) | ((b1 as u32) << 8u32) | ((b2 as u32) << 16u32) | ((b3 as u32)
                << 24u32),
    ;
    assert(enc_u32(v) =~= b@.subrange(pos as int, pos + 4));
    Some(v)
}

} // verus!
