//! Big-endian integer encoding and bounds-checked reads.
use vstd::prelude::*;

use crate::message::DecodeError;

verus! {

/// Two bytes, most significant first.
pub open spec fn be16(v: u16) -> Seq<u8> {
    seq![(v / 256) as u8, (v % 256) as u8]
}

/// Four bytes, most significant first.
pub open spec fn be32(v: u32) -> Seq<u8> {
    seq![(v / 0x100_0000) as u8, ((v / 0x1_0000) % 256) as u8, ((v / 256) % 256) as u8, (v % 256) as u8]
}

/// The big-endian `u16` stored at `pos`.
pub open spec fn u16_at(buf: Seq<u8>, pos: int) -> u16 {
    (buf[pos] * 256 + buf[pos + 1]) as u16
}

/// The big-endian `u32` stored at `pos`.
pub open spec fn u32_at(buf: Seq<u8>, pos: int) -> u32 {
    (buf[pos] * 0x100_0000 + buf[pos + 1] * 0x1_0000 + buf[pos + 2] * 256 + buf[pos + 3]) as u32
}

pub proof fn lemma_be16_u16_at(v: u16)
    ensures
        be16(v).len() == 2,
        u16_at(be16(v), 0) == v,
{
}

pub proof fn lemma_be32_u32_at(v: u32)
    ensures
        be32(v).len() == 4,
        u32_at(be32(v), 0) == v,
{
}

/// Appends `v` in network byte order.
pub fn push_u16(out: &mut Vec<u8>, v: u16)
    ensures
        final(out)@ == old(out)@ + be16(v),
{
    let hi = (v >> 8u16) as u8;
    let lo = (v & 0xffu16) as u8;
    assert(hi == (v / 256) as u8 && lo == (v % 256) as u8) by (bit_vector)
        requires
            hi == (v >> 8u16) as u8,
            lo == (v & 0xffu16) as u8,
    ;
    out.push(hi);
    out.push(lo);
    assert(final(out)@ =~= old(out)@ + be16(v));
}

/// Appends `v` in network byte order.
pub fn push_u32(out: &mut Vec<u8>, v: u32)
    ensures
        final(out)@ == old(out)@ + be32(v),
{
    let b0 = (v >> 24u32) as u8;
    let b1 = ((v >> 16u32) & 0xffu32) as u8;
    let b2 = ((v >> 8u32) & 0xffu32) as u8;
    let b3 = (v & 0xffu32) as u8;
    assert(b0 == (v / 0x100_0000) as u8 && b1 == ((v / 0x1_0000) % 256) as u8 && b2 == ((v
        / 256) % 256) as u8 && b3 == (v % 256) as u8) by (bit_vector)
        requires
            b0 == (v >> 24u32) as u8,
            b1 == ((v >> 16u32) & 0xffu32) as u8,
            b2 == ((v >> 8u32) & 0xffu32) as u8,
            b3 == (v & 0xffu32) as u8,
    ;
    out.push(b0);
    out.push(b1);
    out.push(b2);
    out.push(b3);
    assert(final(out)@ =~= old(out)@ + be32(v));
}


/// Reads one byte at `*pos` and advances past it.
pub fn read_u8(buf: &[u8], pos: &mut usize) -> (res: Result<u8, DecodeError>)
    ensures
        *old(pos) < buf@.len() ==> res == Ok::<u8, DecodeError>(buf@[*old(pos) as int]) && *final(pos)
            == *old(pos) + 1,
        *old(pos) >= buf@.len() ==> res == Err::<u8, DecodeError>(DecodeError::UnexpectedEof)
            && *final(pos) == *old(pos),
{
    if *pos >= buf.len() {
        return Err(DecodeError::UnexpectedEof);
    }
    let v = buf[*pos];
    *pos = *pos + 1;
    Ok(v)
}

/// Reads a big-endian `u16` at `*pos` and advances past it.
pub fn read_u16(buf: &[u8], pos: &mut usize) -> (res: Result<u16, DecodeError>)
    ensures
        *old(pos) + 2 <= buf@.len() ==> res == Ok::<u16, DecodeError>(u16_at(buf@, *old(pos) as int))
            && *final(pos) == *old(pos) + 2,
        *old(pos) + 2 > buf@.len() ==> res == Err::<u16, DecodeError>(DecodeError::UnexpectedEof)
            && *final(pos) == *old(pos),
{
    if *pos > buf.len() || buf.len() - *pos < 2 {
        return Err(DecodeError::UnexpectedEof);
    }
    let p = *pos;
    let hi = buf[p];
    let lo = buf[p + 1];
    let v = ((hi as u16) << 8u16) | (lo as u16);
    assert(v == (hi * 256 + lo) as u16) by (bit_vector)
        requires
            v == ((hi as u16) << 8u16) | (lo as u16),
    ;
    *pos = p + 2;
    Ok(v)
}

/// Reads a big-endian `u32` at `*pos` and advances past it.
pub fn read_u32(buf: &[u8], pos: &mut usize) -> (res: Result<u32, DecodeError>)
    ensures
        *old(pos) + 4 <= buf@.len() ==> res == Ok::<u32, DecodeError>(u32_at(buf@, *old(pos) as int))
            && *final(pos) == *old(pos) + 4,
        *old(pos) + 4 > buf@.len() ==> res == Err::<u32, DecodeError>(DecodeError::UnexpectedEof)
            && *final(pos) == *old(pos),
{
    if *pos > buf.len() || buf.len() - *pos < 4 {
        return Err(DecodeError::UnexpectedEof);
    }
    let p = *pos;
    let b0 = buf[p];
    let b1 = buf[p + 1];
    let b2 = buf[p + 2];
    let b3 = buf[p + 3];
    let v = ((b0 as u32) << 24u32) | ((b1 as u32) << 16u32) | ((b2 as u32) << 8u32) | (b3 as u32);
    assert(v == (b0 * 0x100_0000 + b1 * 0x1_0000 + b2 * 256 + b3) as u32) by (bit_vector)
        requires
            v == ((b0 as u32) << 24u32) | ((b1 as u32) << 16u32) | ((b2 as u32) << 8u32) | (
            b3 as u32),
    ;
    *pos = p + 4;
    Ok(v)
}

} // verus!
