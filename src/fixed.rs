//! Fixed-width 32- and 64-bit fields, stored big-endian.
use vstd::prelude::*;
use crate::error::DecodeError;

verus! {

/// The number the bytes of `s` spell, most significant byte first.
pub open spec fn be_value(s: Seq<u8>) -> nat
    decreases s.len(),
{
    if s.len() == 0 {
        0
    } else {
        be_value(s.drop_last()) * 256 + s.last() as nat
    }
}

/// The four bytes of `v`, most significant first.
pub open spec fn be_bytes32(v: u32) -> Seq<u8> {
    seq![
        (v / 0x100_0000) as u8,
        (v / 0x1_0000 % 256) as u8,
        (v / 0x100 % 256) as u8,
        (v % 256) as u8,
    ]
}

/// Reads the big-endian 4-byte field at `pos`; returns its value and the
/// position just past it, or `TruncatedInput` when fewer than 4 bytes remain.
pub fn read_uint32(data: &[u8], pos: usize) -> (r: Result<(u64, usize), DecodeError>)
    ensures
        pos + 4 <= data@.len() ==> r == Ok::<(u64, usize), DecodeError>(
            (be_value(data@.subrange(pos as int, pos + 4)) as u64, (pos + 4) as usize),
        ),
        pos + 4 > data@.len() ==> r == Err::<(u64, usize), DecodeError>(DecodeError::TruncatedInput),
{
    let n = data.len();
    if pos > n || n - pos < 4 {
        return Err(DecodeError::TruncatedInput);
    }
    let mut res: u64 = 0;
    res |= data[pos + 3] as u64;
    res |= (data[pos + 2] as u64) << 8;
    res |= (data[pos + 1] as u64) << 16;
    res |= (data[pos + 0] as u64) << 24;
    proof {
        let t = data@.subrange(pos as int, pos + 4);
        let (a, b, c, d) = (t[0], t[1], t[2], t[3]);
        reveal_with_fuel(be_value, 5);
        assert(t.drop_last().drop_last().drop_last().drop_last() =~= Seq::<u8>::empty());
        assert(0u64 | (d as u64) | ((c as u64) << 8u64) | ((b as u64) << 16u64) | ((a as u64)
            << 24u64) == a as u64 * 0x100_0000 + b as u64 * 0x1_0000 + c as u64 * 0x100 + d as u64)
            by (bit_vector);
    }
    Ok((res, pos + 4))
}

/// Reads the big-endian 8-byte field at `pos`; returns its value and the
/// position just past it, or `TruncatedInput` when fewer than 8 bytes remain.
pub fn read_uint64(data: &[u8], pos: usize) -> (r: Result<(u64, usize), DecodeError>)
    ensures
        pos + 8 <= data@.len() ==> r == Ok::<(u64, usize), DecodeError>(
            (be_value(data@.subrange(pos as int, pos + 8)) as u64, (pos + 8) as usize),
        ),
        pos + 8 > data@.len() ==> r == Err::<(u64, usize), DecodeError>(DecodeError::TruncatedInput),
{
    let n = data.len();
    if pos > n || n - pos < 8 {
        return Err(DecodeError::TruncatedInput);
    }
    let mut res: u64 = 0;
    res |= data[pos + 7] as u64;
    res |= (data[pos + 6] as u64) << 8;
    res |= (data[pos + 5] as u64) << 16;
    res |= (data[pos + 4] as u64) << 24;
    res |= (data[pos + 3] as u64) << 32;
    res |= (data[pos + 2] as u64) << 40;
    res |= (data[pos + 1] as u64) << 48;
    res |= (data[pos + 0] as u64) << 56;
    proof {
        let t = data@.subrange(pos as int, pos + 8);
        let (b0, b1, b2, b3, b4, b5, b6, b7) = (t[0], t[1], t[2], t[3], t[4], t[5], t[6], t[7]);
        reveal_with_fuel(be_value, 9);
        assert(t.drop_last().drop_last().drop_last().drop_last().drop_last().drop_last().drop_last().drop_last()
            =~= Seq::<u8>::empty());
        assert(0u64 | (b7 as u64) | ((b6 as u64) << 8u64) | ((b5 as u64) << 16u64) | ((b4 as u64)
            << 24u64) | ((b3 as u64) << 32u64) | ((b2 as u64) << 40u64) | ((b1 as u64) << 48u64)
            | ((b0 as u64) << 56u64) == b0 as u64 * 0x100_0000_0000_0000 + b1 as u64
            * 0x1_0000_0000_0000 + b2 as u64 * 0x100_0000_0000 + b3 as u64 * 0x1_0000_0000
            + b4 as u64 * 0x100_0000 + b5 as u64 * 0x1_0000 + b6 as u64 * 0x100 + b7 as u64)
            by (bit_vector);
    }
    Ok((res, pos + 8))
}

/// Appends `val` as four bytes, most significant first.
pub fn write_uint32(res: &mut Vec<u8>, val: u32)
    ensures
        final(res)@ == old(res)@ + be_bytes32(val),
{
    let b0 = ((val >> 24) & 0xff) as u8;
    let b1 = ((val >> 16) & 0xff) as u8;
    let b2 = ((val >> 8) & 0xff) as u8;
    let b3 = ((val) & 0xff) as u8;
    assert(((val >> 24u32) & 0xff) as u8 == (val / 0x100_0000) as u8) by (bit_vector);
    assert(((val >> 16u32) & 0xff) as u8 == (val / 0x1_0000 % 256) as u8) by (bit_vector);
    assert(((val >> 8u32) & 0xff) as u8 == (val / 0x100 % 256) as u8) by (bit_vector);
    assert(((val) & 0xff) as u8 == (val % 256) as u8) by (bit_vector);
    res.push(b0);
    res.push(b1);
    res.push(b2);
    res.push(b3);
    assert(final(res)@ =~= old(res)@ + be_bytes32(val));
}

/// A 4-byte field written by `write_uint32` reads back as the value written.
pub proof fn lemma_uint32_round_trip(v: u32)
    ensures
        be_value(be_bytes32(v)) == v,
{
    let t = be_bytes32(v);
    reveal_with_fuel(be_value, 5);
    assert(t.drop_last().drop_last().drop_last().drop_last() =~= Seq::<u8>::empty());
    let x = v as int;
    assert(t[0] == x / 0x100_0000 && t[1] == x / 0x1_0000 % 256 && t[2] == x / 0x100 % 256
        && t[3] == x % 256);
    assert(((x / 0x100_0000 * 256 + x / 0x1_0000 % 256) * 256 + x / 0x100 % 256) * 256 + x % 256
        == x) by {
        assert(x / 0x1_0000 == (x / 0x100_0000) * 256 + x / 0x1_0000 % 256);
        assert(x / 0x100 == (x / 0x1_0000) * 256 + x / 0x100 % 256);
        assert(x == (x / 0x100) * 256 + x % 256);
    }
}

} // verus!
