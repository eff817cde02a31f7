//! ZigZag mapping between signed and unsigned 64-bit integers: small
//! magnitudes of either sign map to small unsigned values.
use vstd::prelude::*;

verus! {

/// The zigzag image of `v`: non-negative values go to the even numbers,
/// negative values to the odd ones (0, -1, 1, -2, ... map to 0, 1, 2, 3, ...).
pub open spec fn zigzag_of(v: i64) -> u64 {
    if v >= 0 {
        (2 * v) as u64
    } else {
        (-2 * v - 1) as u64
    }
}

/// The signed value whose zigzag image is `u`.
pub open spec fn unzigzag_of(u: u64) -> i64 {
    if u % 2 == 0 {
        (u / 2) as i64
    } else {
        (-((u as int + 1) / 2)) as i64
    }
}

/// Encodes a signed value as `(v << 1) ^ (v >> 63)`.
pub fn zig_zag(v: i64) -> (r: u64)
    ensures
        r == zigzag_of(v),
{
    assert((((v << 1u64) ^ (v >> 63u64)) as u64) == zigzag_of(v)) by (bit_vector);
    ((v << 1u64) ^ (v >> 63u64)) as u64
}

/// Decodes a zigzag value: half of it, with all bits flipped when it is odd.
pub fn un_zig_zag(uv: u64) -> (r: i64)
    ensures
        r == unzigzag_of(uv),
{
    let x = (uv >> 1u64) as i64;
    if (uv & 1) != 0 {
        assert((uv & 1) != 0 ==> (((uv >> 1u64) as i64) ^ -1i64) == unzigzag_of(uv)) by (bit_vector);
        return x ^ -1;
    }
    assert((uv & 1) == 0 ==> ((uv >> 1u64) as i64) == unzigzag_of(uv)) by (bit_vector);
    x
}

/// Decoding undoes encoding, for every signed 64-bit value.
pub proof fn lemma_zigzag_round_trip(v: i64)
    ensures
        unzigzag_of(zigzag_of(v)) == v,
{
    assert(unzigzag_of(zigzag_of(v)) == v) by (bit_vector);
}

/// Encoding undoes decoding: the mapping is a bijection.
pub proof fn lemma_unzigzag_round_trip(u: u64)
    ensures
        zigzag_of(unzigzag_of(u)) == u,
{
    assert(zigzag_of(unzigzag_of(u)) == u) by (bit_vector);
}

} // verus!
