//! Variable-length unsigned integers: seven payload bits per byte, least
//! significant group first, the high bit set on every byte but the last.
use vstd::prelude::*;
use vstd::arithmetic::power2::{pow2, lemma2_to64, lemma_pow2_adds, lemma_pow2_strictly_increases};
use vstd::arithmetic::div_mod::{lemma_small_mod, lemma_mod_multiples_vanish, lemma_fundamental_div_mod};
use vstd::bits::lemma_u64_shl_is_mul;

verus! {

/// The most bytes a varint occupies.
pub const MAX_VARINT_LEN: usize = 10;

/// The bytes that encode `v`: its base-128 digits, least significant first,
/// with the continuation bit set on all digits but the last.
pub open spec fn varint_bytes(v: nat) -> Seq<u8>
    decreases v,
{
    if v < 128 {
        seq![v as u8]
    } else {
        seq![(v % 128 + 128) as u8] + varint_bytes(v / 128)
    }
}

/// The number the 7-bit groups of `s` spell, least significant group first.
pub open spec fn groups_value(s: Seq<u8>) -> nat
    decreases s.len(),
{
    if s.len() == 0 {
        0
    } else {
        (s[0] % 128) as nat + 128 * groups_value(s.drop_first())
    }
}

/// How many bytes a reader starting at `pos` takes, given that it has already
/// passed `i` bytes with the continuation bit: it stops after the first byte
/// without that bit, or after the tenth byte. A byte that lies past the end of
/// `s` counts as the last one, so that the varint fits in `s` exactly when
/// `pos + varint_size(s, pos) <= s.len()`.
pub open spec fn varint_size_from(s: Seq<u8>, pos: int, i: nat) -> nat
    decreases 10 - i,
{
    if i >= 9 || pos + i >= s.len() || s[pos + i] < 128 {
        i + 1
    } else {
        varint_size_from(s, pos, i + 1)
    }
}

/// How many bytes the varint at `pos` takes (between 1 and 10).
pub open spec fn varint_size(s: Seq<u8>, pos: int) -> nat {
    varint_size_from(s, pos, 0)
}

/// The varint at `pos` lies wholly inside `s`.
pub open spec fn varint_fits(s: Seq<u8>, pos: int) -> bool {
    0 <= pos && pos + varint_size(s, pos) <= s.len()
}

/// The value of the varint at `pos`: its groups taken modulo 2^64, so that a
/// tenth byte adds only its lowest bit.
pub open spec fn varint_at(s: Seq<u8>, pos: int) -> u64 {
    (groups_value(s.subrange(pos, pos + varint_size(s, pos))) % 0x1_0000_0000_0000_0000) as u64
}

proof fn lemma_size_from_bounds(s: Seq<u8>, pos: int, i: nat)
    requires
        i <= 9,
    ensures
        i + 1 <= varint_size_from(s, pos, i) <= 10,
    decreases 10 - i,
{
    if !(i >= 9 || pos + i >= s.len() || s[pos + i] < 128) {
        lemma_size_from_bounds(s, pos, i + 1);
    }
}

proof fn lemma_pow2_7(i: nat)
    ensures
        pow2(7 * (i + 1)) == 128 * pow2(7 * i),
{
    lemma2_to64();
    lemma_pow2_adds(7 * i, 7);
    assert(7 * (i + 1) == 7 * i + 7);
}

/// Appending a byte adds its group at the next position.
proof fn lemma_groups_push(t: Seq<u8>, b: u8)
    ensures
        groups_value(t.push(b)) == groups_value(t) + (b % 128) as nat * pow2(7 * t.len()),
        groups_value(t) < pow2(7 * t.len()),
    decreases t.len(),
{
    lemma2_to64();
    if t.len() == 0 {
        assert(t.push(b).drop_first() =~= Seq::<u8>::empty());
        assert(groups_value(Seq::<u8>::empty()) == 0);
        assert(groups_value(t.push(b)) == (b % 128) as nat);
        assert(pow2(7 * t.len()) == 1);
    } else {
        let rest = t.drop_first();
        assert(t.push(b).drop_first() =~= rest.push(b));
        assert(t.push(b)[0] == t[0]);
        lemma_groups_push(rest, b);
        lemma_pow2_7(rest.len());
        let g = groups_value(rest);
        let p = pow2(7 * rest.len());
        let c = (b % 128) as nat;
        assert(128 * (g + c * p) == 128 * g + c * (128 * p)) by (nonlinear_arith);
        assert(groups_value(t.push(b)) == (t[0] % 128) as nat + 128 * groups_value(rest.push(b)));
        assert(groups_value(t) == (t[0] % 128) as nat + 128 * g);
        assert(7 * t.len() == 7 * (rest.len() + 1));
        assert(g < p ==> (t[0] % 128) as nat + 128 * g < 128 * p) by (nonlinear_arith)
            requires
                (t[0] % 128) < 128,
        ;
    }
}

/// The OR of a value below `2^sh` with a group shifted by `sh` adds them.
proof fn lemma_or_shifted_group(res: u64, y: u64, sh: u64)
    requires
        sh <= 63,
        res < (1u64 << sh),
        y < 128,
    ensures
        (res | (y << sh)) == res + (y << sh),
{
    assert(sh <= 63 && res < (1u64 << sh) && y < 128 ==> (res | (y << sh)) == res + (y << sh))
        by (bit_vector);
}

/// One step of the reader: `res` holds the value of the first `i` bytes, and
/// the OR of the next group gives the value of the first `i + 1` bytes.
proof fn lemma_read_step(t: Seq<u8>, x: u8, res: u64)
    requires
        t.len() <= 9,
        res as nat == groups_value(t),
    ensures
        ((res | (((x & 127) as u64) << (7 * t.len()) as u64)) as nat)
            == groups_value(t.push(x)) % 0x1_0000_0000_0000_0000,
        t.len() < 9 ==> groups_value(t.push(x)) < pow2(7 * (t.len() + 1)),
        t.len() < 9 ==> pow2(7 * (t.len() + 1)) <= 0x8000_0000_0000_0000,
{
    let i = t.len();
    let y = (x & 127) as u64;
    assert(y == x % 128) by (bit_vector)
        requires
            y == (x & 127) as u64,
    ;
    lemma_groups_push(t, x);
    lemma_pow2_7(i);
    lemma2_to64();
    lemma_pow2_adds(32, 31);
    let sh = (7 * i) as u64;
    if i < 9 {
        lemma_pow2_strictly_increases(7 * i, 63);
        if 7 * (i + 1) < 63 {
            lemma_pow2_strictly_increases(7 * (i + 1), 63);
        }
        assert(y * pow2(7 * i) <= 127 * pow2(7 * i)) by (nonlinear_arith)
            requires
                y < 128,
        ;
        lemma_u64_shl_is_mul(y, sh);
        lemma_u64_shl_is_mul(1, sh);
        lemma_or_shifted_group(res, y, sh);
        let g = groups_value(t.push(x));
        assert(g < pow2(7 * (i + 1))) by {
            assert(groups_value(t) + y * pow2(7 * i) < pow2(7 * i) + 127 * pow2(7 * i));
        }
        lemma_small_mod(g, 0x1_0000_0000_0000_0000);
    } else {
        assert(sh == 63);
        assert(res < 0x8000_0000_0000_0000 && y < 128 ==> (res | (y << 63u64)) == res + (y % 2)
            * 0x8000_0000_0000_0000) by (bit_vector);
        let q = y / 2;
        let r = y % 2;
        assert(y * 0x8000_0000_0000_0000 == 0x1_0000_0000_0000_0000 * q + r * 0x8000_0000_0000_0000)
            by (nonlinear_arith)
            requires
                q == y / 2,
                r == y % 2,
        ;
        lemma_mod_multiples_vanish(
            q as int,
            groups_value(t) + r * 0x8000_0000_0000_0000,
            0x1_0000_0000_0000_0000,
        );
        lemma_small_mod(
            (groups_value(t) + r * 0x8000_0000_0000_0000) as nat,
            0x1_0000_0000_0000_0000,
        );
    }
}

/// Reads the varint at `pos`; returns its value and the position just past it.
pub fn read_varint(data: &[u8], pos: usize) -> (r: (u64, usize))
    requires
        varint_fits(data@, pos as int),
    ensures
        r.0 == varint_at(data@, pos as int),
        r.1 == pos + varint_size(data@, pos as int),
{
    let ghost s = data@;
    let n = data.len();
    let mut res: u64 = 0;
    let mut i: usize = 0;
    proof {
        lemma_size_from_bounds(s, pos as int, 0);
        lemma2_to64();
        assert(s.subrange(pos as int, pos as int) =~= Seq::<u8>::empty());
        assert(groups_value(Seq::<u8>::empty()) == 0);
    }
    while i < MAX_VARINT_LEN
        invariant
            i <= 10,
            varint_fits(s, pos as int),
            data@ == s,
            n == s.len(),
            i <= 9 ==> varint_size(s, pos as int) == varint_size_from(s, pos as int, i as nat),
            i == 10 ==> varint_size(s, pos as int) == 10,
            pos + i <= s.len(),
            res as nat == groups_value(s.subrange(pos as int, pos + i)) % 0x1_0000_0000_0000_0000,
            i <= 9 ==> groups_value(s.subrange(pos as int, pos + i)) < pow2(7 * i as nat),
            i <= 9 ==> pow2(7 * i as nat) <= 0x8000_0000_0000_0000,
        decreases 10 - i,
    {
        proof {
            lemma_size_from_bounds(s, pos as int, i as nat);
            lemma2_to64();
            lemma_small_mod(groups_value(s.subrange(pos as int, pos + i)), 0x1_0000_0000_0000_0000);
            assert(pos + i < s.len());
        }
        let x = data[pos + i];
        let y = (x & 127) as u64;
        proof {
            let t = s.subrange(pos as int, pos + i);
            assert(s.subrange(pos as int, pos + i + 1) =~= t.push(x));
            lemma_read_step(t, x, res);
        }
        res |= y << (7 * i as u64);
        if (x & 128) == 0 {
            assert(x < 128) by (bit_vector)
                requires
                    (x & 128) == 0,
            ;
            return (res, pos + i + 1);
        }
        assert(x >= 128) by (bit_vector)
            requires
                (x & 128) != 0,
        ;
        i += 1;
    }
    (res, pos + MAX_VARINT_LEN)
}

/// Appends the varint encoding of `val`.
pub fn write_varint(res: &mut Vec<u8>, val: u64)
    ensures
        final(res)@ == old(res)@ + varint_bytes(val as nat),
{
    let mut v = val;
    while v > 0x7f
        invariant
            res@ + varint_bytes(v as nat) == old(res)@ + varint_bytes(val as nat),
        decreases v,
    {
        let b = ((v & 0x7f) | 0x80) as u8;
        assert(b == (v % 128 + 128) as u8 && (v >> 7u64) == v / 128) by (bit_vector)
            requires
                b == ((v & 0x7f) | 0x80) as u8,
                v > 0x7f,
        ;
        let ghost before = res@;
        res.push(b);
        v >>= 7;
        assert(before + varint_bytes((v * 128 + b % 128) as nat) =~= res@ + varint_bytes(v as nat));
    }
    res.push(v as u8);
    assert(res@ =~= old(res)@ + varint_bytes(val as nat));
}

/// A varint encoding is never empty, and a value below `2^(7k)` takes at
/// most `k` bytes.
pub proof fn lemma_varint_bytes_len(v: nat, k: nat)
    requires
        k >= 1,
        v < pow2(7 * k),
    ensures
        1 <= varint_bytes(v).len() <= k,
    decreases v,
{
    if v >= 128 {
        lemma_pow2_7((k - 1) as nat);
        assert(k - 1 >= 1) by {
            if k == 1 {
                lemma2_to64();
            }
        }
        assert(v / 128 < pow2(7 * (k - 1) as nat));
        lemma_varint_bytes_len(v / 128, (k - 1) as nat);
    }
}

/// Every 64-bit value takes between 1 and 10 bytes.
pub proof fn lemma_varint_bytes_len_u64(v: u64)
    ensures
        1 <= varint_bytes(v as nat).len() <= 10,
{
    lemma2_to64();
    lemma_pow2_strictly_increases(64, 70);
    lemma_varint_bytes_len(v as nat, 10);
}

/// Number of bytes `write_varint` appends for `val`.
pub fn varint_length(val: u64) -> (r: usize)
    ensures
        r == varint_bytes(val as nat).len(),
{
    let mut v = val;
    let mut l: usize = 1;
    proof {
        lemma_varint_bytes_len_u64(val);
    }
    while v > 0x7f
        invariant
            l + varint_bytes(v as nat).len() == varint_bytes(val as nat).len() + 1,
            varint_bytes(val as nat).len() <= 10,
        decreases v,
    {
        proof {
            lemma_varint_bytes_len_u64((v / 128) as u64);
        }
        assert((v >> 7u64) == v / 128) by (bit_vector);
        l += 1;
        v >>= 7;
    }
    l
}

proof fn lemma_bytes_nonempty(w: nat)
    ensures
        varint_bytes(w).len() >= 1,
{
}

proof fn lemma_groups_of_bytes(w: nat)
    ensures
        groups_value(varint_bytes(w)) == w,
    decreases w,
{
    let b = varint_bytes(w);
    lemma_fundamental_div_mod(w as int, 128);
    if w >= 128 {
        lemma_groups_of_bytes(w / 128);
        assert(b.drop_first() =~= varint_bytes(w / 128));
        assert(b[0] % 128 == w % 128);
    } else {
        assert(b.drop_first() =~= Seq::<u8>::empty());
        assert(groups_value(Seq::<u8>::empty()) == 0);
    }
}

proof fn lemma_size_of_bytes(s: Seq<u8>, pos: int, i: nat, w: nat)
    requires
        0 <= pos,
        pos + i + varint_bytes(w).len() <= s.len(),
        s.subrange(pos + i, pos + i + varint_bytes(w).len()) == varint_bytes(w),
        i + varint_bytes(w).len() <= 10,
    ensures
        varint_size_from(s, pos, i) == i + varint_bytes(w).len(),
    decreases w,
{
    let b = varint_bytes(w);
    assert(s[pos + i] == b[0]) by {
        assert(s.subrange(pos + i, pos + i + b.len())[0] == s[pos + i]);
    }
    if w >= 128 {
        let rest = varint_bytes(w / 128);
        lemma_bytes_nonempty(w / 128);
        assert(s.subrange(pos + (i + 1), pos + (i + 1) + rest.len()) =~= rest) by {
            assert(b.drop_first() =~= rest);
            assert(s.subrange(pos + (i + 1), pos + (i + 1) + rest.len())
                =~= s.subrange(pos + i, pos + i + b.len()).drop_first());
        }
        lemma_size_of_bytes(s, pos, i + 1, w / 128);
    }
}

/// A varint written by `write_varint` reads back as the value it encodes,
/// whatever bytes precede and follow it, and the reader stops exactly at
/// its end.
pub proof fn lemma_varint_round_trip(prefix: Seq<u8>, v: u64, suffix: Seq<u8>)
    ensures
        varint_fits(prefix + varint_bytes(v as nat) + suffix, prefix.len() as int),
        varint_size(prefix + varint_bytes(v as nat) + suffix, prefix.len() as int)
            == varint_bytes(v as nat).len(),
        varint_at(prefix + varint_bytes(v as nat) + suffix, prefix.len() as int) == v,
{
    let b = varint_bytes(v as nat);
    let s = prefix + b + suffix;
    let p = prefix.len() as int;
    lemma_varint_bytes_len_u64(v);
    assert(s.subrange(p, p + b.len()) =~= b);
    lemma_size_of_bytes(s, p, 0, v as nat);
    lemma_groups_of_bytes(v as nat);
    lemma_small_mod(v as nat, 0x1_0000_0000_0000_0000);
}

} // verus!
