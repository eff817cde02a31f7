//! Packed repeated integers: varints back to back, with no separator. In the
//! delta form each varint is the zigzag of the difference from the previous
//! value (the first from zero); differences and sums wrap at 64 bits.
use vstd::prelude::*;
use crate::tag::{data_field_bytes, field_tag, varint_end, WIRE_DATA};
use crate::varint::{
    varint_at, varint_bytes, varint_fits, read_varint, write_varint, varint_length,
    lemma_varint_bytes_len_u64, lemma_varint_round_trip,
};
use crate::zigzag::{zigzag_of, unzigzag_of, zig_zag, un_zig_zag, lemma_zigzag_round_trip};

verus! {

/// The buffer from `pos` to its end is a run of whole varints.
pub open spec fn varints_fit(s: Seq<u8>, pos: int) -> bool
    decreases s.len() - pos,
{
    if pos >= s.len() {
        true
    } else if !varint_fits(s, pos) || varint_end(s, pos) <= pos {
        false
    } else {
        varints_fit(s, varint_end(s, pos))
    }
}

/// The values of the varints from `pos` to the end of `s`, in order.
pub open spec fn varints_view(s: Seq<u8>, pos: int) -> Seq<u64>
    decreases s.len() - pos,
{
    if pos >= s.len() || !varint_fits(s, pos) || varint_end(s, pos) <= pos {
        Seq::empty()
    } else {
        seq![varint_at(s, pos)] + varints_view(s, varint_end(s, pos))
    }
}

/// The encodings of `vals`, back to back.
pub open spec fn packed_bytes(vals: Seq<u64>) -> Seq<u8>
    decreases vals.len(),
{
    if vals.len() == 0 {
        Seq::empty()
    } else {
        varint_bytes(vals[0] as nat) + packed_bytes(vals.drop_first())
    }
}

/// The zigzag of the difference between `vals[i]` and the value before it
/// (zero before the first).
pub open spec fn delta_of(vals: Seq<i64>, i: int) -> u64 {
    let prev: i64 = if i == 0 {
        0
    } else {
        vals[i - 1]
    };
    zigzag_of(vals[i].wrapping_sub(prev))
}

/// What the delta form stores for `vals`.
pub open spec fn deltas(vals: Seq<i64>) -> Seq<u64> {
    Seq::new(vals.len(), |i: int| delta_of(vals, i))
}

/// The running total of the first `n` decoded differences.
pub open spec fn delta_sum(us: Seq<u64>, n: nat) -> i64
    decreases n,
{
    if n == 0 {
        0
    } else {
        delta_sum(us, (n - 1) as nat).wrapping_add(unzigzag_of(us[n - 1]))
    }
}

/// The values the delta form `us` stands for: each running total in turn.
pub open spec fn undelta(us: Seq<u64>) -> Seq<i64> {
    Seq::new(us.len(), |i: int| delta_sum(us, (i + 1) as nat))
}

proof fn lemma_packed_concat(a: Seq<u64>, b: Seq<u64>)
    ensures
        packed_bytes(a + b) == packed_bytes(a) + packed_bytes(b),
    decreases a.len(),
{
    if a.len() == 0 {
        assert(a + b =~= b);
        assert(packed_bytes(a) + packed_bytes(b) =~= packed_bytes(b));
    } else {
        assert((a + b).drop_first() =~= a.drop_first() + b);
        lemma_packed_concat(a.drop_first(), b);
        assert(packed_bytes(a + b) =~= packed_bytes(a) + packed_bytes(b));
    }
}

proof fn lemma_packed_push(a: Seq<u64>, x: u64)
    ensures
        packed_bytes(a.push(x)) == packed_bytes(a) + varint_bytes(x as nat),
{
    lemma_packed_concat(a, seq![x]);
    assert(a.push(x) =~= a + seq![x]);
    assert(seq![x].drop_first() =~= Seq::<u64>::empty());
    assert(packed_bytes(Seq::<u64>::empty()) =~= Seq::<u8>::empty());
    assert(seq![x][0] == x);
    assert(varint_bytes(x as nat) + Seq::<u8>::empty() =~= varint_bytes(x as nat));
    assert(packed_bytes(seq![x]) =~= varint_bytes(x as nat));
}

/// The varints that `packed_bytes` lays out read back as the values laid
/// out, whatever precedes them.
proof fn lemma_packed_read_back(prefix: Seq<u8>, vals: Seq<u64>)
    ensures
        varints_fit(prefix + packed_bytes(vals), prefix.len() as int),
        varints_view(prefix + packed_bytes(vals), prefix.len() as int) == vals,
    decreases vals.len(),
{
    let s = prefix + packed_bytes(vals);
    let p = prefix.len() as int;
    if vals.len() == 0 {
        assert(vals =~= Seq::<u64>::empty());
    } else {
        let b = varint_bytes(vals[0] as nat);
        let rest = vals.drop_first();
        lemma_varint_round_trip(prefix, vals[0], packed_bytes(rest));
        lemma_varint_bytes_len_u64(vals[0]);
        assert(s =~= prefix + b + packed_bytes(rest));
        assert(s =~= (prefix + b) + packed_bytes(rest));
        lemma_packed_read_back(prefix + b, rest);
        assert(varints_view(s, p) =~= seq![vals[0]] + rest);
    }
}

/// Plain packed integers read back as the values written.
pub proof fn lemma_packed_round_trip(vals: Seq<u64>)
    ensures
        varints_fit(packed_bytes(vals), 0),
        varints_view(packed_bytes(vals), 0) == vals,
{
    lemma_packed_read_back(Seq::empty(), vals);
    assert(Seq::<u8>::empty() + packed_bytes(vals) =~= packed_bytes(vals));
}

proof fn lemma_delta_sum_of_deltas(vals: Seq<i64>, n: nat)
    requires
        n <= vals.len(),
    ensures
        n == 0 ==> delta_sum(deltas(vals), n) == 0,
        n > 0 ==> delta_sum(deltas(vals), n) == vals[n - 1],
    decreases n,
{
    if n > 0 {
        lemma_delta_sum_of_deltas(vals, (n - 1) as nat);
        let prev: i64 = if n == 1 {
            0
        } else {
            vals[n - 2]
        };
        let v = vals[n - 1];
        lemma_zigzag_round_trip(v.wrapping_sub(prev));
        assert(prev.wrapping_add(v.wrapping_sub(prev)) == v);
    }
}

/// Delta-packed integers read back as the values written, for any values:
/// the differences wrap, and so do the sums that undo them.
pub proof fn lemma_delta_round_trip(vals: Seq<i64>)
    ensures
        varints_fit(packed_bytes(deltas(vals)), 0),
        undelta(varints_view(packed_bytes(deltas(vals)), 0)) == vals,
{
    lemma_packed_round_trip(deltas(vals));
    assert forall|i: int| 0 <= i < vals.len() implies #[trigger] undelta(deltas(vals))[i]
        == vals[i] by {
        lemma_delta_sum_of_deltas(vals, (i + 1) as nat);
    }
    assert(undelta(deltas(vals)) =~= vals);
}

/// Counts the varints in `data` by reading through all of it.
fn count_packed_len(data: &[u8]) -> (r: usize)
    requires
        varints_fit(data@, 0),
    ensures
        r == varints_view(data@, 0).len(),
{
    let ghost s = data@;
    let n = data.len();
    let mut pos: usize = 0;
    let mut count: usize = 0;
    while pos < n
        invariant
            data@ == s,
            n == s.len(),
            pos <= n,
            count <= pos,
            varints_fit(s, pos as int),
            count + varints_view(s, pos as int).len() == varints_view(s, 0).len(),
        decreases n - pos,
    {
        pos = read_varint(data, pos).1;
        count += 1;
    }
    count
}

/// A cursor over plain packed integers.
pub struct PackedInt<'a> {
    data: &'a [u8],
    pos: usize,
}

impl<'a> PackedInt<'a> {
    /// The buffer read from.
    pub closed spec fn buffer(&self) -> Seq<u8> {
        self.data@
    }

    /// The position of the next varint.
    pub closed spec fn position(&self) -> int {
        self.pos as int
    }

    /// A cursor at the start of `data`.
    pub fn new(data: &'a [u8]) -> (r: PackedInt<'a>)
        ensures
            r.buffer() == data@,
            r.position() == 0,
    {
        PackedInt { data, pos: 0 }
    }

    /// Reads the next value and moves past it; `None` once the position has
    /// reached the end of the buffer.
    pub fn next(&mut self) -> (r: Option<u64>)
        requires
            old(self).position() < old(self).buffer().len() ==> varint_fits(
                old(self).buffer(),
                old(self).position(),
            ),
        ensures
            final(self).buffer() == old(self).buffer(),
            old(self).position() < old(self).buffer().len() ==> (r == Some(
                varint_at(old(self).buffer(), old(self).position()),
            ) && final(self).position() == varint_end(old(self).buffer(), old(self).position())),
            old(self).position() >= old(self).buffer().len() ==> (r is None && final(self).position()
                == old(self).position()),
    {
        if self.pos < self.data.len() {
            let (t, npos) = read_varint(self.data, self.pos);
            self.pos = npos;
            Some(t)
        } else {
            None
        }
    }

    /// The number of values in the whole buffer, counted by reading it
    /// through: the cost grows with the buffer on every call.
    pub fn len(&self) -> (r: usize)
        requires
            varints_fit(self.buffer(), 0),
        ensures
            r == varints_view(self.buffer(), 0).len(),
    {
        count_packed_len(self.data)
    }
}

/// A cursor over delta-packed integers: it keeps the running total.
pub struct DeltaPackedInt<'a> {
    data: &'a [u8],
    curr: i64,
    pos: usize,
}

impl<'a> DeltaPackedInt<'a> {
    /// The buffer read from.
    pub closed spec fn buffer(&self) -> Seq<u8> {
        self.data@
    }

    /// The position of the next varint.
    pub closed spec fn position(&self) -> int {
        self.pos as int
    }

    /// The last value produced (zero before the first).
    pub closed spec fn current(&self) -> i64 {
        self.curr
    }

    /// A cursor at the start of `data`, with a running total of zero.
    pub fn new(data: &'a [u8]) -> (r: DeltaPackedInt<'a>)
        ensures
            r.buffer() == data@,
            r.position() == 0,
            r.current() == 0,
    {
        DeltaPackedInt { data, curr: 0, pos: 0 }
    }

    /// Reads the next difference, adds it to the running total and returns
    /// the new total; `None` once the position has reached the end.
    pub fn next(&mut self) -> (r: Option<i64>)
        requires
            old(self).position() < old(self).buffer().len() ==> varint_fits(
                old(self).buffer(),
                old(self).position(),
            ),
        ensures
            final(self).buffer() == old(self).buffer(),
            old(self).position() < old(self).buffer().len() ==> (final(self).current()
                == old(self).current().wrapping_add(
                unzigzag_of(varint_at(old(self).buffer(), old(self).position())),
            ) && r == Some(final(self).current()) && final(self).position() == varint_end(
                old(self).buffer(),
                old(self).position(),
            )),
            old(self).position() >= old(self).buffer().len() ==> (r is None && final(self).position()
                == old(self).position() && final(self).current() == old(self).current()),
    {
        if self.pos < self.data.len() {
            let (t, npos) = read_varint(self.data, self.pos);
            let p = un_zig_zag(t);
            self.curr = self.curr.wrapping_add(p);
            self.pos = npos;
            Some(self.curr)
        } else {
            None
        }
    }

    /// The number of values in the whole buffer, counted by reading it
    /// through: the cost grows with the buffer on every call.
    pub fn len(&self) -> (r: usize)
        requires
            varints_fit(self.buffer(), 0),
        ensures
            r == varints_view(self.buffer(), 0).len(),
    {
        count_packed_len(self.data)
    }
}

/// Decodes plain packed integers.
pub fn read_packed_int(data: &[u8]) -> (r: Vec<u64>)
    requires
        varints_fit(data@, 0),
    ensures
        r@ == varints_view(data@, 0),
{
    let ghost s = data@;
    let mut it = PackedInt::new(data);
    let mut res: Vec<u64> = Vec::new();
    let n = data.len();
    while it.pos < n
        invariant
            it.buffer() == s,
            n == s.len(),
            varints_fit(s, it.position()),
            res@ + varints_view(s, it.position()) == varints_view(s, 0),
        decreases n - it.pos,
    {
        let ghost p = it.position();
        let ghost before = res@;
        if let Some(v) = it.next() {
            res.push(v);
            assert(res@ + varints_view(s, it.position()) =~= before + varints_view(s, p));
        }
    }
    assert(varints_view(s, it.position()) =~= Seq::<u64>::empty());
    assert(res@ =~= res@ + varints_view(s, it.position()));
    res
}

/// Decodes delta-packed integers: each value is the running total of the
/// decoded differences.
pub fn read_delta_packed_int(data: &[u8]) -> (r: Vec<i64>)
    requires
        varints_fit(data@, 0),
    ensures
        r@ == undelta(varints_view(data@, 0)),
{
    let ghost s = data@;
    let ghost us = varints_view(s, 0);
    let mut it = DeltaPackedInt::new(data);
    let mut res: Vec<i64> = Vec::new();
    let ghost mut read: Seq<u64> = Seq::empty();
    let n = data.len();
    while it.pos < n
        invariant
            it.buffer() == s,
            n == s.len(),
            us == varints_view(s, 0),
            varints_fit(s, it.position()),
            read + varints_view(s, it.position()) == us,
            res@.len() == read.len(),
            it.current() == delta_sum(us, read.len()),
            forall|i: int| 0 <= i < res@.len() ==> #[trigger] res@[i] == undelta(us)[i],
        decreases n - it.pos,
    {
        let ghost p = it.position();
        let ghost before = res@;
        proof {
            assert(us[read.len() as int] == varint_at(s, p)) by {
                assert(varints_view(s, p)[0] == varint_at(s, p));
                assert(us[read.len() as int] == (read + varints_view(s, p))[read.len() as int]);
            }
        }
        if let Some(v) = it.next() {
            res.push(v);
            proof {
                assert(read.push(varint_at(s, p)) + varints_view(s, it.position()) =~= read
                    + varints_view(s, p));
                read = read.push(varint_at(s, p));
            }
        }
    }
    assert(varints_view(s, it.position()) =~= Seq::<u64>::empty());
    assert(read =~= read + varints_view(s, it.position()));
    assert(res@ =~= undelta(us));
    res
}

fn write_packed(res: &mut Vec<u8>, vals: &[u64])
    ensures
        final(res)@ == old(res)@ + packed_bytes(vals@),
{
    let n = vals.len();
    let mut i: usize = 0;
    while i < n
        invariant
            n == vals@.len(),
            i <= n,
            res@ == old(res)@ + packed_bytes(vals@.take(i as int)),
        decreases n - i,
    {
        proof {
            assert(vals@.take(i + 1) =~= vals@.take(i as int).push(vals@[i as int]));
            lemma_packed_push(vals@.take(i as int), vals@[i as int]);
        }
        write_varint(res, vals[i]);
        i += 1;
    }
    assert(vals@.take(n as int) =~= vals@);
}

fn packed_length(vals: &[u64]) -> (r: usize)
    requires
        packed_bytes(vals@).len() <= usize::MAX,
    ensures
        r == packed_bytes(vals@).len(),
{
    let n = vals.len();
    let mut r: usize = 0;
    let mut i: usize = 0;
    while i < n
        invariant
            n == vals@.len(),
            i <= n,
            packed_bytes(vals@).len() <= usize::MAX,
            r == packed_bytes(vals@.take(i as int)).len(),
        decreases n - i,
    {
        proof {
            assert(vals@.take(i + 1) =~= vals@.take(i as int).push(vals@[i as int]));
            lemma_packed_push(vals@.take(i as int), vals@[i as int]);
            assert(vals@ =~= vals@.take(i + 1) + vals@.skip(i + 1));
            lemma_packed_concat(vals@.take(i + 1), vals@.skip(i + 1));
        }
        r += varint_length(vals[i]);
        i += 1;
    }
    assert(vals@.take(n as int) =~= vals@);
    r
}

/// Encodes `vals` as plain packed integers.
pub fn pack_int(vals: Vec<u64>) -> (r: Vec<u8>)
    ensures
        r@ == packed_bytes(vals@),
{
    pack_int_ref(vals.as_slice())
}

/// Encodes `vals` as plain packed integers.
pub fn pack_int_ref(vals: &[u64]) -> (r: Vec<u8>)
    ensures
        r@ == packed_bytes(vals@),
{
    let mut res: Vec<u8> = Vec::new();
    write_packed(&mut res, vals);
    assert(res@ =~= packed_bytes(vals@));
    res
}

/// Number of bytes `pack_int` produces for `vals`.
pub fn packed_int_length(vals: Vec<u64>) -> (r: usize)
    requires
        packed_bytes(vals@).len() <= usize::MAX,
    ensures
        r == packed_bytes(vals@).len(),
{
    packed_length(vals.as_slice())
}

/// Number of bytes `pack_int_ref` produces for `vals`.
pub fn packed_int_ref_length(vals: &[u64]) -> (r: usize)
    requires
        packed_bytes(vals@).len() <= usize::MAX,
    ensures
        r == packed_bytes(vals@).len(),
{
    packed_length(vals)
}

proof fn lemma_deltas_push(vals: Seq<i64>, i: int)
    requires
        0 <= i < vals.len(),
    ensures
        deltas(vals.take(i + 1)) == deltas(vals.take(i)).push(delta_of(vals, i)),
        deltas(vals) == deltas(vals.take(i + 1)) + deltas(vals).skip(i + 1),
{
    assert(deltas(vals.take(i + 1)) =~= deltas(vals.take(i)).push(delta_of(vals, i)));
    assert(deltas(vals) =~= deltas(vals.take(i + 1)) + deltas(vals).skip(i + 1));
}

fn write_delta_packed(res: &mut Vec<u8>, vals: &[i64])
    ensures
        final(res)@ == old(res)@ + packed_bytes(deltas(vals@)),
{
    let n = vals.len();
    let mut curr: i64 = 0;
    let mut i: usize = 0;
    while i < n
        invariant
            n == vals@.len(),
            i <= n,
            i > 0 ==> curr == vals@[i - 1],
            i == 0 ==> curr == 0,
            res@ == old(res)@ + packed_bytes(deltas(vals@.take(i as int))),
        decreases n - i,
    {
        proof {
            lemma_deltas_push(vals@, i as int);
            lemma_packed_push(deltas(vals@.take(i as int)), delta_of(vals@, i as int));
        }
        let v = vals[i];
        write_varint(res, zig_zag(v.wrapping_sub(curr)));
        curr = v;
        i += 1;
    }
    assert(vals@.take(n as int) =~= vals@);
}

fn delta_packed_length(vals: &[i64]) -> (r: usize)
    requires
        packed_bytes(deltas(vals@)).len() <= usize::MAX,
    ensures
        r == packed_bytes(deltas(vals@)).len(),
{
    let n = vals.len();
    let mut curr: i64 = 0;
    let mut r: usize = 0;
    let mut i: usize = 0;
    while i < n
        invariant
            n == vals@.len(),
            i <= n,
            i > 0 ==> curr == vals@[i - 1],
            i == 0 ==> curr == 0,
            packed_bytes(deltas(vals@)).len() <= usize::MAX,
            r == packed_bytes(deltas(vals@.take(i as int))).len(),
        decreases n - i,
    {
        proof {
            lemma_deltas_push(vals@, i as int);
            lemma_packed_push(deltas(vals@.take(i as int)), delta_of(vals@, i as int));
            lemma_packed_concat(deltas(vals@.take(i + 1)), deltas(vals@).skip(i + 1));
        }
        let v = vals[i];
        r += varint_length(zig_zag(v.wrapping_sub(curr)));
        curr = v;
        i += 1;
    }
    assert(vals@.take(n as int) =~= vals@);
    r
}

/// Encodes `vals` as delta-packed integers.
pub fn pack_delta_int(vals: Vec<i64>) -> (r: Vec<u8>)
    ensures
        r@ == packed_bytes(deltas(vals@)),
{
    pack_delta_int_ref(vals.as_slice())
}

/// Encodes `vals` as delta-packed integers.
pub fn pack_delta_int_ref(vals: &[i64]) -> (r: Vec<u8>)
    ensures
        r@ == packed_bytes(deltas(vals@)),
{
    let mut res: Vec<u8> = Vec::new();
    write_delta_packed(&mut res, vals);
    assert(res@ =~= packed_bytes(deltas(vals@)));
    res
}

/// Number of bytes `pack_delta_int` produces for `vals`.
pub fn packed_delta_int_length(vals: Vec<i64>) -> (r: usize)
    requires
        packed_bytes(deltas(vals@)).len() <= usize::MAX,
    ensures
        r == packed_bytes(deltas(vals@)).len(),
{
    delta_packed_length(vals.as_slice())
}

/// Number of bytes `pack_delta_int_ref` produces for `vals`.
pub fn packed_delta_int_ref_length(vals: &[i64]) -> (r: usize)
    requires
        packed_bytes(deltas(vals@)).len() <= usize::MAX,
    ensures
        r == packed_bytes(deltas(vals@)).len(),
{
    delta_packed_length(vals)
}

/// Appends a length-delimited field whose payload is `vals` delta-packed:
/// the payload's length is computed first, so nothing is written twice.
pub fn write_packed_delta_data(res: &mut Vec<u8>, key: u64, vals: &Vec<i64>)
    requires
        packed_bytes(deltas(vals@)).len() <= usize::MAX,
    ensures
        final(res)@ == old(res)@ + data_field_bytes(key, packed_bytes(deltas(vals@))),
{
    assert((key << 3u64) | 2 == field_tag(key, WIRE_DATA)) by {
        crate::tag::lemma_shl3(key);
    }
    write_varint(res, (key << 3) | 2);
    let l = packed_delta_int_ref_length(vals.as_slice());
    write_varint(res, l as u64);
    write_delta_packed(res, vals.as_slice());
    assert(final(res)@ =~= old(res)@ + data_field_bytes(key, packed_bytes(deltas(vals@))));
}

} // verus!
