//! Tagged fields: a varint tag `field_number << 3 | wire_type` followed by a
//! value whose layout the wire type gives.
use vstd::prelude::*;
use crate::fixed::{be_value, read_uint32, read_uint64};
use crate::varint::{
    varint_at, varint_bytes, varint_fits, varint_size, read_varint, write_varint, varint_length,
    lemma_varint_bytes_len_u64, lemma_varint_round_trip,
};

verus! {

/// Wire type of a varint value.
pub const WIRE_VARINT: u64 = 0;

/// Wire type of a big-endian 8-byte value.
pub const WIRE_FIXED64: u64 = 1;

/// Wire type of a length-delimited byte payload.
pub const WIRE_DATA: u64 = 2;

/// Wire type of a big-endian 4-byte value.
pub const WIRE_FIXED32: u64 = 5;

/// One decoded field. `Data` borrows its bytes from the buffer it was read
/// from.
#[derive(PartialEq, Debug)]
pub enum PbfTag<'a> {
    Value(u64, u64),
    Data(u64, &'a [u8]),
    Null,
}

/// What a decoded field holds, with the payload of `Data` as a sequence.
pub enum TagView {
    Value(u64, u64),
    Data(u64, Seq<u8>),
    Null,
}

impl<'a> PbfTag<'a> {
    pub open spec fn view(&self) -> TagView {
        match *self {
            PbfTag::Value(f, v) => TagView::Value(f, v),
            PbfTag::Data(f, d) => TagView::Data(f, d@),
            PbfTag::Null => TagView::Null,
        }
    }
}

/// The tag word of `key` with the given wire type; the shift drops the top
/// three bits of `key`.
pub open spec fn field_tag(key: u64, wire_type: u64) -> nat {
    (key as nat * 8) % 0x1_0000_0000_0000_0000 + wire_type as nat
}

/// The bytes `pack_value` appends.
pub open spec fn value_field_bytes(key: u64, val: u64) -> Seq<u8> {
    varint_bytes(field_tag(key, WIRE_VARINT)) + varint_bytes(val as nat)
}

/// The bytes `pack_data` appends.
pub open spec fn data_field_bytes(key: u64, data: Seq<u8>) -> Seq<u8> {
    varint_bytes(field_tag(key, WIRE_DATA)) + varint_bytes(data.len()) + data
}

/// Position just past the varint at `pos`.
pub open spec fn varint_end(s: Seq<u8>, pos: int) -> int {
    pos + varint_size(s, pos)
}

/// The length-delimited payload at `pos` (its length prefix included) lies
/// wholly inside `s`.
pub open spec fn data_fits(s: Seq<u8>, pos: int) -> bool {
    varint_fits(s, pos) && varint_end(s, pos) + varint_at(s, pos) <= s.len()
}

/// Everything `read_tag` reads at `pos` lies inside `s`.
pub open spec fn tag_fits(s: Seq<u8>, pos: int) -> bool {
    let t = varint_at(s, pos);
    let p = varint_end(s, pos);
    varint_fits(s, pos) && (t == 0 || (t % 8 == WIRE_VARINT ==> varint_fits(s, p)) && (t % 8
        == WIRE_FIXED64 ==> p + 8 <= s.len()) && (t % 8 == WIRE_DATA ==> data_fits(s, p)) && (t
        % 8 == WIRE_FIXED32 ==> p + 4 <= s.len()))
}

/// The field decoded at `pos`. A zero tag, and a tag of a wire type other
/// than 0, 1, 2 and 5, decode as `Null`.
pub open spec fn tag_view_at(s: Seq<u8>, pos: int) -> TagView {
    let t = varint_at(s, pos);
    let p = varint_end(s, pos);
    let f = t / 8;
    if t == 0 {
        TagView::Null
    } else if t % 8 == WIRE_VARINT {
        TagView::Value(f, varint_at(s, p))
    } else if t % 8 == WIRE_FIXED64 {
        TagView::Value(f, be_value(s.subrange(p, p + 8)) as u64)
    } else if t % 8 == WIRE_DATA {
        TagView::Data(f, s.subrange(varint_end(s, p), varint_end(s, p) + varint_at(s, p)))
    } else if t % 8 == WIRE_FIXED32 {
        TagView::Value(f, be_value(s.subrange(p, p + 4)) as u64)
    } else {
        TagView::Null
    }
}

/// Position just past the field at `pos`. A zero tag, and an unknown wire
/// type, end right after the tag: no value is skipped.
pub open spec fn tag_end(s: Seq<u8>, pos: int) -> int {
    let t = varint_at(s, pos);
    let p = varint_end(s, pos);
    if t == 0 {
        p
    } else if t % 8 == WIRE_VARINT {
        varint_end(s, p)
    } else if t % 8 == WIRE_FIXED64 {
        p + 8
    } else if t % 8 == WIRE_DATA {
        varint_end(s, p) + varint_at(s, p)
    } else if t % 8 == WIRE_FIXED32 {
        p + 4
    } else {
        p
    }
}

/// Reads a length-delimited payload at `pos`: a varint length, then that
/// many bytes, borrowed from `data`.
pub fn read_data<'a>(data: &'a [u8], pos: usize) -> (r: (&'a [u8], usize))
    requires
        data_fits(data@, pos as int),
    ensures
        r.0@ == data@.subrange(
            varint_end(data@, pos as int),
            varint_end(data@, pos as int) + varint_at(data@, pos as int),
        ),
        r.1 == varint_end(data@, pos as int) + varint_at(data@, pos as int),
{
    let n = data.len();
    let (ln, pos) = read_varint(data, pos);
    assert(pos + ln <= n);
    let l = ln as usize;
    (vstd::slice::slice_subrange(data, pos, pos + l), pos + l)
}

/// Reads the field at `pos`; returns it and the position just past it.
pub fn read_tag<'a>(data: &'a [u8], pos: usize) -> (r: (PbfTag<'a>, usize))
    requires
        tag_fits(data@, pos as int),
    ensures
        r.0@ == tag_view_at(data@, pos as int),
        r.1 == tag_end(data@, pos as int),
{
    let n = data.len();
    let (t, pos) = read_varint(data, pos);
    if t == 0 {
        return (PbfTag::Null, pos);
    }
    assert((t & 7) == t % 8 && (t >> 3u64) == t / 8) by (bit_vector);
    if (t & 7) == WIRE_VARINT {
        let (v, pos) = read_varint(data, pos);
        return (PbfTag::Value(t >> 3, v), pos);
    } else if (t & 7) == WIRE_FIXED64 {
        match read_uint64(data, pos) {
            Ok((v, pos)) => {
                return (PbfTag::Value(t >> 3, v), pos);
            },
            Err(_) => {
                return vstd::pervasive::unreached();
            },
        }
    } else if (t & 7) == WIRE_DATA {
        let (s, pos) = read_data(data, pos);
        return (PbfTag::Data(t >> 3, s), pos);
    } else if (t & 7) == WIRE_FIXED32 {
        match read_uint32(data, pos) {
            Ok((v, pos)) => {
                return (PbfTag::Value(t >> 3, v), pos);
            },
            Err(_) => {
                return vstd::pervasive::unreached();
            },
        }
    }
    (PbfTag::Null, pos)
}

pub(crate) proof fn lemma_shl3(key: u64)
    ensures
        (key << 3u64) as nat == field_tag(key, WIRE_VARINT),
        ((key << 3u64) | 2) as nat == field_tag(key, WIRE_DATA),
{
    assert((key << 3u64) == (key * 8) as u64 && ((key << 3u64) | 2) == (key << 3u64) + 2)
        by (bit_vector);
    assert(((key * 8) as u64) as nat == (key as nat * 8) % 0x1_0000_0000_0000_0000) by (bit_vector);
}

/// Appends a varint-valued field: the tag `key << 3`, then `val`.
pub fn pack_value(res: &mut Vec<u8>, key: u64, val: u64)
    ensures
        final(res)@ == old(res)@ + value_field_bytes(key, val),
{
    proof {
        lemma_shl3(key);
    }
    write_varint(res, key << 3);
    write_varint(res, val);
    assert(final(res)@ =~= old(res)@ + value_field_bytes(key, val));
}

/// Appends a length-delimited field: the tag `key << 3 | 2`, the length of
/// `data`, then its bytes.
pub fn pack_data(res: &mut Vec<u8>, key: u64, data: &[u8])
    ensures
        final(res)@ == old(res)@ + data_field_bytes(key, data@),
{
    proof {
        lemma_shl3(key);
    }
    let n = data.len();
    write_varint(res, (key << 3) | 2);
    write_varint(res, n as u64);
    res.extend_from_slice(data);
    assert(final(res)@ =~= old(res)@ + data_field_bytes(key, data@));
}

/// Number of bytes `pack_value` appends for `key` and `val`.
pub fn value_length(key: u64, val: u64) -> (r: usize)
    ensures
        r == value_field_bytes(key, val).len(),
{
    proof {
        lemma_shl3(key);
        lemma_varint_bytes_len_u64(key << 3u64);
        lemma_varint_bytes_len_u64(val);
    }
    varint_length(key << 3) + varint_length(val)
}

/// Number of bytes `pack_data` appends for `key` and a payload of `l` bytes.
pub fn data_length(key: u64, l: usize) -> (r: usize)
    requires
        varint_bytes(field_tag(key, WIRE_DATA)).len() + varint_bytes(l as nat).len() + l
            <= usize::MAX,
    ensures
        r == varint_bytes(field_tag(key, WIRE_DATA)).len() + varint_bytes(l as nat).len() + l,
        forall|d: Seq<u8>| d.len() == l ==> r == #[trigger] data_field_bytes(key, d).len(),
{
    proof {
        lemma_shl3(key);
    }
    varint_length(key << 3 | 2) + varint_length(l as u64) + l
}

/// A field written by `pack_value` reads back, through `read_tag`, as the
/// same field number and value, and the reader stops at its end. The field
/// number must be nonzero (a zero tag reads as `Null`) and below 2^61 (the
/// shift keeps 61 bits of it).
pub proof fn lemma_value_field_round_trip(prefix: Seq<u8>, key: u64, val: u64, suffix: Seq<u8>)
    requires
        0 < key < 0x2000_0000_0000_0000,
    ensures
        tag_fits(prefix + value_field_bytes(key, val) + suffix, prefix.len() as int),
        tag_view_at(prefix + value_field_bytes(key, val) + suffix, prefix.len() as int)
            == TagView::Value(key, val),
        tag_end(prefix + value_field_bytes(key, val) + suffix, prefix.len() as int)
            == prefix.len() + value_field_bytes(key, val).len(),
{
    let t = field_tag(key, WIRE_VARINT);
    assert(t == key * 8);
    let tb = varint_bytes(t);
    let vb = varint_bytes(val as nat);
    let s = prefix + value_field_bytes(key, val) + suffix;
    assert(s =~= prefix + tb + (vb + suffix));
    lemma_varint_round_trip(prefix, t as u64, vb + suffix);
    assert(s =~= (prefix + tb) + vb + suffix);
    lemma_varint_round_trip(prefix + tb, val, suffix);
}

/// A field written by `pack_data` reads back, through `read_tag`, as the
/// same field number and payload, and the reader stops at its end. The field
/// number must be below 2^61 (the shift keeps 61 bits of it).
pub proof fn lemma_data_field_round_trip(prefix: Seq<u8>, key: u64, data: Seq<u8>, suffix: Seq<u8>)
    requires
        key < 0x2000_0000_0000_0000,
        data.len() <= u64::MAX,
    ensures
        tag_fits(prefix + data_field_bytes(key, data) + suffix, prefix.len() as int),
        tag_view_at(prefix + data_field_bytes(key, data) + suffix, prefix.len() as int)
            == TagView::Data(key, data),
        tag_end(prefix + data_field_bytes(key, data) + suffix, prefix.len() as int)
            == prefix.len() + data_field_bytes(key, data).len(),
{
    let t = field_tag(key, WIRE_DATA);
    assert(t == key * 8 + 2);
    assert(t % 8 == 2 && t / 8 == key);
    let tb = varint_bytes(t);
    let lb = varint_bytes(data.len());
    let s = prefix + data_field_bytes(key, data) + suffix;
    assert(s =~= prefix + tb + (lb + data + suffix));
    lemma_varint_round_trip(prefix, t as u64, lb + data + suffix);
    assert(s =~= (prefix + tb) + lb + (data + suffix));
    lemma_varint_round_trip(prefix + tb, data.len() as u64, data + suffix);
    let p = (prefix.len() + tb.len() + lb.len()) as int;
    assert(s.subrange(p, p + data.len()) =~= data);
}

} // verus!
