use pbf_wire::{
    DecodeError, DeltaPackedInt, IterTags, PackedInt, PbfTag, data_length, pack_data,
    pack_delta_int, pack_delta_int_ref, pack_int, pack_int_ref, pack_value,
    packed_delta_int_length, packed_delta_int_ref_length, packed_int_length,
    packed_int_ref_length, read_data, read_delta_packed_int, read_packed_int, read_tag,
    read_uint32, read_uint64, read_varint, un_zig_zag, value_length, varint_length,
    write_packed_delta_data, write_uint32, write_varint, zig_zag,
};

#[test]
fn test_read_all_tags() {
    let data: Vec<u8> = vec![
        8, 27, 16, 181, 254, 132, 214, 241, 2, 26, 4, 102, 114, 111, 103,
    ];
    let decoded = IterTags::new(&data).to_vec();

    let should_equal = vec![
        PbfTag::Value(1, 27),
        PbfTag::Value(2, 99233120053),
        PbfTag::Data(3, b"frog"),
    ];

    assert_eq!(decoded, should_equal);
}

#[test]
fn test_read_uint32() {
    let data: Vec<u8> = vec![11, 60, 198, 127];
    let (r, p) = read_uint32(&data, 0).unwrap();
    assert_eq!(r, 188532351);
    assert_eq!(p, 4);
}

#[test]
fn test_read_packed_int() {
    let data: Vec<u8> = vec![25, 155, 33, 232, 154, 3, 0];
    let unpacked = read_packed_int(&data);

    assert_eq!(unpacked, vec![25, 33 * 128 + 27, 3 * 128 * 128 + 26 * 128 + 104, 0]);
}

#[test]
fn test_write_tags() {
    let mut res = Vec::new();
    pack_value(&mut res, 1, 27);
    pack_value(&mut res, 2, 99233120053);
    pack_data(&mut res, 3, b"frog");

    let should_equal: Vec<u8> = vec![
        8, 27, 16, 181, 254, 132, 214, 241, 2, 26, 4, 102, 114, 111, 103,
    ];

    assert_eq!(res, should_equal);
}

#[test]
fn test_pack_uint32() {
    let mut res = Vec::new();
    write_uint32(&mut res, 188532351);

    assert_eq!(res, vec![11, 60, 198, 127]);
}

#[test]
fn test_write_packed_int() {
    let vals = vec![25, 33 * 128 + 27, 3 * 128 * 128 + 26 * 128 + 104, 0];
    let packed = pack_int_ref(&vals);

    assert_eq!(packed, vec![25, 155, 33, 232, 154, 3, 0]);
}

#[test]
fn varint_bytes_and_lengths() {
    let cases: Vec<(u64, Vec<u8>)> = vec![
        (0, vec![0]),
        (1, vec![1]),
        (127, vec![127]),
        (128, vec![128, 1]),
        (300, vec![172, 2]),
        (u64::MAX, vec![255, 255, 255, 255, 255, 255, 255, 255, 255, 1]),
    ];
    for (v, bytes) in cases {
        let mut out = Vec::new();
        write_varint(&mut out, v);
        assert_eq!(out, bytes);
        assert_eq!(varint_length(v), bytes.len());
    }
}

#[test]
fn varint_round_trip_in_context() {
    for v in [0u64, 5, 127, 128, 16383, 16384, 1 << 35, (1 << 63) + 17, u64::MAX] {
        let mut buf = vec![9u8, 9];
        write_varint(&mut buf, v);
        buf.push(7);
        let (r, p) = read_varint(&buf, 2);
        assert_eq!(r, v);
        assert_eq!(p, 2 + varint_length(v));
    }
}

#[test]
fn varint_of_ten_bytes_keeps_lowest_bit_of_last() {
    let all_set = vec![0xffu8; 10];
    assert_eq!(read_varint(&all_set, 0), (u64::MAX, 10));
    let mut high = vec![0x80u8; 9];
    high.push(0x02);
    assert_eq!(read_varint(&high, 0), (0, 10));
    let mut longer = vec![0x80u8; 10];
    longer.push(0x05);
    assert_eq!(read_varint(&longer, 0), (0, 10));
}

#[test]
fn zigzag_values() {
    assert_eq!(zig_zag(0), 0);
    assert_eq!(zig_zag(-1), 1);
    assert_eq!(zig_zag(1), 2);
    assert_eq!(zig_zag(-2), 3);
    assert_eq!(zig_zag(i64::MAX), u64::MAX - 1);
    assert_eq!(zig_zag(i64::MIN), u64::MAX);
    assert_eq!(un_zig_zag(3), -2);
    assert_eq!(un_zig_zag(u64::MAX), i64::MIN);
    for v in [0i64, 1, -1, 63, -64, 1 << 40, i64::MIN, i64::MAX] {
        assert_eq!(un_zig_zag(zig_zag(v)), v);
    }
}

#[test]
fn read_uint32_truncated() {
    let data: Vec<u8> = vec![1, 2, 3, 4, 5];
    assert_eq!(read_uint32(&data, 1), Ok((0x02030405, 5)));
    assert_eq!(read_uint32(&data, 2), Err(DecodeError::TruncatedInput));
    assert_eq!(read_uint32(&data, 9), Err(DecodeError::TruncatedInput));
}

#[test]
fn read_uint64_big_endian() {
    let data: Vec<u8> = vec![0, 0, 0, 0, 0, 0, 1, 2];
    assert_eq!(read_uint64(&data, 0), Ok((258, 8)));
    assert_eq!(read_uint64(&data, 1), Err(DecodeError::TruncatedInput));
    let all: Vec<u8> = vec![0x12, 0x34, 0x56, 0x78, 0x9a, 0xbc, 0xde, 0xf0];
    assert_eq!(read_uint64(&all, 0), Ok((0x123456789abcdef0, 8)));
}

#[test]
fn read_tag_fixed_fields() {
    let data: Vec<u8> = vec![13, 11, 60, 198, 127];
    assert_eq!(read_tag(&data, 0), (PbfTag::Value(1, 188532351), 5));
    let data: Vec<u8> = vec![9, 0, 0, 0, 0, 0, 0, 1, 2];
    assert_eq!(read_tag(&data, 0), (PbfTag::Value(1, 258), 9));
}

#[test]
fn read_tag_null_cases() {
    let zero: Vec<u8> = vec![0, 5];
    assert_eq!(read_tag(&zero, 0), (PbfTag::Null, 1));
    let unknown: Vec<u8> = vec![11, 99, 99];
    assert_eq!(read_tag(&unknown, 0), (PbfTag::Null, 1));
}

#[test]
fn read_data_borrows_payload() {
    let data: Vec<u8> = vec![0, 3, 7, 8, 9, 10];
    let (s, p) = read_data(&data, 1);
    assert_eq!(s, &[7u8, 8, 9][..]);
    assert_eq!(p, 5);
    assert!(std::ptr::eq(s.as_ptr(), data[2..].as_ptr()));
}

#[test]
fn tag_round_trips() {
    let mut buf = Vec::new();
    pack_value(&mut buf, 1000, u64::MAX);
    pack_data(&mut buf, 0, b"");
    pack_data(&mut buf, 77, b"payload");
    let tags = IterTags::new(&buf).to_vec();
    assert_eq!(
        tags,
        vec![PbfTag::Value(1000, u64::MAX), PbfTag::Data(0, b""), PbfTag::Data(77, b"payload")]
    );
}

#[test]
fn iter_tags_next_steps() {
    let data: Vec<u8> = vec![8, 27, 26, 1, 5];
    let mut it = IterTags::new(&data);
    assert_eq!(it.next(), Some(PbfTag::Value(1, 27)));
    assert_eq!(it.next(), Some(PbfTag::Data(3, &[5u8][..])));
    assert_eq!(it.next(), None);
}

#[test]
fn field_lengths_match_writers() {
    for (key, val) in [(1u64, 27u64), (2, 99233120053), (1 << 20, u64::MAX), (0, 0)] {
        let mut buf = vec![1u8];
        pack_value(&mut buf, key, val);
        assert_eq!(value_length(key, val), buf.len() - 1);
    }
    assert_eq!(value_length(2, 99233120053), 7);
    for (key, data) in [(3u64, &b"frog"[..]), (5000, &[0u8; 200][..]), (0, &[][..])] {
        let mut buf = Vec::new();
        pack_data(&mut buf, key, data);
        assert_eq!(data_length(key, data.len()), buf.len());
    }
    assert_eq!(data_length(3, 4), 6);
}

#[test]
fn packed_lengths_match_writers() {
    let vals: Vec<u64> = vec![0, 1, 300, u64::MAX, 1 << 40];
    assert_eq!(packed_int_length(vals.clone()), pack_int(vals.clone()).len());
    assert_eq!(packed_int_ref_length(&vals), pack_int_ref(&vals).len());
    assert_eq!(packed_int_ref_length(&vals), 1 + 1 + 2 + 10 + 6);
    let deltas: Vec<i64> = vec![5, 3, 10, i64::MIN, i64::MAX];
    assert_eq!(packed_delta_int_length(deltas.clone()), pack_delta_int(deltas.clone()).len());
    assert_eq!(packed_delta_int_ref_length(&deltas), pack_delta_int_ref(&deltas).len());
    assert_eq!(packed_int_length(Vec::new()), 0);
}

#[test]
fn delta_packing_exact_bytes() {
    assert_eq!(pack_delta_int(vec![5, 3, 10]), vec![10, 3, 14]);
    assert_eq!(read_delta_packed_int(&[10, 3, 14]), vec![5, 3, 10]);
    let mut out = vec![0xaau8];
    write_packed_delta_data(&mut out, 4, &vec![5, 3, 10]);
    assert_eq!(out, vec![0xaa, 34, 3, 10, 3, 14]);
}

#[test]
fn delta_round_trip_with_large_swings() {
    let vals: Vec<i64> = vec![0, i64::MAX, i64::MIN, -1, 0, i64::MIN, i64::MAX, 42, -42];
    assert_eq!(read_delta_packed_int(&pack_delta_int_ref(&vals)), vals);
    assert_eq!(read_delta_packed_int(&pack_delta_int(Vec::new())), Vec::<i64>::new());
}

#[test]
fn packed_round_trip() {
    let vals: Vec<u64> = vec![u64::MAX, 0, 128, 1 << 62];
    assert_eq!(read_packed_int(&pack_int(vals.clone())), vals);
}

#[test]
fn packed_cursors_count_and_step() {
    let data: Vec<u8> = vec![25, 155, 33, 232, 154, 3, 0];
    let mut p = PackedInt::new(&data);
    assert_eq!(p.len(), 4);
    assert_eq!(p.next(), Some(25));
    assert_eq!(p.next(), Some(4251));
    assert_eq!(p.len(), 4);
    let bytes: Vec<u8> = vec![10, 3, 14];
    let mut d = DeltaPackedInt::new(&bytes);
    assert_eq!(d.len(), 3);
    assert_eq!(d.next(), Some(5));
    assert_eq!(d.next(), Some(3));
    assert_eq!(d.next(), Some(10));
    assert_eq!(d.next(), None);
}
