use sc2replay::bitpacked::BitPackedDecoder;
use sc2replay::replay::{decode_bitpacked_events, decode_details};
use sc2replay::error::DecodeError;
use sc2replay::replay::decode_events;
use sc2replay::schema::{Int, ProtocolTypeInfo, Struct};
use sc2replay::value::DecoderResult;
use sc2replay::versioned::VersionedDecoder;

fn field(name: &str, typeid: u8, tag: i64) -> Struct {
    Struct(name.to_string(), typeid, tag)
}

/// Encodes `v` the way the versioned format stores integers.
fn vint(v: i64) -> Vec<u8> {
    let mut m = v.unsigned_abs();
    let sign = if v < 0 { 1u8 } else { 0 };
    let mut out = vec![];
    let first = ((m % 64) as u8) * 2 + sign;
    m /= 64;
    if m == 0 {
        out.push(first);
        return out;
    }
    out.push(first | 0x80);
    while m >= 128 {
        out.push((m % 128) as u8 | 0x80);
        m /= 128;
    }
    out.push(m as u8);
    out
}

fn int_value(r: &DecoderResult) -> i64 {
    match r {
        DecoderResult::Value(v) => *v,
        other => panic!("not a value: {:?}", other),
    }
}

fn three_int_schema() -> Vec<ProtocolTypeInfo> {
    vec![
        ProtocolTypeInfo::Int(Int(0, 3)),
        ProtocolTypeInfo::Int(Int(-5, 4)),
        ProtocolTypeInfo::Int(Int(100, 8)),
        ProtocolTypeInfo::Struct(vec![field("m_a", 0, 0), field("m_b", 1, 1), field("m_c", 2, 2)]),
    ]
}

#[test]
fn bitpacked_struct_of_three_ints() {
    let schema = three_int_schema();
    // bits, least significant first: a = 0b101 (3 bits), b = 0b1001 (4 bits),
    // then c: 1 bit left in byte 0 and 7 bits of byte 1.
    // byte0 = c_hi(1) b(4) a(3) = 1 1001 101
    let data = vec![0b1100_1101, 0b0101_0101];
    let mut d = BitPackedDecoder::new(data, &schema);
    let r = d.instance(3, true).unwrap();
    match r {
        DecoderResult::Struct(entries) => {
            assert_eq!(entries.len(), 3);
            assert_eq!(entries[0].0, "m_a");
            assert_eq!(int_value(&entries[0].1), 0 + 0b101);
            assert_eq!(entries[1].0, "m_b");
            assert_eq!(int_value(&entries[1].1), -5 + 0b1001);
            assert_eq!(entries[2].0, "m_c");
            // big-endian: the 1 bit left of byte 0 is the top bit, then 7 bits of byte 1
            assert_eq!(int_value(&entries[2].1), 100 + ((1 << 7) | 0b101_0101));
        }
        other => panic!("not a struct: {:?}", other),
    }
    assert_eq!(d.buffer.used_bits(), 15);
}

#[test]
fn bitpacked_struct_not_allowed_is_empty() {
    let schema = three_int_schema();
    let mut d = BitPackedDecoder::new(vec![0xFF, 0xFF], &schema);
    match d.instance(3, false).unwrap() {
        DecoderResult::Struct(entries) => assert!(entries.is_empty()),
        other => panic!("not a struct: {:?}", other),
    }
    assert_eq!(d.buffer.used_bits(), 15);
}

#[test]
fn bitpacked_truncated_and_unknown_type() {
    let schema = three_int_schema();
    let mut d = BitPackedDecoder::new(vec![0xFF], &schema);
    assert!(matches!(d.instance(3, true), Err(DecodeError::Truncated)));
    let mut d = BitPackedDecoder::new(vec![0xFF], &schema);
    assert!(matches!(d.instance(9, true), Err(DecodeError::Corrupted)));
}

#[test]
fn bitpacked_blob_bool_optional_array() {
    let schema = vec![
        ProtocolTypeInfo::Int(Int(0, 8)),
        ProtocolTypeInfo::Blob(Int(0, 8)),
        ProtocolTypeInfo::Bool,
        ProtocolTypeInfo::Optional(0),
        ProtocolTypeInfo::Array(Int(0, 8), 0),
    ];
    let mut d = BitPackedDecoder::new(vec![2, b'h', b'i'], &schema);
    assert!(matches!(d.instance(1, true).unwrap(), DecoderResult::Blob(s) if s == "hi"));
    let mut d = BitPackedDecoder::new(vec![2, 0xFF, 0xFE], &schema);
    assert!(matches!(d.instance(1, true).unwrap(), DecoderResult::Blob(s) if s.is_empty()));
    let mut d = BitPackedDecoder::new(vec![1], &schema);
    assert!(matches!(d.instance(2, true).unwrap(), DecoderResult::Bool(true)));
    // present flag in bit 0, then 8 bits of value: the 7 bits left of the
    // first byte on top, one bit of the second below
    let mut d = BitPackedDecoder::new(vec![0b0000_0011, 0b0000_0001], &schema);
    assert!(matches!(d.instance(3, true).unwrap(), DecoderResult::Value(3)));
    let mut d = BitPackedDecoder::new(vec![0], &schema);
    assert!(matches!(d.instance(3, true).unwrap(), DecoderResult::Null));
    let mut d = BitPackedDecoder::new(vec![2, 7, 9], &schema);
    match d.instance(4, true).unwrap() {
        DecoderResult::Array(items) => {
            assert_eq!(items.len(), 2);
            assert!(matches!(items[0], DecoderResult::Value(7)));
            assert!(matches!(items[1], DecoderResult::Value(9)));
        }
        other => panic!("not an array: {:?}", other),
    }
}

#[test]
fn bitpacked_choice_and_fourcc() {
    let schema = vec![
        ProtocolTypeInfo::Int(Int(0, 8)),
        ProtocolTypeInfo::Choice(Int(0, 8), vec![(0, ("m_uint6".to_string(), 0)), (1, ("m_uint14".to_string(), 0))]),
        ProtocolTypeInfo::FourCC,
    ];
    let mut d = BitPackedDecoder::new(vec![1, 42], &schema);
    assert!(matches!(d.instance(1, true).unwrap(), DecoderResult::Gameloop((n, 42)) if n == "m_uint14"));
    let mut d = BitPackedDecoder::new(vec![1, 42], &schema);
    assert!(matches!(d.instance(1, false).unwrap(), DecoderResult::Empty));
    let mut d = BitPackedDecoder::new(vec![5, 42], &schema);
    assert!(matches!(d.instance(1, true), Err(DecodeError::Corrupted)));
    let mut d = BitPackedDecoder::new(b"Lotv".to_vec(), &schema);
    assert!(matches!(d.instance(2, true).unwrap(), DecoderResult::Blob(s) if s == "Lotv"));
}

#[test]
fn bitpacked_forward_reference_decodes() {
    let schema = vec![ProtocolTypeInfo::Optional(1), ProtocolTypeInfo::Bool];
    let mut d = BitPackedDecoder::new(vec![0xFF], &schema);
    assert!(matches!(d.instance(0, true), Ok(DecoderResult::Bool(true))));
    assert_eq!(d.buffer.used_bits(), 2);
}

#[test]
fn cyclic_table_is_corrupted() {
    let schema = vec![ProtocolTypeInfo::Optional(0)];
    let mut d = BitPackedDecoder::new(vec![0xFF], &schema);
    assert!(matches!(d.instance(0, true), Err(DecodeError::Corrupted)));
    let mut d = VersionedDecoder::new(vec![4, 1, 4, 1, 4, 1], &schema);
    assert!(matches!(d.instance(0, true), Err(DecodeError::Corrupted)));
}

#[test]
fn unknown_type_id_leaves_cursor() {
    let schema = three_int_schema();
    let mut d = BitPackedDecoder::new(vec![0xFF, 0xFF], &schema);
    d.buffer.read_bits(3).unwrap();
    assert!(matches!(d.instance(200, true), Err(DecodeError::Corrupted)));
    assert_eq!(d.buffer.used_bits(), 3);
    let mut d = VersionedDecoder::new(vec![9, 2], &schema);
    assert!(matches!(d.instance(200, true), Err(DecodeError::Corrupted)));
    assert_eq!(d.buffer.used_bits(), 0);
}

fn struct_first_schema() -> Vec<ProtocolTypeInfo> {
    vec![
        ProtocolTypeInfo::Struct(vec![field("a", 1, 0), field("b", 2, 1), field("c", 3, 2)]),
        ProtocolTypeInfo::Int(Int(10, 4)),
        ProtocolTypeInfo::Int(Int(-5, 3)),
        ProtocolTypeInfo::Int(Int(100, 8)),
    ]
}

#[test]
fn bitpacked_struct_before_its_fields() {
    let schema = struct_first_schema();
    let mut d = BitPackedDecoder::new(vec![0xB5, 0x2A], &schema);
    match d.instance(0, true).unwrap() {
        DecoderResult::Struct(entries) => {
            assert_eq!(entries.len(), 3);
            assert_eq!(entries[0].0, "a");
            assert_eq!(int_value(&entries[0].1), 15);
            assert_eq!(entries[1].0, "b");
            assert_eq!(int_value(&entries[1].1), -2);
            assert_eq!(entries[2].0, "c");
            assert_eq!(int_value(&entries[2].1), 270);
        }
        other => panic!("not a struct: {:?}", other),
    }
    assert_eq!(d.buffer.used_bits(), 15);
}

#[test]
fn versioned_struct_before_its_fields() {
    let schema = struct_first_schema();
    let data = vec![0x05, 0x04, 0x00, 0x09, 0x1E, 0x04, 0x09, 0x9C, 0x04];
    let mut d = VersionedDecoder::new(data, &schema);
    match d.instance(0, true).unwrap() {
        DecoderResult::Struct(entries) => {
            assert_eq!(entries.len(), 2);
            assert_eq!(entries[0].0, "a");
            assert_eq!(int_value(&entries[0].1), 15);
            assert_eq!(entries[1].0, "c");
            assert_eq!(int_value(&entries[1].1), 270);
        }
        other => panic!("not a struct: {:?}", other),
    }
    assert_eq!(d.buffer.used_bits(), 72);
}

#[test]
fn choice_arm_of_any_type() {
    let schema = vec![
        ProtocolTypeInfo::Choice(Int(0, 8), vec![(3, ("m_flag".to_string(), 1))]),
        ProtocolTypeInfo::Bool,
    ];
    let mut d = BitPackedDecoder::new(vec![3, 1], &schema);
    match d.instance(0, true).unwrap() {
        DecoderResult::Struct(entries) => {
            assert_eq!(entries.len(), 1);
            assert_eq!(entries[0].0, "m_flag");
            assert!(matches!(entries[0].1, DecoderResult::Bool(true)));
        }
        other => panic!("not a struct: {:?}", other),
    }
    let mut data = vec![3];
    data.extend(vint(3));
    data.extend([6, 0]);
    let mut d = VersionedDecoder::new(data, &schema);
    match d.instance(0, true).unwrap() {
        DecoderResult::Struct(entries) => {
            assert_eq!(entries[0].0, "m_flag");
            assert!(matches!(entries[0].1, DecoderResult::Bool(false)));
        }
        other => panic!("not a struct: {:?}", other),
    }
}

#[test]
fn vint_round_trip() {
    let values = [
        0i64, 1, -1, 63, -63, 64, -64, 100, -100, 8191, -8192, 1 << 20, -(1 << 27), 1 << 33,
        -(1 << 33) - 5, i64::MAX, i64::MIN + 1,
    ];
    for v in values {
        let bytes = vint(v);
        let mut d = VersionedDecoder::new(bytes.clone(), &[]);
        assert_eq!(d._vint().unwrap(), v);
        assert_eq!(d.buffer.used_bits(), bytes.len() * 8);
    }
    assert_eq!(vint(100).len(), 2);
    assert_eq!(vint(1 << 33).len(), 5);
}

#[test]
fn vint_known_encodings() {
    let mut d = VersionedDecoder::new(vec![0x05], &[]);
    assert_eq!(d._vint().unwrap(), -2);
    let mut d = VersionedDecoder::new(vec![0x80 | 0x02, 0x01], &[]);
    assert_eq!(d._vint().unwrap(), 1 + 64);
    let mut d = VersionedDecoder::new(vec![0x80], &[]);
    assert_eq!(d._vint(), Err(DecodeError::Truncated));
    let mut too_big = vec![0xFE];
    too_big.extend([0xFF; 9]);
    too_big.push(0x01);
    let mut d = VersionedDecoder::new(too_big, &[]);
    assert_eq!(d._vint(), Err(DecodeError::Corrupted));
}

fn versioned_struct_bytes(fields: &[(i64, i64)]) -> Vec<u8> {
    let mut out = vec![5];
    out.extend(vint(fields.len() as i64));
    for (tag, value) in fields {
        out.extend(vint(*tag));
        out.push(9);
        out.extend(vint(*value));
    }
    out
}

#[test]
fn versioned_struct_with_missing_tag() {
    let schema = three_int_schema();
    let data = versioned_struct_bytes(&[(0, 5), (2, -300)]);
    let mut d = VersionedDecoder::new(data, &schema);
    match d.instance(3, true).unwrap() {
        DecoderResult::Struct(entries) => {
            assert_eq!(entries.len(), 2);
            assert_eq!(entries[0].0, "m_a");
            assert_eq!(int_value(&entries[0].1), 5);
            assert_eq!(entries[1].0, "m_c");
            assert_eq!(int_value(&entries[1].1), -300);
        }
        other => panic!("not a struct: {:?}", other),
    }
    assert!(d.buffer.done());
}

#[test]
fn versioned_unknown_struct_tag_is_skipped() {
    let schema = three_int_schema();
    let mut data = vec![5];
    data.extend(vint(2));
    data.extend(vint(7));
    // an unknown field: a blob of three bytes
    data.push(2);
    data.extend(vint(3));
    data.extend([1, 2, 3]);
    data.extend(vint(1));
    data.push(9);
    data.extend(vint(4));
    let mut d = VersionedDecoder::new(data, &schema);
    match d.instance(3, true).unwrap() {
        DecoderResult::Struct(entries) => {
            assert_eq!(entries.len(), 1);
            assert_eq!(entries[0].0, "m_b");
            assert_eq!(int_value(&entries[0].1), 4);
        }
        other => panic!("not a struct: {:?}", other),
    }
}

#[test]
fn versioned_wrong_kind_is_corrupted() {
    let schema = three_int_schema();
    let mut d = VersionedDecoder::new(vec![2, 0], &schema);
    assert!(matches!(d.instance(0, true), Err(DecodeError::Corrupted)));
    let mut d = VersionedDecoder::new(vec![], &schema);
    assert!(matches!(d.instance(0, true), Err(DecodeError::Truncated)));
}

#[test]
fn versioned_leaves() {
    let schema = vec![
        ProtocolTypeInfo::Blob(Int(0, 8)),
        ProtocolTypeInfo::Bool,
        ProtocolTypeInfo::FourCC,
        ProtocolTypeInfo::BitArray(Int(0, 8)),
        ProtocolTypeInfo::Null,
    ];
    let mut d = VersionedDecoder::new(vec![2, 4, b'a', b'b'], &schema);
    assert!(matches!(d.instance(0, true).unwrap(), DecoderResult::Blob(s) if s == "ab"));
    let mut d = VersionedDecoder::new(vec![6, 3], &schema);
    assert!(matches!(d.instance(1, true).unwrap(), DecoderResult::Bool(true)));
    let mut d = VersionedDecoder::new(vec![7, b'S', b'C', b'2', b'R'], &schema);
    assert!(matches!(d.instance(2, true).unwrap(), DecoderResult::Blob(s) if s == "SC2R"));
    // 12 bits: two bytes, summed
    let mut d = VersionedDecoder::new(vec![1, 24, 0x10, 0x03], &schema);
    assert!(matches!(d.instance(3, true).unwrap(), DecoderResult::Pair((12, 0x13))));
    let mut d = VersionedDecoder::new(vec![], &schema);
    assert!(matches!(d.instance(4, true).unwrap(), DecoderResult::Null));
}

#[test]
fn versioned_choice_unknown_tag_is_skipped() {
    let schema = vec![
        ProtocolTypeInfo::Int(Int(0, 8)),
        ProtocolTypeInfo::Choice(Int(0, 8), vec![(0, ("m_a".to_string(), 0))]),
    ];
    let mut data = vec![3];
    data.extend(vint(4));
    data.extend([4, 1, 9]);
    data.extend(vint(-7));
    let mut d = VersionedDecoder::new(data, &schema);
    assert!(matches!(d.instance(1, true).unwrap(), DecoderResult::Pair((0, 0))));
    assert!(d.buffer.done());
    let mut data = vec![3];
    data.extend(vint(0));
    data.push(9);
    data.extend(vint(-7));
    let mut d = VersionedDecoder::new(data, &schema);
    assert!(matches!(d.instance(1, true).unwrap(), DecoderResult::Gameloop((n, -7)) if n == "m_a"));
}

#[test]
fn versioned_array_of_optionals() {
    let schema = vec![
        ProtocolTypeInfo::Int(Int(0, 8)),
        ProtocolTypeInfo::Optional(0),
        ProtocolTypeInfo::Array(Int(0, 8), 1),
    ];
    let mut data = vec![0];
    data.extend(vint(2));
    data.extend([4, 0]);
    data.extend([4, 1, 9]);
    data.extend(vint(11));
    let mut d = VersionedDecoder::new(data, &schema);
    match d.instance(2, true).unwrap() {
        DecoderResult::Array(items) => {
            assert_eq!(items.len(), 2);
            assert!(matches!(items[0], DecoderResult::Null));
            assert!(matches!(items[1], DecoderResult::Value(11)));
        }
        other => panic!("not an array: {:?}", other),
    }
}

#[test]
fn skip_instance_consumes_nested_values() {
    let mut data = vec![5];
    data.extend(vint(2));
    data.extend(vint(0));
    data.extend([0]);
    data.extend(vint(2));
    data.extend([6, 1, 7, 1, 2, 3, 4]);
    data.extend(vint(1));
    data.extend([8, 0, 0, 0, 0, 0, 0, 0, 0]);
    data.push(0xEE);
    let mut d = VersionedDecoder::new(data.clone(), &[]);
    d._skip_instance().unwrap();
    assert_eq!(d.buffer.used_bits(), (data.len() - 1) * 8);
    let mut d = VersionedDecoder::new(vec![12], &[]);
    assert_eq!(d._skip_instance(), Err(DecodeError::Corrupted));
}

#[test]
fn event_stream_until_end() {
    let schema = three_int_schema();
    let mut data = versioned_struct_bytes(&[(0, 1)]);
    data.extend(versioned_struct_bytes(&[(1, 2), (2, 3)]));
    let events = decode_events(data, &schema, 3).unwrap();
    assert_eq!(events.len(), 2);
    assert_eq!(events[0].entries.len(), 1);
    assert_eq!(events[1].entries.len(), 2);
    assert_eq!(events[1].entries[1].0, "m_c");
    let schema = vec![ProtocolTypeInfo::Null];
    assert!(matches!(decode_events(vec![1], &schema, 0), Err(DecodeError::Corrupted)));
}

#[test]
fn bitpacked_event_stream_until_end() {
    let schema = vec![
        ProtocolTypeInfo::Struct(vec![field("m_x", 1, 0)]),
        ProtocolTypeInfo::Int(Int(0, 8)),
    ];
    let events = decode_bitpacked_events(vec![3, 4, 5], &schema, 0).unwrap();
    assert_eq!(events.len(), 3);
    assert_eq!(int_value(&events[2].entries[0].1), 5);
    let empty = vec![ProtocolTypeInfo::Struct(vec![])];
    assert!(matches!(decode_bitpacked_events(vec![1], &empty, 0), Err(DecodeError::Corrupted)));
}

#[test]
fn details_decode_to_fields() {
    let schema = three_int_schema();
    let entries = decode_details(versioned_struct_bytes(&[(1, 6)]), &schema, 3).unwrap();
    assert_eq!(entries.len(), 1);
    assert_eq!(entries[0].0, "m_b");
    assert!(matches!(decode_details(vec![9, 2], &schema, 0), Err(DecodeError::Corrupted)));
}

#[test]
fn vint_after_other_bytes() {
    let mut data = vec![9, 9, 9];
    data.extend(vint(-123456));
    data.push(0x55);
    let mut d = VersionedDecoder::new(data, &[]);
    d.buffer.read_aligned_bytes(3).unwrap();
    assert_eq!(d._vint().unwrap(), -123456);
    assert_eq!(d.buffer.used_bits(), (3 + vint(-123456).len()) * 8);
}
