use cdr_bridge::cdr::{deserialize, serialize, DecodingError, EncodingError, Kind, Value};
use cdr_bridge::msg::{cmd_vel, decode_twist, decode_vector3, encode_twist, encode_vector3, Twist, Vector3};

fn all_kinds() -> Kind {
    Kind::Struct(vec![
        Kind::Bool,
        Kind::I8,
        Kind::U8,
        Kind::I16,
        Kind::U16,
        Kind::I32,
        Kind::U32,
        Kind::I64,
        Kind::U64,
        Kind::F32,
        Kind::F64,
        Kind::Str,
        Kind::FixedArray(Box::new(Kind::U16), 3),
        Kind::Sequence(Box::new(Kind::Str)),
        Kind::Struct(vec![Kind::U8, Kind::F64]),
    ])
}

fn all_values() -> Value {
    Value::Struct(vec![
        Value::Bool(true),
        Value::I8(-5),
        Value::U8(200),
        Value::I16(-300),
        Value::U16(65535),
        Value::I32(-70000),
        Value::U32(4_000_000_000),
        Value::I64(-9_000_000_000),
        Value::U64(u64::MAX),
        Value::F32(1.5f32.to_bits()),
        Value::F64((-2.25f64).to_bits()),
        Value::Str("héllo".as_bytes().to_vec()),
        Value::List(vec![Value::U16(1), Value::U16(2), Value::U16(3)]),
        Value::List(vec![Value::Str(b"a".to_vec()), Value::Str(Vec::new())]),
        Value::Struct(vec![Value::U8(7), Value::F64(0.5f64.to_bits())]),
    ])
}

#[test]
fn round_trip_every_kind() {
    let k = all_kinds();
    let v = all_values();
    let bytes = serialize(&v, &k).unwrap();
    assert_eq!(deserialize(&bytes, &k).unwrap(), v);
}

#[test]
fn string_is_length_prefixed_and_null_terminated() {
    let k = Kind::Struct(vec![Kind::U8, Kind::Str]);
    let v = Value::Struct(vec![Value::U8(9), Value::Str(b"hi".to_vec())]);
    let bytes = serialize(&v, &k).unwrap();
    assert_eq!(bytes, vec![9, 0, 0, 0, 3, 0, 0, 0, b'h', b'i', 0]);
}

#[test]
fn primitive_is_aligned_to_its_size() {
    let k = Kind::Struct(vec![Kind::U8, Kind::I32, Kind::U8, Kind::I16, Kind::U8, Kind::U64]);
    let v = Value::Struct(vec![
        Value::U8(1),
        Value::I32(-1),
        Value::U8(2),
        Value::I16(0x0102),
        Value::U8(3),
        Value::U64(4),
    ]);
    let bytes = serialize(&v, &k).unwrap();
    assert_eq!(
        bytes,
        vec![
            1, 0, 0, 0, 0xff, 0xff, 0xff, 0xff, 2, 0, 0x02, 0x01, 3, 0, 0, 0, 4, 0, 0, 0, 0, 0,
            0, 0
        ]
    );
}

#[test]
fn alignment_follows_the_whole_message_in_nested_structs() {
    let k = Kind::Struct(vec![Kind::U8, Kind::Struct(vec![Kind::U8, Kind::U32])]);
    let v = Value::Struct(vec![
        Value::U8(1),
        Value::Struct(vec![Value::U8(2), Value::U32(5)]),
    ]);
    let bytes = serialize(&v, &k).unwrap();
    assert_eq!(bytes, vec![1, 2, 0, 0, 5, 0, 0, 0]);
}

#[test]
fn sequence_has_count_and_fixed_array_has_none() {
    let seq = Kind::Sequence(Box::new(Kind::U8));
    let arr = Kind::FixedArray(Box::new(Kind::U8), 2);
    let v = Value::List(vec![Value::U8(7), Value::U8(8)]);
    assert_eq!(serialize(&v, &seq).unwrap(), vec![2, 0, 0, 0, 7, 8]);
    assert_eq!(serialize(&v, &arr).unwrap(), vec![7, 8]);
}

#[test]
fn bool_is_one_byte() {
    let k = Kind::Struct(vec![Kind::Bool, Kind::Bool]);
    let v = Value::Struct(vec![Value::Bool(true), Value::Bool(false)]);
    assert_eq!(serialize(&v, &k).unwrap(), vec![1, 0]);
}

#[test]
fn non_conforming_instance_is_an_encoding_error() {
    let k = Kind::Struct(vec![Kind::I64]);
    assert_eq!(
        serialize(&Value::Struct(vec![Value::I32(1)]), &k),
        Err(EncodingError::NonConforming)
    );
    let arr = Kind::FixedArray(Box::new(Kind::U8), 3);
    assert_eq!(
        serialize(&Value::List(vec![Value::U8(1)]), &arr),
        Err(EncodingError::NonConforming)
    );
    assert_eq!(
        serialize(&Value::Str(vec![0xff]), &Kind::Str),
        Err(EncodingError::NonConforming)
    );
}

#[test]
fn alignment_overrun_is_reported() {
    let k = Kind::Struct(vec![Kind::U8, Kind::I32]);
    assert_eq!(deserialize(&[1, 0], &k), Err(DecodingError::AlignmentOverrun));
}

#[test]
fn truncated_field_is_reported() {
    let k = Kind::Struct(vec![Kind::U8, Kind::I32]);
    assert_eq!(deserialize(&[1, 0, 0, 0, 5, 0], &k), Err(DecodingError::TruncatedBuffer));
    assert_eq!(deserialize(&[5, 0, 0, 0, b'a'], &Kind::Str), Err(DecodingError::TruncatedBuffer));
}

#[test]
fn invalid_utf8_is_reported() {
    assert_eq!(deserialize(&[2, 0, 0, 0, 0xff, 0], &Kind::Str), Err(DecodingError::InvalidUtf8));
}

#[test]
fn trailing_bytes_are_ignored() {
    let k = Kind::U16;
    assert_eq!(deserialize(&[1, 2, 3], &k), Ok(Value::U16(0x0201)));
}

#[test]
fn vector3_is_three_little_endian_doubles() {
    let v = Vector3 { x: 1.0f64.to_bits(), y: 2.0f64.to_bits(), z: 3.0f64.to_bits() };
    let bytes = encode_vector3(&v);
    let mut expected = Vec::new();
    expected.extend_from_slice(&1.0f64.to_le_bytes());
    expected.extend_from_slice(&2.0f64.to_le_bytes());
    expected.extend_from_slice(&3.0f64.to_le_bytes());
    assert_eq!(bytes, expected);
    assert_eq!(decode_vector3(&bytes), Ok(v));
}

#[test]
fn twist_is_48_bytes_with_angular_at_24() {
    let t = cmd_vel(0.5f64.to_bits(), 0.2f64.to_bits());
    let bytes = encode_twist(&t);
    assert_eq!(bytes.len(), 48);
    assert_eq!(&bytes[0..8], &0.5f64.to_le_bytes());
    assert_eq!(&bytes[8..24], &[0u8; 16]);
    assert_eq!(&bytes[24..40], &[0u8; 16]);
    assert_eq!(&bytes[40..48], &0.2f64.to_le_bytes());
    assert_eq!(&bytes[24..48], &encode_vector3(&t.angular)[..]);
}

#[test]
fn twist_round_trip() {
    let t = Twist {
        linear: Vector3 { x: 1.25f64.to_bits(), y: (-0.5f64).to_bits(), z: 9.0f64.to_bits() },
        angular: Vector3 { x: 0.0f64.to_bits(), y: 3.5f64.to_bits(), z: (-7.75f64).to_bits() },
    };
    let back = decode_twist(&encode_twist(&t)).unwrap();
    assert_eq!(back, t);
    assert_eq!(f64::from_bits(back.angular.z), -7.75);
}

#[test]
fn short_twist_is_truncated() {
    assert_eq!(decode_twist(&[0u8; 47]), Err(DecodingError::TruncatedBuffer));
    assert_eq!(decode_twist(&[]), Err(DecodingError::TruncatedBuffer));
    assert_eq!(decode_vector3(&[0u8; 23]), Err(DecodingError::TruncatedBuffer));
}

#[test]
fn every_strict_prefix_fails_as_short() {
    let k = all_kinds();
    let bytes = serialize(&all_values(), &k).unwrap();
    for n in 0..bytes.len() {
        let r = deserialize(&bytes[..n], &k);
        assert!(
            r == Err(DecodingError::TruncatedBuffer) || r == Err(DecodingError::AlignmentOverrun),
            "prefix of {} bytes gave {:?}",
            n,
            r
        );
    }
}
