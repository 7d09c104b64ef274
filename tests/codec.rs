use flight_booking::codec::{
    decode_value, encode_value, ByteOrder, DataType, DecodeError, Deserializer, Serializer, Value,
};

fn sample() -> Value {
    Value::Dict(vec![
        ("id".to_string(), Value::Int32(-7)),
        ("ok".to_string(), Value::Bool(true)),
        ("name".to_string(), Value::String("Zürich".to_string())),
        ("fare".to_string(), Value::Float(1.5f32.to_bits())),
        (
            "list".to_string(),
            Value::Array(vec![Value::Int32(1), Value::Array(vec![]), Value::String(String::new())]),
        ),
    ])
}

fn same(a: &Value, b: &Value) -> bool {
    match (a, b) {
        (Value::Int32(x), Value::Int32(y)) => x == y,
        (Value::Bool(x), Value::Bool(y)) => x == y,
        (Value::String(x), Value::String(y)) => x == y,
        (Value::Float(x), Value::Float(y)) => x == y,
        (Value::Array(x), Value::Array(y)) => {
            x.len() == y.len() && x.iter().zip(y.iter()).all(|(p, q)| same(p, q))
        }
        (Value::Dict(x), Value::Dict(y)) => {
            x.len() == y.len()
                && x.iter().zip(y.iter()).all(|(p, q)| p.0 == q.0 && same(&p.1, &q.1))
        }
        _ => false,
    }
}

#[test]
fn int32_little_endian_bytes() {
    let bytes = encode_value(&Value::Int32(258), ByteOrder::Little);
    assert_eq!(bytes, vec![1, 2, 1, 0, 0]);
}

#[test]
fn int32_big_endian_bytes() {
    let bytes = encode_value(&Value::Int32(258), ByteOrder::Big);
    assert_eq!(bytes, vec![1, 0, 0, 1, 2]);
}

#[test]
fn negative_int32_bytes() {
    let bytes = encode_value(&Value::Int32(-1), ByteOrder::Little);
    assert_eq!(bytes, vec![1, 255, 255, 255, 255]);
}

#[test]
fn string_length_carries_its_own_tag() {
    let mut s = Serializer::new(ByteOrder::Little);
    s.serialize_string("hi");
    assert_eq!(s.get_buffer(), vec![3, 1, 2, 0, 0, 0, b'h', b'i']);
}

#[test]
fn bool_and_float_bytes() {
    let mut s = Serializer::new(ByteOrder::Big);
    s.serialize_bool(true);
    s.serialize_bool(false);
    s.serialize_float(1.0f32.to_bits());
    assert_eq!(s.get_buffer(), vec![2, 1, 2, 0, 4, 0x3f, 0x80, 0, 0]);
}

#[test]
fn array_and_map_bytes() {
    let mut s = Serializer::new(ByteOrder::Little);
    s.serialize_array(&[5i32, 6]);
    assert_eq!(s.get_buffer(), vec![5, 1, 2, 0, 0, 0, 1, 5, 0, 0, 0, 1, 6, 0, 0, 0]);
    let mut m = Serializer::new(ByteOrder::Little);
    m.serialize_map(&[("a".to_string(), true)]);
    assert_eq!(m.get_buffer(), vec![6, 1, 1, 0, 0, 0, 3, 1, 1, 0, 0, 0, b'a', 2, 1]);
}

#[test]
fn round_trip_little_endian() {
    let v = sample();
    let bytes = encode_value(&v, ByteOrder::Little);
    let back = decode_value(&bytes, ByteOrder::Little).unwrap();
    assert!(same(&v, &back));
}

#[test]
fn round_trip_big_endian() {
    let v = sample();
    let bytes = encode_value(&v, ByteOrder::Big);
    let back = decode_value(&bytes, ByteOrder::Big).unwrap();
    assert!(same(&v, &back));
    assert_eq!(f32::from_bits(back.as_map().unwrap()[3].1.as_float().unwrap()), 1.5);
}

#[test]
fn mismatched_byte_order_corrupts_numbers() {
    let bytes = encode_value(&Value::Int32(1), ByteOrder::Little);
    let back = decode_value(&bytes, ByteOrder::Big).unwrap();
    assert_eq!(back.as_i32(), Some(16_777_216));
}

#[test]
fn trailing_bytes_are_not_read() {
    let mut bytes = encode_value(&Value::Bool(false), ByteOrder::Little);
    bytes.push(99);
    assert_eq!(decode_value(&bytes, ByteOrder::Little).unwrap().as_bool(), Some(false));
}

#[test]
fn nonzero_bool_byte_reads_true() {
    assert_eq!(decode_value(&[2, 7], ByteOrder::Little).unwrap().as_bool(), Some(true));
}

#[test]
fn unknown_tag_is_invalid() {
    assert!(matches!(decode_value(&[9, 0, 0], ByteOrder::Little), Err(DecodeError::InvalidData)));
    assert!(matches!(decode_value(&[0], ByteOrder::Little), Err(DecodeError::InvalidData)));
}

#[test]
fn truncated_input_ends_unexpectedly() {
    assert!(matches!(decode_value(&[], ByteOrder::Little), Err(DecodeError::UnexpectedEnd)));
    assert!(matches!(decode_value(&[1, 0, 0], ByteOrder::Little), Err(DecodeError::UnexpectedEnd)));
    assert!(matches!(
        decode_value(&[3, 1, 5, 0, 0, 0, b'a'], ByteOrder::Little),
        Err(DecodeError::UnexpectedEnd)
    ));
}

#[test]
fn non_string_key_is_invalid() {
    let bytes = [6, 1, 1, 0, 0, 0, 1, 1, 0, 0, 0, 2, 1];
    assert!(matches!(decode_value(&bytes, ByteOrder::Little), Err(DecodeError::InvalidData)));
}

#[test]
fn invalid_utf8_is_invalid() {
    let bytes = [3, 1, 1, 0, 0, 0, 0xff];
    assert!(matches!(decode_value(&bytes, ByteOrder::Little), Err(DecodeError::InvalidData)));
}

#[test]
fn negative_length_is_invalid() {
    let bytes = [5, 1, 255, 255, 255, 255];
    assert!(matches!(decode_value(&bytes, ByteOrder::Little), Err(DecodeError::InvalidData)));
}

#[test]
fn repeated_key_keeps_both_entries_in_order() {
    let v = Value::Dict(vec![
        ("k".to_string(), Value::Int32(1)),
        ("k".to_string(), Value::Int32(2)),
    ]);
    let back = decode_value(&encode_value(&v, ByteOrder::Little), ByteOrder::Little).unwrap();
    assert!(same(&v, &back));
}

#[test]
fn deserializer_reads_bodies() {
    let bytes = [7, 0, 0, 0, 1, 0, 0, 128, 63];
    let mut d = Deserializer::new(&bytes, ByteOrder::Little);
    assert_eq!(d.deserialize_int32().unwrap(), 7);
    assert_eq!(d.deserialize_bool().unwrap(), true);
    assert_eq!(f32::from_bits(d.deserialize_float().unwrap()), 1.0);
    assert!(matches!(d.deserialize_bool(), Err(DecodeError::UnexpectedEnd)));
}

#[test]
fn deserializer_reads_string_array_and_map_bodies() {
    let mut s = Serializer::new(ByteOrder::Little);
    s.serialize_string("xy");
    s.serialize_array(&[3i32]);
    s.serialize_map(&[("k", "v")]);
    let bytes = s.get_buffer();
    let mut d = Deserializer::new(&bytes[1..], ByteOrder::Little);
    assert_eq!(d.deserialize_string().unwrap(), "xy");
    let mut d = Deserializer::new(&bytes[9..], ByteOrder::Little);
    let items = d.deserialize_array().unwrap();
    assert_eq!(items.len(), 1);
    assert_eq!(items[0].as_i32(), Some(3));
    let mut d = Deserializer::new(&bytes[20..], ByteOrder::Little);
    let entries = d.deserialize_map().unwrap();
    assert_eq!(entries[0].0, "k");
    assert_eq!(entries[0].1.as_string().unwrap(), "v");
}

#[test]
fn data_type_tags() {
    assert_eq!(DataType::Int32.to_u8(), 1);
    assert_eq!(DataType::Dict.to_u8(), 6);
    assert_eq!(DataType::from_u8(3), Some(DataType::String));
    assert_eq!(DataType::from_u8(7), None);
    assert_eq!(DataType::from_u8(0), None);
}

#[test]
fn value_accessors() {
    let v = Value::String("a".to_string());
    assert_eq!(v.as_string().unwrap(), "a");
    assert_eq!(v.as_i32(), None);
    assert!(v.as_array().is_none());
    assert!(v.as_map().is_none());
    assert_eq!(v.into_string().unwrap(), "a");
    assert!(matches!(Value::Bool(true).into_string(), Err(DecodeError::InvalidData)));
    assert_eq!(Value::Array(vec![Value::Int32(4)]).as_array().unwrap().len(), 1);
}
