use sits::{decode, encode, read_record, write_record, ByteReader, Error, Property, PropertyMap};

fn int32_record() -> Vec<u8> {
    vec![
        0x7e, 0x05, b'I', b'n', b't', b'3', b'2', 0x06, 0x00, 0x00, 0x00, 0x02, 0x2a, 0x00, 0x00,
        0x00, 0x7b,
    ]
}

fn record(name: &str, tag: u8, payload: &[u8]) -> Vec<u8> {
    let mut out = vec![0x7e, name.len() as u8];
    out.extend_from_slice(name.as_bytes());
    out.extend_from_slice(&((payload.len() + 2) as u32).to_le_bytes());
    out.push(tag);
    out.extend_from_slice(payload);
    out.push(0x7b);
    out
}

#[test]
fn concrete_integer_record() {
    let map = decode(&int32_record()).unwrap();
    assert_eq!(map.len(), 1);
    assert_eq!(map.get("Int32"), Some(&Property::Integer(42)));
    assert_eq!(encode(&map), Ok(int32_record()));
}

#[test]
fn empty_stream_is_empty_collection() {
    let map = decode(&[]).unwrap();
    assert!(map.is_empty());
    assert_eq!(encode(&map), Ok(vec![]));
}

#[test]
fn each_type_decodes() {
    let mut bytes = record("S", 0x01, &[0x02, b'h', b'i']);
    bytes.extend(record("I", 0x02, &[0x01, 0x02, 0x03, 0x04]));
    bytes.extend(record("F", 0x06, &1.5f32.to_bits().to_le_bytes()));
    bytes.extend(record("B", 0x09, &[0x01]));
    bytes.extend(record("b", 0x09, &[0x00]));
    let map = decode(&bytes).unwrap();
    assert_eq!(map.len(), 5);
    assert_eq!(map.get("S"), Some(&Property::String("hi".to_string())));
    assert_eq!(map.get("I"), Some(&Property::Integer(0x04030201)));
    assert_eq!(map.get("F"), Some(&Property::Float(1.5f32.to_bits())));
    assert_eq!(map.get("B"), Some(&Property::Boolean(true)));
    assert_eq!(map.get("b"), Some(&Property::Boolean(false)));
    assert_eq!(encode(&map), Ok(bytes));
}

#[test]
fn boolean_nonzero_is_true() {
    let map = decode(&record("B", 0x09, &[0x05])).unwrap();
    assert_eq!(map.get("B"), Some(&Property::Boolean(true)));
    assert_eq!(encode(&map), Ok(record("B", 0x09, &[0x01])));
}

#[test]
fn float_payload_keeps_bits() {
    let map = decode(&record("Level", 0x06, &[0x00, 0x00, 0x20, 0x41])).unwrap();
    match map.get("Level") {
        Some(Property::Float(bits)) => assert_eq!(f32::from_bits(*bits), 10.0),
        other => panic!("unexpected {:?}", other),
    }
}

#[test]
fn round_trip_mixed_collection() {
    let mut map = PropertyMap::new();
    map.insert("Name".to_string(), Property::String("Ariel".to_string()));
    map.insert("Emeralds".to_string(), Property::Integer(1234567));
    map.insert("Level".to_string(), Property::Float(3.25f32.to_bits()));
    map.insert("Male".to_string(), Property::Boolean(false));
    map.insert("Blob".to_string(), Property::Unknown(vec![9, 8, 7, 6, 5], 0x42));
    map.insert("Empty".to_string(), Property::String(String::new()));
    map.insert("Nothing".to_string(), Property::Unknown(vec![], 0x30));
    let bytes = encode(&map).unwrap();
    let back = decode(&bytes).unwrap();
    assert_eq!(back.len(), map.len());
    for i in 0..map.len() {
        assert_eq!(back.entry_at(i), map.entry_at(i));
    }
    assert_eq!(encode(&back), Ok(bytes));
}

#[test]
fn unknown_tag_passthrough() {
    let bytes = record("Odd", 0x42, &[0xde, 0xad, 0xbe]);
    let map = decode(&bytes).unwrap();
    assert_eq!(map.get("Odd"), Some(&Property::Unknown(vec![0xde, 0xad, 0xbe], 0x42)));
    assert_eq!(encode(&map), Ok(bytes));
}

#[test]
fn malformed_start_byte() {
    assert_eq!(decode(&[0x00]).unwrap_err(), Error::UnexpectedTag(0x00));
    let mut bytes = int32_record();
    bytes.push(0x41);
    assert_eq!(decode(&bytes).unwrap_err(), Error::UnexpectedTag(0x41));
}

#[test]
fn truncated_stream_every_cut() {
    let mut bytes = record("S", 0x01, &[0x02, b'h', b'i']);
    let first = bytes.len();
    bytes.extend(record("Int", 0x02, &[1, 0, 0, 0]));
    for cut in first + 1..bytes.len() {
        assert_eq!(decode(&bytes[..cut]).unwrap_err(), Error::UnexpectedEOF, "cut at {}", cut);
    }
    for cut in 1..first {
        assert_eq!(decode(&bytes[..cut]).unwrap_err(), Error::UnexpectedEOF, "cut at {}", cut);
    }
    assert!(decode(&bytes[..first]).is_ok());
}

#[test]
fn truncated_mid_name_varint() {
    let bytes = [0x7e, 0x80];
    assert_eq!(decode(&bytes).unwrap_err(), Error::UnexpectedEOF);
}

#[test]
fn empty_record_leaves_no_entry() {
    let bytes = [0x7e, 0x01, b'X', 0x00, 0x00, 0x00, 0x00, 0x7b];
    let map = decode(&bytes).unwrap();
    assert!(map.is_empty());
    let mut more = bytes.to_vec();
    more.extend(int32_record());
    let map = decode(&more).unwrap();
    assert_eq!(map.len(), 1);
    assert_eq!(map.get("X"), None);
    assert_eq!(map.get("Int32"), Some(&Property::Integer(42)));
}

#[test]
fn empty_record_reads_no_tag() {
    let bytes = [0x7e, 0x01, b'X', 0x00, 0x00, 0x00, 0x00, 0x7b];
    let mut reader = ByteReader::new(&bytes[1..]);
    assert_eq!(read_record(&mut reader), Ok(None));
    assert_eq!(reader.remaining(), 0);
}

#[test]
fn bad_terminator() {
    let mut bytes = int32_record();
    let last = bytes.len() - 1;
    bytes[last] = 0x7c;
    assert_eq!(decode(&bytes).unwrap_err(), Error::UnexpectedTag(0x7c));
}

#[test]
fn length_field_of_one() {
    let bytes = [0x7e, 0x01, b'X', 0x01, 0x00, 0x00, 0x00, 0x02, 0x7b];
    assert_eq!(decode(&bytes).unwrap_err(), Error::LengthMismatch);
}

#[test]
fn fixed_width_length_mismatch() {
    assert_eq!(decode(&record("I", 0x02, &[1, 2, 3])).unwrap_err(), Error::LengthMismatch);
    assert_eq!(decode(&record("B", 0x09, &[1, 2])).unwrap_err(), Error::LengthMismatch);
}

#[test]
fn string_payload_length_mismatch() {
    assert_eq!(decode(&record("S", 0x01, &[0x01, b'h', b'i'])).unwrap_err(), Error::LengthMismatch);
    assert_eq!(decode(&record("S", 0x01, &[0x05, b'h', b'i'])).unwrap_err(), Error::LengthMismatch);
}

#[test]
fn string_payload_invalid_utf8() {
    assert_eq!(decode(&record("S", 0x01, &[0x01, 0xff])).unwrap_err(), Error::Utf8);
}

#[test]
fn name_varint_too_long() {
    let bytes = [0x7e, 0x80, 0x80, 0x80, 0x80, 0x80, 0x01];
    assert_eq!(decode(&bytes).unwrap_err(), Error::MalformedVarint);
}

#[test]
fn duplicate_name_last_wins_in_place() {
    let mut bytes = record("A", 0x02, &[1, 0, 0, 0]);
    bytes.extend(record("B", 0x02, &[2, 0, 0, 0]));
    bytes.extend(record("A", 0x02, &[3, 0, 0, 0]));
    let map = decode(&bytes).unwrap();
    assert_eq!(map.len(), 2);
    assert_eq!(map.get("A"), Some(&Property::Integer(3)));
    let mut expected = record("A", 0x02, &[3, 0, 0, 0]);
    expected.extend(record("B", 0x02, &[2, 0, 0, 0]));
    assert_eq!(encode(&map), Ok(expected));
}

#[test]
fn write_record_bytes() {
    let mut out: Vec<u8> = Vec::new();
    assert_eq!(write_record(&mut out, "Int32", &Property::Integer(42)), Ok(()));
    assert_eq!(out, int32_record());
}

#[test]
fn write_record_string_payload() {
    let mut out: Vec<u8> = Vec::new();
    assert_eq!(write_record(&mut out, "N", &Property::String("hi".to_string())), Ok(()));
    assert_eq!(out, record("N", 0x01, &[0x02, b'h', b'i']));
}

#[test]
fn read_record_after_start_byte() {
    let bytes = int32_record();
    let mut reader = ByteReader::new(&bytes[1..]);
    let got = read_record(&mut reader).unwrap();
    assert_eq!(got, Some(("Int32".to_string(), Property::Integer(42))));
    assert_eq!(reader.remaining(), 0);
}
