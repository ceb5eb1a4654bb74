use sits::{ByteReader, Error, ReadVariableExt, WriteVariableExt};

fn varuint_bytes(n: u32) -> Vec<u8> {
    let mut out: Vec<u8> = Vec::new();
    out.write_variable_uint(n);
    out
}

fn read_varuint(bytes: &[u8]) -> Result<u32, Error> {
    let mut reader = ByteReader::new(bytes);
    reader.read_variable_uint()
}

#[test]
fn varuint_single_group() {
    assert_eq!(varuint_bytes(0), vec![0x00]);
    assert_eq!(varuint_bytes(5), vec![0x05]);
    assert_eq!(varuint_bytes(127), vec![0x7f]);
}

#[test]
fn varuint_several_groups() {
    assert_eq!(varuint_bytes(128), vec![0x80, 0x01]);
    assert_eq!(varuint_bytes(300), vec![0xac, 0x02]);
    assert_eq!(varuint_bytes(16384), vec![0x80, 0x80, 0x01]);
    assert_eq!(varuint_bytes(u32::MAX), vec![0xff, 0xff, 0xff, 0xff, 0x0f]);
}

#[test]
fn varuint_round_trip_values() {
    for v in [0u32, 1, 127, 128, 255, 300, 16383, 16384, 2097151, 2097152, 268435455, 268435456, u32::MAX] {
        let bytes = varuint_bytes(v);
        assert_eq!(read_varuint(&bytes), Ok(v));
        let again = varuint_bytes(read_varuint(&bytes).unwrap());
        assert_eq!(again, bytes);
    }
}

#[test]
fn varuint_reads_only_its_bytes() {
    let bytes = [0xac, 0x02, 0x7e];
    let mut reader = ByteReader::new(&bytes);
    assert_eq!(reader.read_variable_uint(), Ok(300));
    assert_eq!(reader.remaining(), 1);
    assert_eq!(reader.read_u8(), Some(0x7e));
    assert_eq!(reader.read_u8(), None);
}

#[test]
fn varuint_non_canonical_still_decodes() {
    assert_eq!(read_varuint(&[0x80, 0x00]), Ok(0));
    assert_eq!(read_varuint(&[0x85, 0x80, 0x00]), Ok(5));
}

#[test]
fn varuint_fifth_group_keeps_low_bits() {
    assert_eq!(read_varuint(&[0xff, 0xff, 0xff, 0xff, 0x7f]), Ok(u32::MAX));
}

#[test]
fn varuint_too_many_groups() {
    assert_eq!(read_varuint(&[0x80, 0x80, 0x80, 0x80, 0x80, 0x01]), Err(Error::MalformedVarint));
    assert_eq!(read_varuint(&[0xff; 5]), Err(Error::MalformedVarint));
}

#[test]
fn varuint_truncated() {
    assert_eq!(read_varuint(&[]), Err(Error::UnexpectedEOF));
    assert_eq!(read_varuint(&[0x80]), Err(Error::UnexpectedEOF));
    assert_eq!(read_varuint(&[0xff, 0xff, 0xff, 0xff]), Err(Error::UnexpectedEOF));
}

#[test]
fn string_write() {
    let mut out: Vec<u8> = Vec::new();
    assert_eq!(out.write_variable_string("Int32"), Ok(()));
    assert_eq!(out, vec![0x05, b'I', b'n', b't', b'3', b'2']);
}

#[test]
fn string_write_empty() {
    let mut out: Vec<u8> = Vec::new();
    assert_eq!(out.write_variable_string(""), Ok(()));
    assert_eq!(out, vec![0x00]);
}

#[test]
fn string_write_multibyte() {
    let mut out: Vec<u8> = Vec::new();
    assert_eq!(out.write_variable_string("é"), Ok(()));
    assert_eq!(out, vec![0x02, 0xc3, 0xa9]);
}

#[test]
fn string_read() {
    let bytes = [0x05, b'I', b'n', b't', b'3', b'2', 0x7b];
    let mut reader = ByteReader::new(&bytes);
    assert_eq!(reader.read_variable_string(), Ok("Int32".to_string()));
    assert_eq!(reader.remaining(), 1);
}

#[test]
fn string_long_round_trip() {
    let text: String = "abc".repeat(100);
    let mut out: Vec<u8> = Vec::new();
    assert_eq!(out.write_variable_string(&text), Ok(()));
    assert_eq!(&out[..2], &[0xac, 0x02]);
    assert_eq!(out.len(), 302);
    let mut reader = ByteReader::new(&out);
    assert_eq!(reader.read_variable_string(), Ok(text));
}

#[test]
fn string_invalid_utf8() {
    let bytes = [0x02, 0xc3, 0x28];
    let mut reader = ByteReader::new(&bytes);
    assert_eq!(reader.read_variable_string(), Err(Error::Utf8));
}

#[test]
fn string_truncated() {
    let bytes = [0x05, b'I', b'n'];
    let mut reader = ByteReader::new(&bytes);
    assert_eq!(reader.read_variable_string(), Err(Error::UnexpectedEOF));
}

#[test]
fn read_bytes_exact_and_short() {
    let bytes = [1u8, 2, 3];
    let mut reader = ByteReader::new(&bytes);
    assert_eq!(reader.read_bytes(2), Ok(vec![1, 2]));
    assert_eq!(reader.read_bytes(2), Err(Error::UnexpectedEOF));
}

#[test]
fn write_bytes_appends() {
    let mut out: Vec<u8> = vec![9];
    out.write_bytes(&[1, 2]);
    out.write_u8(3);
    assert_eq!(out, vec![9, 1, 2, 3]);
}

#[test]
fn varuint_reencoding_is_canonical() {
    let decoded = read_varuint(&[0x85, 0x80, 0x00]).unwrap();
    assert_eq!(varuint_bytes(decoded), vec![0x05]);
}
