use crate::codec::{le_bytes, le_value};
use byteorder::{ByteOrder, LittleEndian};
use vstd::prelude::*;
use vstd::utf8::{encode_utf8, valid_utf8};

verus! {

/// Relies on `String::from_utf8`: it accepts exactly the byte sequences that
/// are valid UTF-8, and the string it returns holds those bytes unchanged.
#[verifier::external_body]
pub(crate) fn string_from_utf8(bytes: Vec<u8>) -> (r: Option<String>)
    ensures
        r is Some <==> valid_utf8(bytes@),
        r matches Some(s) ==> encode_utf8(s@) == bytes@,
{
    String::from_utf8(bytes).ok()
}

/// Relies on `byteorder`'s `LittleEndian::read_u32`: the first four bytes of
/// `buf`, least significant first; it panics on fewer than four.
#[verifier::external_body]
pub(crate) fn read_u32_le(buf: &[u8]) -> (r: u32)
    requires
        buf@.len() >= 4,
    ensures
        r as int == le_value(buf@),
{
    LittleEndian::read_u32(buf)
}

/// Relies on `byteorder`'s `LittleEndian::write_u32`: it stores `n` in the
/// first four bytes of the buffer, least significant first.
#[verifier::external_body]
pub(crate) fn u32_le_bytes(n: u32) -> (r: Vec<u8>)
    ensures
        r@ == le_bytes(n),
{
    let mut buf = vec![0u8; 4];
    LittleEndian::write_u32(&mut buf, n);
    buf
}

} // verus!
