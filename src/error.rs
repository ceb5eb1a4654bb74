use vstd::prelude::*;

verus! {

/// Why decoding or encoding a property stream stopped.
#[derive(Debug, Clone, Copy, PartialEq, Eq, Structural)]
pub enum Error {
    /// A string's bytes are not valid UTF-8.
    Utf8,
    /// A record began, or ended, with this byte instead of its frame marker.
    UnexpectedTag(u8),
    /// The stream ended inside a record.
    UnexpectedEOF,
    /// A variable-length integer still had its continuation bit set in its
    /// fifth group.
    MalformedVarint,
    /// A record's length field does not agree with its type tag, or is 1.
    LengthMismatch,
    /// A length does not fit the 32-bit field that has to hold it.
    TooLong,
}

} // verus!
