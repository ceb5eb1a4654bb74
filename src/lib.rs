//! Codec for the binary property files that the game writes to keep its
//! state: a stream of named, typed records whose integers are written with a
//! seven-bit variable-length encoding.
//!
//! `io` holds the primitive codec (variable-length integers and
//! length-prefixed strings), `property` the value model and the collection,
//! and `codec` the record framing, with the laws that tie reading and writing
//! together.
pub mod codec;
pub mod error;
mod foreign;
pub mod io;
pub mod property;

pub use codec::{decode, encode, read_record, write_record};
pub use error::Error;
pub use io::{ByteReader, ReadVariableExt, WriteVariableExt};
pub use property::{same_text, Property, PropertyMap, PropertyView};
