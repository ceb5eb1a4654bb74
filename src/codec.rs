use crate::error::Error;
use crate::foreign::{read_u32_le, u32_le_bytes};
use crate::io::{
    decode_string, encode_string, lemma_string_cut, lemma_string_round_trip, ByteReader,
    ReadVariableExt, WriteVariableExt, U32_LIMIT,
};
use crate::property::{
    has_name, insert_entry, unique_names, Entry, Property, PropertyMap, PropertyView,
};
use vstd::prelude::*;
use vstd::utf8::encode_utf8;

verus! {

/// The byte that opens every record.
pub const RECORD_START: u8 = 0x7e;

/// The byte that closes every record.
pub const RECORD_END: u8 = 0x7b;

/// Type tag of a length-prefixed string.
pub const TAG_STRING: u8 = 0x01;

/// Type tag of a 32-bit unsigned integer.
pub const TAG_INTEGER: u8 = 0x02;

/// Type tag of a single-precision float.
pub const TAG_FLOAT: u8 = 0x06;

/// Type tag of a boolean.
pub const TAG_BOOLEAN: u8 = 0x09;

/// The unsigned integer held little-endian in the first four bytes of `s`.
pub open spec fn le_value(s: Seq<u8>) -> int
    recommends
        s.len() >= 4,
{
    s[0] + 256 * s[1] + 65536 * s[2] + 16777216 * s[3]
}

/// The four bytes of `n`, least significant first.
pub open spec fn le_bytes(n: u32) -> Seq<u8> {
    seq![
        (n % 256) as u8,
        (n / 256 % 256) as u8,
        (n / 65536 % 256) as u8,
        (n / 16777216) as u8,
    ]
}

/// The four bytes of `n` read back give `n`.
pub proof fn lemma_le_round_trip(n: u32)
    ensures
        le_value(le_bytes(n)) == n,
{
    assert(n == (n % 256) + 256 * (n / 256 % 256) + 65536 * (n / 65536 % 256) + 16777216 * (n
        / 16777216)) by (bit_vector);
}

/// Whether `tag` is one of the four types the codec interprets.
pub open spec fn is_known_tag(tag: u8) -> bool {
    tag == TAG_STRING || tag == TAG_INTEGER || tag == TAG_FLOAT || tag == TAG_BOOLEAN
}

/// The value held by the payload `p` of a record whose type tag is `tag`,
/// once its length has been checked against the type.
pub open spec fn decode_value(tag: u8, p: Seq<u8>) -> Result<PropertyView, Error> {
    if tag == TAG_STRING {
        match decode_string(p) {
            Ok((text, n)) => if n == p.len() {
                Ok(PropertyView::String(text))
            } else {
                Err(Error::LengthMismatch)
            },
            Err(Error::UnexpectedEOF) => Err(Error::LengthMismatch),
            Err(e) => Err(e),
        }
    } else if tag == TAG_INTEGER {
        Ok(PropertyView::Integer(le_value(p) as u32))
    } else if tag == TAG_FLOAT {
        Ok(PropertyView::Float(le_value(p) as u32))
    } else if tag == TAG_BOOLEAN {
        Ok(PropertyView::Boolean(p[0] != 0))
    } else {
        Ok(PropertyView::Unknown(p, tag))
    }
}

/// Whether a payload of `size` bytes is possible for type tag `tag`.
pub open spec fn size_fits_tag(tag: u8, size: nat) -> bool {
    if tag == TAG_INTEGER || tag == TAG_FLOAT {
        size == 4
    } else if tag == TAG_BOOLEAN {
        size == 1
    } else {
        true
    }
}

/// Decoding of the payload of `size` bytes at the start of `s`, for a record
/// whose type tag is `tag`.
pub open spec fn decode_payload(tag: u8, size: nat, s: Seq<u8>) -> Result<PropertyView, Error> {
    if !size_fits_tag(tag, size) {
        Err(Error::LengthMismatch)
    } else if s.len() < size {
        Err(Error::UnexpectedEOF)
    } else {
        decode_value(tag, s.take(size as int))
    }
}

/// The record terminator expected at index `at` of `s`: the index after it.
pub open spec fn decode_terminator(s: Seq<u8>, at: nat) -> Result<nat, Error> {
    if s.len() <= at {
        Err(Error::UnexpectedEOF)
    } else if s[at as int] != RECORD_END {
        Err(Error::UnexpectedTag(s[at as int]))
    } else {
        Ok(at + 1)
    }
}

/// Decoding of the body of a record (what follows its start byte) at the
/// start of `s`: the entry it names, or none for a record of length 0, and the
/// number of bytes it takes.
pub open spec fn decode_record(s: Seq<u8>) -> Result<(Option<Entry>, nat), Error> {
    match decode_string(s) {
        Err(e) => Err(e),
        Ok((name, n)) => if s.len() < n + 4 {
            Err(Error::UnexpectedEOF)
        } else {
            let data_len = le_value(s.skip(n as int)) as u32;
            if data_len == 0 {
                match decode_terminator(s, n + 4) {
                    Ok(end) => Ok((None, end)),
                    Err(e) => Err(e),
                }
            } else if data_len == 1 {
                Err(Error::LengthMismatch)
            } else if s.len() <= n + 4 {
                Err(Error::UnexpectedEOF)
            } else {
                let size = (data_len - 2) as nat;
                match decode_payload(s[n + 4 as int], size, s.skip(n + 5 as int)) {
                    Err(e) => Err(e),
                    Ok(v) => match decode_terminator(s, n + 5 + size) {
                        Ok(end) => Ok((Some((name, v)), end)),
                        Err(e) => Err(e),
                    },
                }
            }
        },
    }
}

/// A decoded string takes no more bytes than `s` has.
pub proof fn lemma_decode_string_len(s: Seq<u8>)
    ensures
        decode_string(s) matches Ok((_, n)) ==> n <= s.len(),
{
    crate::io::lemma_decode_groups_len(s, 0);
}

/// `acc` with the entry of a record added, if it holds one.
pub open spec fn add_entry(acc: Seq<Entry>, e: Option<Entry>) -> Seq<Entry> {
    match e {
        Some((name, v)) => insert_entry(acc, name, v),
        None => acc,
    }
}

/// Decoding of the records of `s` into the collection `acc`.
pub open spec fn decode_entries(s: Seq<u8>, acc: Seq<Entry>) -> Result<Seq<Entry>, Error>
    decreases s.len(),
{
    if s.len() == 0 {
        Ok(acc)
    } else if s[0] != RECORD_START {
        Err(Error::UnexpectedTag(s[0]))
    } else {
        match decode_record(s.drop_first()) {
            Err(e) => Err(e),
            Ok((e, n)) => decode_entries(s.skip(n + 1 as int), add_entry(acc, e)),
        }
    }
}

/// Decoding of a whole property stream.
pub open spec fn decode_file(s: Seq<u8>) -> Result<Seq<Entry>, Error> {
    decode_entries(s, Seq::empty())
}

/// The type tag written for `v`.
pub open spec fn tag_of(v: PropertyView) -> u8 {
    match v {
        PropertyView::Boolean(_) => TAG_BOOLEAN,
        PropertyView::Integer(_) => TAG_INTEGER,
        PropertyView::Float(_) => TAG_FLOAT,
        PropertyView::String(_) => TAG_STRING,
        PropertyView::Unknown(_, tag) => tag,
    }
}

/// The payload written for `v`.
pub open spec fn payload_of(v: PropertyView) -> Seq<u8> {
    match v {
        PropertyView::Boolean(b) => seq![if b { 1u8 } else { 0u8 }],
        PropertyView::Integer(n) => le_bytes(n),
        PropertyView::Float(bits) => le_bytes(bits),
        PropertyView::String(text) => encode_string(text),
        PropertyView::Unknown(bytes, _) => bytes,
    }
}

/// Whether the record of `name` and `v` can be written: the name's length and
/// the length field fit in 32 bits.
pub open spec fn record_fits(name: Seq<char>, v: PropertyView) -> bool {
    encode_utf8(name).len() <= U32_LIMIT && payload_of(v).len() + 2 <= U32_LIMIT
}

/// The bytes of the record of `name` and `v`.
pub open spec fn encode_record(name: Seq<char>, v: PropertyView) -> Seq<u8> {
    seq![RECORD_START] + encode_string(name) + le_bytes((payload_of(v).len() + 2) as u32) + seq![
        tag_of(v),
    ] + payload_of(v) + seq![RECORD_END]
}

/// Every entry of `es` can be written.
pub open spec fn entries_fit(es: Seq<Entry>) -> bool {
    forall|i: int| 0 <= i < es.len() ==> record_fits(#[trigger] es[i].0, es[i].1)
}

/// The records of `es`, in order.
pub open spec fn encode_entries(es: Seq<Entry>) -> Seq<u8>
    decreases es.len(),
{
    if es.len() == 0 {
        Seq::empty()
    } else {
        encode_record(es[0].0, es[0].1) + encode_entries(es.drop_first())
    }
}

/// The entry that a decoded record holds, if any.
pub open spec fn record_view(e: Option<(String, Property)>) -> Option<Entry> {
    match e {
        Some((name, v)) => Some((name@, v@)),
        None => None,
    }
}

/// Reads the four-byte little-endian length field of a record.
fn read_u32_field<R: ReadVariableExt>(reader: &mut R) -> (r: Result<u32, Error>)
    ensures
        old(reader).unread().len() < 4 ==> r == Err::<u32, Error>(Error::UnexpectedEOF),
        old(reader).unread().len() >= 4 ==> r == Ok::<u32, Error>(
            le_value(old(reader).unread()) as u32,
        ) && final(reader).unread() == old(reader).unread().skip(4),
{
    let buf = match reader.read_bytes(4) {
        Ok(buf) => buf,
        Err(e) => {
            return Err(e);
        },
    };
    Ok(read_u32_le(buf.as_slice()))
}

/// The value held by a payload whose length fits its type tag.
fn value_from_payload(tag: u8, payload: Vec<u8>) -> (r: Result<Property, Error>)
    requires
        size_fits_tag(tag, payload@.len()),
    ensures
        match decode_value(tag, payload@) {
            Ok(v) => r matches Ok(p) && p@ == v,
            Err(e) => r matches Err(f) && f == e,
        },
{
    if tag == TAG_STRING {
        let mut inner = ByteReader::new(payload.as_slice());
        match inner.read_variable_string() {
            Ok(text) => {
                if inner.remaining() == 0 {
                    Ok(Property::String(text))
                } else {
                    Err(Error::LengthMismatch)
                }
            },
            Err(Error::UnexpectedEOF) => Err(Error::LengthMismatch),
            Err(e) => Err(e),
        }
    } else if tag == TAG_INTEGER {
        Ok(Property::Integer(read_u32_le(payload.as_slice())))
    } else if tag == TAG_FLOAT {
        Ok(Property::Float(read_u32_le(payload.as_slice())))
    } else if tag == TAG_BOOLEAN {
        Ok(Property::Boolean(payload[0] != 0))
    } else {
        Ok(Property::Unknown(payload, tag))
    }
}

/// Reads the payload of `size` bytes of a record whose type tag is `tag`.
fn read_payload<R: ReadVariableExt>(reader: &mut R, tag: u8, size: u32) -> (r: Result<
    Property,
    Error,
>)
    ensures
        match decode_payload(tag, size as nat, old(reader).unread()) {
            Ok(v) => r matches Ok(p) && p@ == v && final(reader).unread() == old(
                reader,
            ).unread().skip(size as int),
            Err(e) => r matches Err(f) && f == e,
        },
{
    let fits = if tag == TAG_INTEGER || tag == TAG_FLOAT {
        size == 4
    } else if tag == TAG_BOOLEAN {
        size == 1
    } else {
        true
    };
    if !fits {
        return Err(Error::LengthMismatch);
    }
    let payload = match reader.read_bytes(size as usize) {
        Ok(payload) => payload,
        Err(e) => {
            return Err(e);
        },
    };
    value_from_payload(tag, payload)
}

/// Reads the byte that closes a record.
fn read_terminator<R: ReadVariableExt>(reader: &mut R) -> (r: Result<(), Error>)
    ensures
        match decode_terminator(old(reader).unread(), 0) {
            Ok(n) => r is Ok && final(reader).unread() == old(reader).unread().skip(n as int),
            Err(e) => r == Err::<(), Error>(e),
        },
{
    match reader.read_u8() {
        None => Err(Error::UnexpectedEOF),
        Some(b) => {
            if b == RECORD_END {
                Ok(())
            } else {
                Err(Error::UnexpectedTag(b))
            }
        },
    }
}

/// Reads the body of a record, whose start byte has been read: its entry, or
/// none for a record of length 0.
#[verifier::spinoff_prover]
#[verifier::rlimit(30)]
pub fn read_record<R: ReadVariableExt>(reader: &mut R) -> (r: Result<
    Option<(String, Property)>,
    Error,
>)
    ensures
        match decode_record(old(reader).unread()) {
            Ok((e, n)) => r matches Ok(got) && record_view(got) == e && final(reader).unread()
                == old(reader).unread().skip(n as int),
            Err(e) => r matches Err(f) && f == e,
        },
{
    let ghost s = reader.unread();
    let name = match reader.read_variable_string() {
        Ok(name) => name,
        Err(e) => {
            return Err(e);
        },
    };
    let ghost n = decode_string(s)->Ok_0.1 as int;
    proof {
        lemma_decode_string_len(s);
    }
    let data_len = match read_u32_field(reader) {
        Ok(v) => v,
        Err(e) => {
            return Err(e);
        },
    };
    assert(reader.unread() =~= s.skip(n + 4));
    if data_len == 0 {
        match read_terminator(reader) {
            Ok(()) => {},
            Err(e) => {
                return Err(e);
            },
        }
        assert(reader.unread() =~= s.skip(n + 5));
        return Ok(None);
    }
    if data_len == 1 {
        return Err(Error::LengthMismatch);
    }
    let tag = match reader.read_u8() {
        Some(tag) => tag,
        None => {
            return Err(Error::UnexpectedEOF);
        },
    };
    assert(reader.unread() =~= s.skip(n + 5));
    let size = data_len - 2;
    let value = match read_payload(reader, tag, size) {
        Ok(value) => value,
        Err(e) => {
            return Err(e);
        },
    };
    assert(reader.unread() =~= s.skip(n + 5 + size));
    match read_terminator(reader) {
        Ok(()) => {},
        Err(e) => {
            return Err(e);
        },
    }
    assert(reader.unread() =~= s.skip(n + 6 + size));
    Ok(Some((name, value)))
}

/// Decodes a whole property stream.
#[verifier::spinoff_prover]
#[verifier::rlimit(30)]
pub fn decode(bytes: &[u8]) -> (r: Result<PropertyMap, Error>)
    ensures
        match decode_file(bytes@) {
            Ok(es) => r matches Ok(m) && m@ == es,
            Err(e) => r matches Err(f) && f == e,
        },
        r matches Ok(m) ==> unique_names(m@),
{
    let mut reader = ByteReader::new(bytes);
    let mut map = PropertyMap::new();
    loop
        invariant
            decode_file(bytes@) == decode_entries(reader.unread(), map@),
            unique_names(map@),
        decreases reader.unread().len(),
    {
        let ghost s = reader.unread();
        let b = match reader.read_u8() {
            Some(b) => b,
            None => {
                return Ok(map);
            },
        };
        if b != RECORD_START {
            return Err(Error::UnexpectedTag(b));
        }
        let record = match read_record(&mut reader) {
            Ok(record) => record,
            Err(e) => {
                return Err(e);
            },
        };
        if let Some((name, value)) = record {
            map.insert(name, value);
        }
        assert(reader.unread() =~= s.skip(decode_record(s.drop_first())->Ok_0.1 + 1 as int));
    }
}

/// Appending a record to a list of entries appends its bytes.
pub proof fn lemma_encode_entries_push(es: Seq<Entry>, e: Entry)
    ensures
        encode_entries(es.push(e)) == encode_entries(es) + encode_record(e.0, e.1),
    decreases es.len(),
{
    if es.len() == 0 {
        assert(es.push(e).drop_first() =~= Seq::<Entry>::empty());
        assert(encode_entries(es.push(e).drop_first()) == Seq::<u8>::empty());
        assert(es.push(e)[0] == e);
        assert(encode_entries(es.push(e)) =~= encode_record(e.0, e.1));
    } else {
        assert(es.push(e).drop_first() =~= es.drop_first().push(e));
        lemma_encode_entries_push(es.drop_first(), e);
        assert(encode_entries(es.push(e)) =~= encode_entries(es) + encode_record(e.0, e.1));
    }
}

/// The type tag written for `v`.
fn tag_for(v: &Property) -> (r: u8)
    ensures
        r == tag_of(v@),
{
    match v {
        Property::Boolean(_) => TAG_BOOLEAN,
        Property::Integer(_) => TAG_INTEGER,
        Property::Float(_) => TAG_FLOAT,
        Property::String(_) => TAG_STRING,
        Property::Unknown(_, tag) => *tag,
    }
}

/// The payload written for `v`; a string whose length does not fit in 32 bits
/// has none.
fn payload_for(v: &Property) -> (r: Result<Vec<u8>, Error>)
    ensures
        r matches Ok(b) ==> b@ == payload_of(v@),
        r is Err ==> r == Err::<Vec<u8>, Error>(Error::TooLong) && payload_of(v@).len() + 2
            > U32_LIMIT,
{
    match v {
        Property::Boolean(b) => {
            let mut out: Vec<u8> = Vec::new();
            out.push(if *b { 1u8 } else { 0u8 });
            assert(out@ =~= payload_of(v@));
            Ok(out)
        },
        Property::Integer(n) => Ok(u32_le_bytes(*n)),
        Property::Float(bits) => Ok(u32_le_bytes(*bits)),
        Property::String(text) => {
            let mut out: Vec<u8> = Vec::new();
            match out.write_variable_string(text.as_str()) {
                Ok(()) => {
                    assert(out@ =~= payload_of(v@));
                    Ok(out)
                },
                Err(e) => Err(e),
            }
        },
        Property::Unknown(bytes, _) => {
            let mut out: Vec<u8> = Vec::new();
            out.write_bytes(bytes.as_slice());
            assert(out@ =~= payload_of(v@));
            Ok(out)
        },
    }
}

/// Writes the record of `name` and `value`, or fails, with a prefix of it
/// written, when a length does not fit its field.
pub fn write_record<W: WriteVariableExt>(out: &mut W, name: &str, value: &Property) -> (r: Result<
    (),
    Error,
>)
    ensures
        record_fits(name@, value@) ==> r is Ok && final(out).written() == old(out).written()
            + encode_record(name@, value@),
        !record_fits(name@, value@) ==> r == Err::<(), Error>(Error::TooLong),
{
    let ghost start = out.written();
    out.write_u8(RECORD_START);
    match out.write_variable_string(name) {
        Ok(()) => {},
        Err(e) => {
            return Err(e);
        },
    }
    let payload = match payload_for(value) {
        Ok(payload) => payload,
        Err(e) => {
            return Err(e);
        },
    };
    if payload.len() > U32_LIMIT - 2 {
        return Err(Error::TooLong);
    }
    let data_len = (payload.len() + 2) as u32;
    let len_bytes = u32_le_bytes(data_len);
    out.write_bytes(len_bytes.as_slice());
    out.write_u8(tag_for(value));
    out.write_bytes(payload.as_slice());
    out.write_u8(RECORD_END);
    assert(out.written() =~= start + encode_record(name@, value@));
    Ok(())
}

/// Encodes a collection as a property stream, or fails when a length does
/// not fit its field.
pub fn encode(map: &PropertyMap) -> (r: Result<Vec<u8>, Error>)
    ensures
        entries_fit(map@) ==> (r matches Ok(b) && b@ == encode_entries(map@)),
        !entries_fit(map@) ==> r == Err::<Vec<u8>, Error>(Error::TooLong),
{
    let mut out: Vec<u8> = Vec::new();
    let mut i: usize = 0;
    assert(map@.take(0) =~= Seq::<Entry>::empty());
    while i < map.len()
        invariant
            i <= map@.len(),
            out@ == encode_entries(map@.take(i as int)),
            entries_fit(map@.take(i as int)),
        decreases map@.len() - i,
    {
        let (name, value) = map.entry_at(i);
        match write_record(&mut out, name.as_str(), value) {
            Ok(()) => {},
            Err(e) => {
                assert(!record_fits(map@[i as int].0, map@[i as int].1));
                return Err(e);
            },
        }
        proof {
            lemma_encode_entries_push(map@.take(i as int), map@[i as int]);
            assert(map@.take(i + 1) =~= map@.take(i as int).push(map@[i as int]));
        }
        i = i + 1;
    }
    assert(map@.take(i as int) =~= map@);
    Ok(out)
}

/// A value survives a write and a read: an unknown value must carry a tag that
/// the codec does not interpret, else it is read back as that type.
pub open spec fn well_tagged(v: PropertyView) -> bool {
    v matches PropertyView::Unknown(_, tag) ==> !is_known_tag(tag)
}

/// Reading back the payload written for a value gives the value.
proof fn lemma_value_round_trip(v: PropertyView)
    requires
        well_tagged(v),
        payload_of(v).len() + 2 <= U32_LIMIT,
    ensures
        size_fits_tag(tag_of(v), payload_of(v).len()),
        decode_value(tag_of(v), payload_of(v)) == Ok::<PropertyView, Error>(v),
{
    match v {
        PropertyView::Integer(n) => lemma_le_round_trip(n),
        PropertyView::Float(bits) => lemma_le_round_trip(bits),
        PropertyView::String(t) => {
            lemma_string_round_trip(t, Seq::empty());
            assert(encode_string(t) + Seq::<u8>::empty() =~= encode_string(t));
        },
        _ => {},
    }
}

/// Reading back the body of a written record gives its entry and takes
/// exactly its bytes, whatever follows them.
#[verifier::spinoff_prover]
#[verifier::rlimit(30)]
pub proof fn lemma_record_round_trip(name: Seq<char>, v: PropertyView, rest: Seq<u8>)
    requires
        record_fits(name, v),
        well_tagged(v),
    ensures
        decode_record(encode_record(name, v).drop_first() + rest) == Ok::<
            (Option<Entry>, nat),
            Error,
        >((Some((name, v)), (encode_record(name, v).len() - 1) as nat)),
{
    let p = payload_of(v);
    let size = p.len();
    let data_len = (size + 2) as u32;
    let lb = le_bytes(data_len);
    let tail = lb + seq![tag_of(v)] + p + seq![RECORD_END] + rest;
    let s = encode_record(name, v).drop_first() + rest;
    assert(s =~= encode_string(name) + tail);
    lemma_string_round_trip(name, tail);
    let ns = encode_string(name).len();
    assert(s.skip(ns as int) =~= tail);
    lemma_le_round_trip(data_len);
    assert(le_value(s.skip(ns as int)) == le_value(lb));
    assert(s[ns + 4 as int] == tag_of(v));
    assert(s.skip(ns + 5 as int) =~= p + seq![RECORD_END] + rest);
    assert(s.skip(ns + 5 as int).take(size as int) =~= p);
    lemma_value_round_trip(v);
    assert(s[ns + 5 + size as int] == RECORD_END);
}

/// The first name of `es` is not in `acc` when the names of both are unique.
proof fn lemma_fresh_name(acc: Seq<Entry>, es: Seq<Entry>)
    requires
        unique_names(acc + es),
        es.len() > 0,
    ensures
        !has_name(acc, es[0].0),
        insert_entry(acc, es[0].0, es[0].1) == acc.push(es[0]),
{
    if has_name(acc, es[0].0) {
        let i = choose|i: int| 0 <= i < acc.len() && acc[i].0 == es[0].0;
        assert((acc + es)[i].0 == (acc + es)[acc.len() as int].0);
    }
}

/// Reading a written record, then `rest`, into `acc` adds its entry to `acc`
/// and goes on with `rest`.
#[verifier::spinoff_prover]
#[verifier::rlimit(30)]
proof fn lemma_written_record_step(e: Entry, rest: Seq<u8>, acc: Seq<Entry>)
    requires
        record_fits(e.0, e.1),
        well_tagged(e.1),
    ensures
        decode_entries(encode_record(e.0, e.1) + rest, acc) == decode_entries(
            rest,
            add_entry(acc, Some(e)),
        ),
{
    let r = encode_record(e.0, e.1);
    let s = r + rest;
    assert(s.drop_first() =~= r.drop_first() + rest);
    lemma_record_round_trip(e.0, e.1, rest);
    assert(s.skip(r.len() as int) =~= rest);
}

/// Reading written entries, after a collection `acc` with none of their
/// names, adds them in order and goes on with the bytes that follow.
#[verifier::spinoff_prover]
#[verifier::rlimit(40)]
pub proof fn lemma_entries_then(es: Seq<Entry>, acc: Seq<Entry>, rest: Seq<u8>)
    requires
        unique_names(acc + es),
        entries_fit(es),
        forall|i: int| 0 <= i < es.len() ==> well_tagged(#[trigger] es[i].1),
    ensures
        decode_entries(encode_entries(es) + rest, acc) == decode_entries(rest, acc + es),
    decreases es.len(),
{
    if es.len() == 0 {
        assert(acc + es =~= acc);
        assert(encode_entries(es) + rest =~= rest);
    } else {
        let e = es[0];
        let more = es.drop_first();
        let r = encode_record(e.0, e.1);
        let s = encode_entries(es) + rest;
        assert(record_fits(es[0].0, es[0].1));
        assert(well_tagged(es[0].1));
        lemma_written_record_step(e, encode_entries(more) + rest, acc);
        assert(s =~= r + (encode_entries(more) + rest));
        lemma_fresh_name(acc, es);
        assert(acc.push(e) + more =~= acc + es);
        assert forall|i: int| 0 <= i < more.len() implies record_fits(
            #[trigger] more[i].0,
            more[i].1,
        ) && well_tagged(more[i].1) by {
            assert(more[i] == es[i + 1]);
            assert(record_fits(es[i + 1].0, es[i + 1].1));
            assert(well_tagged(es[i + 1].1));
        }
        lemma_entries_then(more, acc.push(e), rest);
    }
}

/// Round trip: a collection with unique names, every record of which fits
/// its length fields and every unknown value of which carries a tag of its
/// own, is read back exactly as it was written.
pub proof fn lemma_round_trip(es: Seq<Entry>)
    requires
        unique_names(es),
        entries_fit(es),
        forall|i: int| 0 <= i < es.len() ==> well_tagged(#[trigger] es[i].1),
    ensures
        decode_file(encode_entries(es)) == Ok::<Seq<Entry>, Error>(es),
{
    assert(Seq::<Entry>::empty() + es =~= es);
    assert(encode_entries(es) + Seq::<u8>::empty() =~= encode_entries(es));
    lemma_entries_then(es, Seq::empty(), Seq::empty());
}

/// A record of a type the codec does not interpret is read as an unknown
/// value holding its tag and payload bytes, and writing that value back
/// gives the same bytes.
pub proof fn lemma_unknown_passthrough(name: Seq<char>, bytes: Seq<u8>, tag: u8)
    requires
        !is_known_tag(tag),
        encode_utf8(name).len() <= U32_LIMIT,
        bytes.len() + 2 <= U32_LIMIT,
    ensures
        ({
            let record = seq![RECORD_START] + encode_string(name) + le_bytes(
                (bytes.len() + 2) as u32,
            ) + seq![tag] + bytes + seq![RECORD_END];
            let es = seq![(name, PropertyView::Unknown(bytes, tag))];
            &&& decode_file(record) == Ok::<Seq<Entry>, Error>(es)
            &&& encode_entries(es) == record
        }),
{
    let v = PropertyView::Unknown(bytes, tag);
    let es = seq![(name, v)];
    assert(es.drop_first() =~= Seq::<Entry>::empty());
    assert(encode_entries(es.drop_first()) == Seq::<u8>::empty());
    assert(encode_entries(es) =~= encode_record(name, v));
    lemma_round_trip(es);
}

/// A stream whose next byte is not the start of a record is refused with
/// that byte, whatever collection has been read before it.
pub proof fn lemma_unexpected_start(s: Seq<u8>, acc: Seq<Entry>)
    requires
        s.len() > 0,
        s[0] != RECORD_START,
    ensures
        decode_entries(s, acc) == Err::<Seq<Entry>, Error>(Error::UnexpectedTag(s[0])),
{
}

/// A record whose length field is 0 has no type tag and no payload: reading
/// it leaves the collection as it was and goes on right after its end byte.
#[verifier::spinoff_prover]
#[verifier::rlimit(30)]
pub proof fn lemma_empty_record(name: Seq<char>, acc: Seq<Entry>, rest: Seq<u8>)
    requires
        encode_utf8(name).len() <= U32_LIMIT,
    ensures
        decode_entries(
            seq![RECORD_START] + encode_string(name) + le_bytes(0) + seq![RECORD_END] + rest,
            acc,
        ) == decode_entries(rest, acc),
{
    let tail = le_bytes(0) + seq![RECORD_END] + rest;
    let s = seq![RECORD_START] + encode_string(name) + le_bytes(0) + seq![RECORD_END] + rest;
    let body = s.drop_first();
    assert(body =~= encode_string(name) + tail);
    lemma_string_round_trip(name, tail);
    let ns = encode_string(name).len();
    assert(body.skip(ns as int) =~= tail);
    lemma_le_round_trip(0);
    assert(le_value(body.skip(ns as int)) == le_value(le_bytes(0)));
    assert(body[ns + 4 as int] == RECORD_END);
    assert(s.skip(ns + 6 as int) =~= rest);
}

/// The body of a written record, cut before its end, is refused as ended too
/// early.
#[verifier::spinoff_prover]
#[verifier::rlimit(30)]
proof fn lemma_record_body_cut(name: Seq<char>, v: PropertyView, cut: nat)
    requires
        record_fits(name, v),
        well_tagged(v),
        cut < encode_record(name, v).len() - 1,
    ensures
        decode_record(encode_record(name, v).drop_first().take(cut as int)) == Err::<
            (Option<Entry>, nat),
            Error,
        >(Error::UnexpectedEOF),
{
    let p = payload_of(v);
    let size = p.len();
    let lb = le_bytes((size + 2) as u32);
    let tail = lb + seq![tag_of(v)] + p + seq![RECORD_END];
    let ns = encode_string(name).len();
    let body = encode_record(name, v).drop_first().take(cut as int);
    assert(encode_record(name, v).drop_first() =~= encode_string(name) + tail);
    if cut < ns {
        assert(body =~= encode_string(name).take(cut as int));
        lemma_string_cut(name, cut);
    } else {
        let part = tail.take(cut - ns);
        assert(body =~= encode_string(name) + part);
        lemma_string_round_trip(name, part);
        if cut >= ns + 4 {
            assert(body.skip(ns as int).take(4) =~= lb);
            lemma_le_round_trip((size + 2) as u32);
            assert(le_value(body.skip(ns as int)) == le_value(lb));
            if cut > ns + 4 {
                assert(body[ns + 4 as int] == tag_of(v));
                lemma_value_round_trip(v);
                if cut == ns + 5 + size {
                    assert(body.skip(ns + 5 as int).take(size as int) =~= p);
                }
            }
        }
    }
}

/// A stream that ends inside a written record, after its start byte, is
/// refused as ended too early, whatever was read before it.
pub proof fn lemma_record_cut(name: Seq<char>, v: PropertyView, j: nat, acc: Seq<Entry>)
    requires
        record_fits(name, v),
        well_tagged(v),
        1 <= j < encode_record(name, v).len(),
    ensures
        decode_entries(encode_record(name, v).take(j as int), acc) == Err::<Seq<Entry>, Error>(
            Error::UnexpectedEOF,
        ),
{
    let r = encode_record(name, v);
    assert(r.take(j as int).drop_first() =~= r.drop_first().take(j - 1));
    lemma_record_body_cut(name, v, (j - 1) as nat);
}

/// Truncation: a stream of written records that ends inside its last record
/// is refused as ended too early, never read as a shorter collection.
pub proof fn lemma_truncated(es: Seq<Entry>, name: Seq<char>, v: PropertyView, j: nat)
    requires
        unique_names(es),
        entries_fit(es),
        forall|i: int| 0 <= i < es.len() ==> well_tagged(#[trigger] es[i].1),
        record_fits(name, v),
        well_tagged(v),
        1 <= j < encode_record(name, v).len(),
    ensures
        decode_file(encode_entries(es) + encode_record(name, v).take(j as int)) == Err::<
            Seq<Entry>,
            Error,
        >(Error::UnexpectedEOF),
{
    assert(Seq::<Entry>::empty() + es =~= es);
    lemma_entries_then(es, Seq::empty(), encode_record(name, v).take(j as int));
    lemma_record_cut(name, v, j, es);
}

} // verus!



