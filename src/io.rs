use crate::error::Error;
use crate::foreign::string_from_utf8;
use vstd::prelude::*;
use vstd::utf8::{
    decode_utf8, encode_utf8, encode_utf8_decode_utf8, encode_utf8_valid_utf8, valid_utf8,
};

verus! {

/// Largest value a 32-bit length field can hold.
pub const U32_LIMIT: usize = 0xffff_ffff;

/// The canonical variable-length encoding of `v`: seven bits per byte, least
/// significant group first, the high bit set on every byte but the last.
pub open spec fn encode_varuint(v: nat) -> Seq<u8>
    decreases v,
{
    if v < 128 {
        seq![v as u8]
    } else {
        seq![(v % 128 + 128) as u8] + encode_varuint(v / 128)
    }
}

/// Decoding of the groups of a variable-length integer, when `k` groups have
/// already been read: the (untruncated) value of the groups that follow and
/// how many bytes they take.
pub open spec fn decode_groups(s: Seq<u8>, k: nat) -> Result<(nat, nat), Error>
    decreases 5 - k,
{
    if k >= 5 {
        Err(Error::MalformedVarint)
    } else if s.len() == 0 {
        Err(Error::UnexpectedEOF)
    } else if s[0] < 128 {
        Ok((s[0] as nat, 1))
    } else {
        match decode_groups(s.drop_first(), k + 1) {
            Ok((v, n)) => Ok((((s[0] - 128) + 128 * v) as nat, n + 1)),
            Err(e) => Err(e),
        }
    }
}

/// Decoding of a variable-length integer at the start of `s`: its value, cut to
/// 32 bits, and the number of bytes it takes; at most five groups are read.
pub open spec fn decode_varuint(s: Seq<u8>) -> Result<(u32, nat), Error> {
    match decode_groups(s, 0) {
        Ok((v, n)) => Ok(((v % 0x1_0000_0000) as u32, n)),
        Err(e) => Err(e),
    }
}

/// A length-prefixed string: the varint of its UTF-8 length, then its bytes.
pub open spec fn encode_string(s: Seq<char>) -> Seq<u8> {
    encode_varuint(encode_utf8(s).len()) + encode_utf8(s)
}

/// Decoding of a length-prefixed string at the start of `s`: its characters
/// and the number of bytes it takes.
pub open spec fn decode_string(s: Seq<u8>) -> Result<(Seq<char>, nat), Error> {
    match decode_varuint(s) {
        Ok((len, n)) => if n + len > s.len() {
            Err(Error::UnexpectedEOF)
        } else if valid_utf8(s.subrange(n as int, n + len)) {
            Ok((decode_utf8(s.subrange(n as int, n + len)), (n + len) as nat))
        } else {
            Err(Error::Utf8)
        },
        Err(e) => Err(e),
    }
}

/// `128` to the power `j`: the first value that needs more than `j` groups.
pub open spec fn group_limit(j: nat) -> nat
    decreases j,
{
    if j == 0 {
        1
    } else {
        128 * group_limit((j - 1) as nat)
    }
}

proof fn lemma_groups_round_trip(v: nat, k: nat, rest: Seq<u8>)
    requires
        k < 5,
        v < group_limit((5 - k) as nat),
    ensures
        decode_groups(encode_varuint(v) + rest, k) == Ok::<(nat, nat), Error>(
            (v, encode_varuint(v).len()),
        ),
    decreases v,
{
    let s = encode_varuint(v) + rest;
    if v >= 128 {
        let limit = group_limit((4 - k) as nat);
        assert(group_limit((5 - k) as nat) == 128 * limit);
        assert(s.drop_first() =~= encode_varuint(v / 128) + rest);
        lemma_groups_round_trip(v / 128, k + 1, rest);
    }
}

/// An encoding of at most `j` groups holds every value below `128` to the
/// power `j`.
pub proof fn lemma_encoding_fits(v: nat, j: nat)
    requires
        1 <= j,
        v < group_limit(j),
    ensures
        encode_varuint(v).len() <= j,
    decreases j,
{
    if v >= 128 {
        assert(group_limit(j) == 128 * group_limit((j - 1) as nat));
        if j == 1 {
            assert(group_limit(0) == 1);
        } else {
            lemma_encoding_fits(v / 128, (j - 1) as nat);
        }
    }
}

/// The groups read from `s` hold a value below `128` to the power of their
/// count.
pub proof fn lemma_decoded_groups_bound(s: Seq<u8>, k: nat)
    ensures
        decode_groups(s, k) matches Ok((w, n)) ==> w < group_limit(n),
    decreases 5 - k,
{
    if k < 5 && s.len() > 0 && s[0] >= 128 {
        lemma_decoded_groups_bound(s.drop_first(), k + 1);
        if let Ok((w, n)) = decode_groups(s.drop_first(), k + 1) {
            assert(group_limit(n + 1) == 128 * group_limit(n));
        }
    } else {
        assert(group_limit(1) == 128) by {
            reveal_with_fuel(group_limit, 2);
        }
    }
}

/// Decoding the encoding of any 32-bit value gives the value back and reads
/// exactly the bytes of the encoding, whatever follows them; so encoding the
/// decoded value reproduces those bytes.
pub proof fn lemma_varuint_round_trip(v: u32, rest: Seq<u8>)
    ensures
        decode_varuint(encode_varuint(v as nat) + rest) == Ok::<(u32, nat), Error>(
            (v, encode_varuint(v as nat).len()),
        ),
        encode_varuint(v as nat).len() <= 5,
{
    assert(group_limit(5) == 0x8_0000_0000) by {
        reveal_with_fuel(group_limit, 6);
    }
    lemma_groups_round_trip(v as nat, 0, rest);
    lemma_encoding_fits(v as nat, 5);
}

/// The encoding is canonical: no byte sequence that decodes to `v` is
/// shorter than the encoding of `v`.
pub proof fn lemma_varuint_canonical(s: Seq<u8>, v: u32, n: nat)
    requires
        decode_varuint(s) == Ok::<(u32, nat), Error>((v, n)),
    ensures
        encode_varuint(v as nat).len() <= n,
{
    lemma_decoded_groups_bound(s, 0);
    lemma_decode_groups_len(s, 0);
    let w = decode_groups(s, 0)->Ok_0.0;
    assert(v <= w);
    lemma_encoding_fits(v as nat, n);
}

/// Decoding a length-prefixed string that was encoded gives it back and
/// reads exactly its bytes, whatever follows them.
pub proof fn lemma_string_round_trip(t: Seq<char>, rest: Seq<u8>)
    requires
        encode_utf8(t).len() <= U32_LIMIT,
    ensures
        decode_string(encode_string(t) + rest) == Ok::<(Seq<char>, nat), Error>(
            (t, encode_string(t).len()),
        ),
{
    let b = encode_utf8(t);
    let len = b.len() as u32;
    let m = encode_varuint(len as nat).len();
    let s = encode_string(t) + rest;
    assert(s =~= encode_varuint(len as nat) + (b + rest));
    lemma_varuint_round_trip(len, b + rest);
    assert(s.subrange(m as int, m + len) =~= b);
    encode_utf8_valid_utf8(t);
    encode_utf8_decode_utf8(t);
}

proof fn lemma_groups_cut(v: nat, k: nat, j: nat)
    requires
        k < 5,
        v < group_limit((5 - k) as nat),
        j < encode_varuint(v).len(),
    ensures
        decode_groups(encode_varuint(v).take(j as int), k) == Err::<(nat, nat), Error>(
            Error::UnexpectedEOF,
        ),
    decreases v,
{
    let s = encode_varuint(v).take(j as int);
    if j > 0 {
        assert(v >= 128);
        let limit = group_limit((4 - k) as nat);
        assert(group_limit((5 - k) as nat) == 128 * limit);
        assert(s.drop_first() =~= encode_varuint(v / 128).take(j - 1));
        lemma_groups_cut(v / 128, k + 1, (j - 1) as nat);
    }
}

/// A stream that ends inside a variable-length integer is refused as ended
/// too early.
pub proof fn lemma_varuint_cut(v: u32, j: nat)
    requires
        j < encode_varuint(v as nat).len(),
    ensures
        decode_varuint(encode_varuint(v as nat).take(j as int)) == Err::<(u32, nat), Error>(
            Error::UnexpectedEOF,
        ),
{
    assert(group_limit(5) == 0x8_0000_0000) by {
        reveal_with_fuel(group_limit, 6);
    }
    lemma_groups_cut(v as nat, 0, j);
}

/// A stream that ends inside a length-prefixed string is refused as ended
/// too early.
pub proof fn lemma_string_cut(t: Seq<char>, j: nat)
    requires
        encode_utf8(t).len() <= U32_LIMIT,
        j < encode_string(t).len(),
    ensures
        decode_string(encode_string(t).take(j as int)) == Err::<(Seq<char>, nat), Error>(
            Error::UnexpectedEOF,
        ),
{
    let b = encode_utf8(t);
    let len = b.len() as u32;
    let m = encode_varuint(len as nat).len();
    if j < m {
        assert(encode_string(t).take(j as int) =~= encode_varuint(len as nat).take(j as int));
        lemma_varuint_cut(len, j);
    } else {
        let part = b.take(j - m);
        assert(encode_string(t).take(j as int) =~= encode_varuint(len as nat) + part);
        lemma_varuint_round_trip(len, part);
    }
}

/// A sink of bytes that can write variable-length integers and
/// length-prefixed strings.
pub trait WriteVariableExt {
    /// Everything written so far.
    spec fn written(&self) -> Seq<u8>;

    /// Appends one byte.
    fn write_u8(&mut self, b: u8)
        ensures
            final(self).written() == old(self).written().push(b),
    ;

    /// Appends the bytes of `b`.
    fn write_bytes(&mut self, b: &[u8])
        ensures
            final(self).written() == old(self).written() + b@,
    {
        let mut i: usize = 0;
        while i < b.len()
            invariant
                i <= b@.len(),
                self.written() == old(self).written() + b@.subrange(0, i as int),
            decreases b@.len() - i,
        {
            self.write_u8(b[i]);
            i = i + 1;
            assert(b@.subrange(0, i as int) =~= b@.subrange(0, i - 1).push(b@[i - 1]));
        }
        assert(b@.subrange(0, b@.len() as int) =~= b@);
    }

    /// Appends the canonical variable-length encoding of `n`.
    fn write_variable_uint(&mut self, n: u32)
        ensures
            final(self).written() == old(self).written() + encode_varuint(n as nat),
    {
        let mut val: u32 = n;
        while val > 0x7f
            invariant
                old(self).written() + encode_varuint(n as nat) == self.written()
                    + encode_varuint(val as nat),
            decreases val,
        {
            let b: u8 = ((val & 0x7f) | 0x80) as u8;
            assert(((val & 0x7f) | 0x80) == val % 128 + 128) by (bit_vector);
            assert(val >> 7 == val / 128) by (bit_vector);
            assert(encode_varuint(val as nat) == seq![b] + encode_varuint((val >> 7) as nat));
            let ghost before = self.written();
            self.write_u8(b);
            assert(self.written() + encode_varuint((val >> 7) as nat) =~= before
                + encode_varuint(val as nat));
            val = val >> 7;
        }
        assert(val & 0x7f == val) by (bit_vector)
            requires
                val <= 0x7f,
        ;
        let ghost before = self.written();
        self.write_u8((val & 0x7f) as u8);
        assert(self.written() =~= before + encode_varuint(val as nat));
    }

    /// Appends `s` as a length-prefixed string, or leaves the sink as it was
    /// when its length does not fit in 32 bits.
    fn write_variable_string(&mut self, s: &str) -> (r: Result<(), Error>)
        ensures
            encode_utf8(s@).len() > U32_LIMIT ==> r == Err::<(), Error>(Error::TooLong)
                && final(self).written() == old(self).written(),
            encode_utf8(s@).len() <= U32_LIMIT ==> r is Ok && final(self).written()
                == old(self).written() + encode_string(s@),
    {
        let bytes = s.as_bytes();
        if bytes.len() > U32_LIMIT {
            return Err(Error::TooLong);
        }
        self.write_variable_uint(bytes.len() as u32);
        self.write_bytes(bytes);
        Ok(())
    }
}

impl WriteVariableExt for Vec<u8> {
    open spec fn written(&self) -> Seq<u8> {
        self@
    }

    fn write_u8(&mut self, b: u8) {
        self.push(b);
    }
}

/// The decoding of the groups that follow `k` groups already read, put
/// behind those groups, whose value so far is `acc` and whose next weight is
/// `weight`.
pub open spec fn after_groups(
    acc: nat,
    weight: nat,
    k: nat,
    rest: Result<(nat, nat), Error>,
) -> Result<(nat, nat), Error> {
    match rest {
        Ok((v, n)) => Ok((acc + weight * v, k + n)),
        Err(e) => Err(e),
    }
}

/// A decoded integer takes at least one byte of `s`, and no more than `s` has.
pub proof fn lemma_decode_groups_len(s: Seq<u8>, k: nat)
    ensures
        decode_groups(s, k) matches Ok((_, n)) ==> 1 <= n <= s.len() && n <= 5 - k,
    decreases 5 - k,
{
    if k < 5 && s.len() > 0 && s[0] >= 128 {
        lemma_decode_groups_len(s.drop_first(), k + 1);
    }
}

proof fn lemma_weight_distributes(weight: nat, low: nat, v: nat)
    ensures
        weight * (low + 128 * v) == weight * low + (128 * weight) * v,
{
    assert(weight * (low + 128 * v) == weight * low + (128 * weight) * v) by (nonlinear_arith);
}

/// A source of bytes that can read variable-length integers and
/// length-prefixed strings.
pub trait ReadVariableExt {
    /// The bytes not read yet.
    spec fn unread(&self) -> Seq<u8>;

    /// Takes the next byte, or `None` at the end of the source.
    fn read_u8(&mut self) -> (r: Option<u8>)
        ensures
            old(self).unread().len() == 0 ==> r is None
                && final(self).unread() == old(self).unread(),
            old(self).unread().len() > 0 ==> r == Some(old(self).unread()[0])
                && final(self).unread() == old(self).unread().drop_first(),
    ;

    /// Takes the next `n` bytes, or fails at the end of the source.
    fn read_bytes(&mut self, n: usize) -> (r: Result<Vec<u8>, Error>)
        ensures
            n > old(self).unread().len() ==> r == Err::<Vec<u8>, Error>(Error::UnexpectedEOF),
            n <= old(self).unread().len() ==> (r matches Ok(b)
                && b@ == old(self).unread().take(n as int)
                && final(self).unread() == old(self).unread().skip(n as int)),
    {
        let ghost s = self.unread();
        let mut buf: Vec<u8> = Vec::new();
        while buf.len() < n
            invariant
                s == old(self).unread(),
                buf@.len() <= n,
                buf@.len() <= s.len(),
                self.unread() == s.skip(buf@.len() as int),
                buf@ == s.take(buf@.len() as int),
            decreases n - buf@.len(),
        {
            let ghost at = buf@.len() as int;
            match self.read_u8() {
                None => {
                    return Err(Error::UnexpectedEOF);
                },
                Some(b) => {
                    assert(s.skip(at)[0] == s[at]);
                    assert(s.skip(at).drop_first() =~= s.skip(at + 1));
                    buf.push(b);
                    assert(buf@ =~= s.take(at + 1));
                },
            }
        }
        Ok(buf)
    }

    /// Reads a variable-length integer of at most five groups.
    fn read_variable_uint(&mut self) -> (r: Result<u32, Error>)
        ensures
            match decode_varuint(old(self).unread()) {
                Ok((v, n)) => r == Ok::<u32, Error>(v)
                    && final(self).unread() == old(self).unread().skip(n as int),
                Err(e) => r == Err::<u32, Error>(e),
            },
    {
        let ghost s = self.unread();
        let mut val: u64 = 0;
        let mut weight: u64 = 1;
        let mut nread: usize = 0;
        loop
            invariant
                s == old(self).unread(),
                nread < 5,
                nread <= s.len(),
                self.unread() == s.skip(nread as int),
                val < weight,
                nread == 0 ==> weight == 1,
                nread == 1 ==> weight == 0x80,
                nread == 2 ==> weight == 0x4000,
                nread == 3 ==> weight == 0x20_0000,
                nread == 4 ==> weight == 0x1000_0000,
                decode_groups(s, 0) == after_groups(
                    val as nat,
                    weight as nat,
                    nread as nat,
                    decode_groups(s.skip(nread as int), nread as nat),
                ),
            decreases 5 - nread,
        {
            let ghost k = nread as nat;
            let ghost rest = s.skip(nread as int);
            let next = self.read_u8();
            match next {
                None => {
                    assert(decode_groups(rest, k) == Err::<(nat, nat), Error>(
                        Error::UnexpectedEOF,
                    ));
                    return Err(Error::UnexpectedEOF);
                },
                Some(byte) => {
                    assert(rest[0] == s[nread as int]);
                    assert(rest.drop_first() =~= s.skip(nread + 1));
                    let group: u8 = byte & 0x7f;
                    if byte & 0x80 == 0 {
                        assert(byte & 0x80 == 0 ==> byte < 128 && byte & 0x7f == byte)
                            by (bit_vector);
                        assert(decode_groups(rest, k) == Ok::<(nat, nat), Error>(
                            (byte as nat, 1),
                        ));
                        val = val + (group as u64) * weight;
                        return Ok((val % 0x1_0000_0000) as u32);
                    }
                    assert(byte & 0x80 != 0 ==> byte >= 128 && byte & 0x7f == byte - 128)
                        by (bit_vector);
                    proof {
                        if let Ok((v, _)) = decode_groups(s.skip(nread + 1), k + 1) {
                            lemma_weight_distributes(weight as nat, group as nat, v);
                        }
                    }
                    assert(decode_groups(rest, k) == match decode_groups(s.skip(nread + 1), k + 1) {
                        Ok((v, n)) => Ok((((byte - 128) + 128 * v) as nat, n + 1)),
                        Err(e) => Err(e),
                    });
                    if nread == 4 {
                        assert(decode_groups(s.skip(5), 5) == Err::<(nat, nat), Error>(
                            Error::MalformedVarint,
                        ));
                        return Err(Error::MalformedVarint);
                    }
                    val = val + (group as u64) * weight;
                    weight = weight * 128;
                    nread = nread + 1;
                },
            }
        }
    }

    /// Reads a length-prefixed string, which must be valid UTF-8.
    fn read_variable_string(&mut self) -> (r: Result<String, Error>)
        ensures
            match decode_string(old(self).unread()) {
                Ok((text, n)) => r matches Ok(st) && st@ == text
                    && final(self).unread() == old(self).unread().skip(n as int),
                Err(e) => r matches Err(f) && f == e,
            },
    {
        let ghost s = self.unread();
        let len = match self.read_variable_uint() {
            Ok(len) => len,
            Err(e) => {
                return Err(e);
            },
        };
        let ghost start = decode_varuint(s)->Ok_0.1 as int;
        proof {
            lemma_decode_groups_len(s, 0);
        }
        let buf = match self.read_bytes(len as usize) {
            Ok(buf) => buf,
            Err(e) => {
                return Err(e);
            },
        };
        assert(buf@ =~= s.subrange(start, start + len));
        assert(self.unread() =~= s.skip(start + len));
        match string_from_utf8(buf) {
            Some(st) => {
                proof {
                    encode_utf8_decode_utf8(st@);
                }
                Ok(st)
            },
            None => Err(Error::Utf8),
        }
    }
}

/// A forward-only cursor over a slice of bytes.
pub struct ByteReader<'a> {
    data: &'a [u8],
    pos: usize,
}

impl<'a> ByteReader<'a> {
    /// A cursor at the first byte of `data`.
    pub fn new(data: &'a [u8]) -> (r: Self)
        ensures
            r.unread() == data@,
    {
        let r = ByteReader { data, pos: 0 };
        assert(data@.subrange(0, data@.len() as int) =~= data@);
        r
    }

    /// How many bytes are left to read.
    pub fn remaining(&self) -> (r: usize)
        ensures
            r == self.unread().len(),
    {
        if self.pos <= self.data.len() {
            self.data.len() - self.pos
        } else {
            0
        }
    }
}

impl<'a> ReadVariableExt for ByteReader<'a> {
    closed spec fn unread(&self) -> Seq<u8> {
        if self.pos <= self.data@.len() {
            self.data@.subrange(self.pos as int, self.data@.len() as int)
        } else {
            Seq::empty()
        }
    }

    fn read_u8(&mut self) -> (r: Option<u8>) {
        if self.pos < self.data.len() {
            let b = self.data[self.pos];
            self.pos = self.pos + 1;
            assert(old(self).unread().drop_first() =~= self.unread());
            Some(b)
        } else {
            None
        }
    }
}

} // verus!
