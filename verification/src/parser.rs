use vstd::prelude::*;
use vstd::slice::{slice_subrange, slice_to_vec};
use vstd::utf8::{decode_utf8, encode_utf8, valid_utf8};
use crate::encoding::{
    be_value, from_twos_complement, le_bytes, le_value, lemma_be_value_bound, lemma_le_bytes_len,
    lemma_le_value_bound, lemma_le_value_of_bytes, lemma_pow256_16, lemma_pow256_values, pow256,
    read_be, read_le, write_le,
};
use crate::error::CustomError;

verus! {

/// What reading one record from the front of a byte sequence gives: the
/// record and the number of bytes it took, or the number of bytes that were
/// passed before the read failed.
pub enum Parsed<T> {
    /// The record was read.
    Done { value: T, used: nat },
    /// The bytes ended before the record did, or were not text where text
    /// was due.
    Failed { used: nat },
    /// The bytes broke a rule of the record; `message` says which.
    Rejected { used: nat, message: Seq<char> },
}

/// Whether `error` is the rejection that carries `message`.
pub open spec fn rejected_with(error: CustomError, message: Seq<char>) -> bool {
    error matches CustomError::Validation(text) && text@ == message
}

impl<T> Parsed<T> {
    /// The number of bytes that the cursor has passed, whether the read
    /// succeeded or not.
    pub open spec fn used(self) -> nat {
        match self {
            Parsed::Done { used, .. } => used,
            Parsed::Failed { used } => used,
            Parsed::Rejected { used, .. } => used,
        }
    }
}

/// A network address as the wire carries it: the sixteen bytes of an IPv6
/// address and the port, both most significant byte first.
#[derive(Debug, Clone, Copy, PartialEq, Eq, Structural)]
pub struct NetAddress {
    pub ip: u128,
    pub port: u16,
}

/// The number of bytes that follow a compact-size prefix.
pub open spec fn varint_tail(prefix: u8) -> nat {
    if prefix == 0xFF {
        8
    } else if prefix == 0xFE {
        4
    } else if prefix == 0xFD {
        2
    } else {
        0
    }
}

/// Reads a compact-size integer from the front of `s`.
pub open spec fn parse_varint(s: Seq<u8>) -> Parsed<nat> {
    if s.len() == 0 {
        Parsed::Failed { used: 0 }
    } else if s.len() < 1 + varint_tail(s[0]) {
        Parsed::Failed { used: 1 }
    } else if varint_tail(s[0]) == 0 {
        Parsed::Done { value: s[0] as nat, used: 1 }
    } else {
        Parsed::Done {
            value: le_value(s.subrange(1, 1 + varint_tail(s[0]) as int)),
            used: 1 + varint_tail(s[0]),
        }
    }
}

/// The shortest compact-size encoding of `x`.
pub open spec fn varint_encoding(x: nat) -> Seq<u8> {
    if x < 0xFD {
        seq![x as u8]
    } else if x <= 0xFFFF {
        seq![0xFDu8] + le_bytes(x, 2)
    } else if x <= 0xFFFF_FFFF {
        seq![0xFEu8] + le_bytes(x, 4)
    } else {
        seq![0xFFu8] + le_bytes(x, 8)
    }
}

/// Reads an address from the front of `s`: sixteen bytes of IPv6 address,
/// then two of port, as the two numbers they spell.
pub open spec fn parse_address(s: Seq<u8>) -> Parsed<(nat, nat)> {
    if s.len() < 18 {
        Parsed::Failed { used: s.len() }
    } else {
        Parsed::Done {
            value: (be_value(s.subrange(0, 16)), be_value(s.subrange(16, 18))),
            used: 18,
        }
    }
}

/// A cursor over a byte buffer. Each read takes bytes from the front of
/// what remains.
pub struct BufferParser {
    buffer: Vec<u8>,
    pos: usize,
}

impl BufferParser {
    /// The cursor stands within the buffer.
    #[verifier::type_invariant]
    spec fn in_bounds(&self) -> bool {
        self.pos <= self.buffer@.len()
    }

    /// The bytes that have not been read yet.
    pub closed spec fn remaining(&self) -> Seq<u8> {
        self.buffer@.skip(self.pos as int)
    }

    /// A cursor at the start of `buffer`.
    pub fn new(buffer: Vec<u8>) -> (parser: Self)
        ensures
            parser.remaining() == buffer@,
    {
        Self { buffer, pos: 0 }
    }

    /// The number of bytes that remain.
    pub fn len(&mut self) -> (n: usize)
        ensures
            n == old(self).remaining().len(),
            final(self).remaining() == old(self).remaining(),
    {
        proof {
            use_type_invariant(&*self);
        }
        self.buffer.len() - self.pos
    }

    /// Whether every byte has been read.
    pub fn is_empty(&mut self) -> (empty: bool)
        ensures
            empty == (old(self).remaining().len() == 0),
            final(self).remaining() == old(self).remaining(),
    {
        proof {
            use_type_invariant(&*self);
        }
        self.buffer.len() - self.pos == 0
    }

    /// Takes the next `size` bytes. Fails, and leaves the cursor where it
    /// was, when fewer remain.
    pub fn extract_buffer(&mut self, size: usize) -> (r: Result<&[u8], CustomError>)
        ensures
            size <= old(self).remaining().len() ==> r is Ok && r->Ok_0@ == old(
                self,
            ).remaining().take(size as int),
            size <= old(self).remaining().len() ==> final(self).remaining() == old(
                self,
            ).remaining().skip(size as int),
            size > old(self).remaining().len() ==> r == Err::<&[u8], CustomError>(
                CustomError::SerializedBufferIsInvalid,
            ) && final(self).remaining() == old(self).remaining(),
    {
        proof {
            use_type_invariant(&*self);
        }
        if size > self.buffer.len() - self.pos {
            return Err(CustomError::SerializedBufferIsInvalid);
        }
        let start = self.pos;
        self.pos = self.pos + size;
        let out = slice_subrange(self.buffer.as_slice(), start, start + size);
        assert(out@ =~= old(self).remaining().take(size as int));
        assert(self.remaining() =~= old(self).remaining().skip(size as int));
        Ok(out)
    }

    /// Takes the next `width` bytes as a number, least significant byte
    /// first.
    fn extract_scalar(&mut self, width: usize) -> (r: Result<u64, CustomError>)
        requires
            width <= 8,
        ensures
            width <= old(self).remaining().len() ==> r is Ok && r->Ok_0 as nat == le_value(
                old(self).remaining().take(width as int),
            ) && final(self).remaining() == old(self).remaining().skip(width as int),
            width > old(self).remaining().len() ==> r == Err::<u64, CustomError>(
                CustomError::SerializedBufferIsInvalid,
            ) && final(self).remaining() == old(self).remaining(),
    {
        match self.extract_buffer(width) {
            Ok(bytes) => Ok(read_le(bytes)),
            Err(e) => Err(e),
        }
    }

    /// Takes the next byte.
    pub fn extract_u8(&mut self) -> (r: Result<u8, CustomError>)
        ensures
            1 <= old(self).remaining().len() ==> r == Ok::<u8, CustomError>(
                old(self).remaining()[0],
            ) && final(self).remaining() == old(self).remaining().skip(1),
            old(self).remaining().len() < 1 ==> r == Err::<u8, CustomError>(
                CustomError::SerializedBufferIsInvalid,
            ) && final(self).remaining() == old(self).remaining(),
    {
        match self.extract_buffer(1) {
            Ok(bytes) => Ok(bytes[0]),
            Err(e) => Err(e),
        }
    }

    /// Takes the next two bytes as an unsigned number, least significant
    /// byte first.
    pub fn extract_u16(&mut self) -> (r: Result<u16, CustomError>)
        ensures
            2 <= old(self).remaining().len() ==> r is Ok && r->Ok_0 as nat == le_value(
                old(self).remaining().take(2),
            ) && final(self).remaining() == old(self).remaining().skip(2),
            old(self).remaining().len() < 2 ==> r == Err::<u16, CustomError>(
                CustomError::SerializedBufferIsInvalid,
            ) && final(self).remaining() == old(self).remaining(),
    {
        proof {
            lemma_pow256_values();
            lemma_le_value_bound(self.remaining().take(2));
        }
        match self.extract_scalar(2) {
            Ok(value) => Ok(value as u16),
            Err(e) => Err(e),
        }
    }

    /// Takes the next four bytes as an unsigned number, least significant
    /// byte first.
    pub fn extract_u32(&mut self) -> (r: Result<u32, CustomError>)
        ensures
            4 <= old(self).remaining().len() ==> r is Ok && r->Ok_0 as nat == le_value(
                old(self).remaining().take(4),
            ) && final(self).remaining() == old(self).remaining().skip(4),
            old(self).remaining().len() < 4 ==> r == Err::<u32, CustomError>(
                CustomError::SerializedBufferIsInvalid,
            ) && final(self).remaining() == old(self).remaining(),
    {
        proof {
            lemma_pow256_values();
            lemma_le_value_bound(self.remaining().take(4));
        }
        match self.extract_scalar(4) {
            Ok(value) => Ok(value as u32),
            Err(e) => Err(e),
        }
    }

    /// Takes the next eight bytes as an unsigned number, least significant
    /// byte first.
    pub fn extract_u64(&mut self) -> (r: Result<u64, CustomError>)
        ensures
            8 <= old(self).remaining().len() ==> r is Ok && r->Ok_0 as nat == le_value(
                old(self).remaining().take(8),
            ) && final(self).remaining() == old(self).remaining().skip(8),
            old(self).remaining().len() < 8 ==> r == Err::<u64, CustomError>(
                CustomError::SerializedBufferIsInvalid,
            ) && final(self).remaining() == old(self).remaining(),
    {
        self.extract_scalar(8)
    }

    /// Takes the next byte as a signed number in two's complement.
    pub fn extract_i8(&mut self) -> (r: Result<i8, CustomError>)
        ensures
            1 <= old(self).remaining().len() ==> r is Ok && r->Ok_0 as int
                == from_twos_complement(le_value(old(self).remaining().take(1)), 1) 
                && final(self).remaining() == old(self).remaining().skip(1),
            old(self).remaining().len() < 1 ==> r == Err::<i8, CustomError>(
                CustomError::SerializedBufferIsInvalid,
            ) && final(self).remaining() == old(self).remaining(),
    {
        proof {
            lemma_pow256_values();
            lemma_le_value_bound(self.remaining().take(1));
        }
        match self.extract_scalar(1) {
            Ok(value) => if value < 0x80 {
                Ok(value as i8)
            } else {
                Ok((value as i64 - 0x100) as i8)
            },
            Err(e) => Err(e),
        }
    }

    /// Takes the next two bytes as a signed number in two's complement,
    /// least significant byte first.
    pub fn extract_i16(&mut self) -> (r: Result<i16, CustomError>)
        ensures
            2 <= old(self).remaining().len() ==> r is Ok && r->Ok_0 as int
                == from_twos_complement(le_value(old(self).remaining().take(2)), 2) 
                && final(self).remaining() == old(self).remaining().skip(2),
            old(self).remaining().len() < 2 ==> r == Err::<i16, CustomError>(
                CustomError::SerializedBufferIsInvalid,
            ) && final(self).remaining() == old(self).remaining(),
    {
        proof {
            lemma_pow256_values();
            lemma_le_value_bound(self.remaining().take(2));
        }
        match self.extract_scalar(2) {
            Ok(value) => if value < 0x8000 {
                Ok(value as i16)
            } else {
                Ok((value as i64 - 0x1_0000) as i16)
            },
            Err(e) => Err(e),
        }
    }

    /// Takes the next four bytes as a signed number in two's complement,
    /// least significant byte first.
    pub fn extract_i32(&mut self) -> (r: Result<i32, CustomError>)
        ensures
            4 <= old(self).remaining().len() ==> r is Ok && r->Ok_0 as int
                == from_twos_complement(le_value(old(self).remaining().take(4)), 4) 
                && final(self).remaining() == old(self).remaining().skip(4),
            old(self).remaining().len() < 4 ==> r == Err::<i32, CustomError>(
                CustomError::SerializedBufferIsInvalid,
            ) && final(self).remaining() == old(self).remaining(),
    {
        proof {
            lemma_pow256_values();
            lemma_le_value_bound(self.remaining().take(4));
        }
        match self.extract_scalar(4) {
            Ok(value) => if value < 0x8000_0000 {
                Ok(value as i32)
            } else {
                Ok((value as i64 - 0x1_0000_0000) as i32)
            },
            Err(e) => Err(e),
        }
    }

    /// Takes the next eight bytes as a signed number in two's complement,
    /// least significant byte first.
    pub fn extract_i64(&mut self) -> (r: Result<i64, CustomError>)
        ensures
            8 <= old(self).remaining().len() ==> r is Ok && r->Ok_0 as int
                == from_twos_complement(le_value(old(self).remaining().take(8)), 8) 
                && final(self).remaining() == old(self).remaining().skip(8),
            old(self).remaining().len() < 8 ==> r == Err::<i64, CustomError>(
                CustomError::SerializedBufferIsInvalid,
            ) && final(self).remaining() == old(self).remaining(),
    {
        proof {
            lemma_pow256_values();
            lemma_le_value_bound(self.remaining().take(8));
        }
        match self.extract_scalar(8) {
            Ok(value) => if value < 0x8000_0000_0000_0000 {
                Ok(value as i64)
            } else {
                Ok((value as i128 - 0x1_0000_0000_0000_0000) as i64)
            },
            Err(e) => Err(e),
        }
    }

    /// Takes a compact-size integer: one prefix byte, then none, two, four
    /// or eight bytes as the prefix says. When the prefix is there and the
    /// bytes after it are not, the cursor stays behind the prefix.
    pub fn extract_varint(&mut self) -> (r: Result<u64, CustomError>)
        ensures
            match parse_varint(old(self).remaining()) {
                Parsed::Done { value, used } => r is Ok && r->Ok_0 as nat == value,
                Parsed::Failed { used } => r == Err::<u64, CustomError>(
                    CustomError::SerializedBufferIsInvalid,
                ),
                Parsed::Rejected { used, message } => r is Err && rejected_with(r->Err_0, message),
            },
            parse_varint(old(self).remaining()).used() <= old(self).remaining().len(),
            final(self).remaining() == old(self).remaining().skip(
                parse_varint(old(self).remaining()).used() as int,
            ),
    {
        let ghost before = self.remaining();
        assert(before.skip(0) =~= before);
        let first_byte = match self.extract_u8() {
            Ok(byte) => byte,
            Err(e) => { return Err(e); },
        };
        let width: usize = if first_byte == 0xFF {
            8
        } else if first_byte == 0xFE {
            4
        } else if first_byte == 0xFD {
            2
        } else {
            0
        };
        if width == 0 {
            return Ok(first_byte as u64);
        }
        let value = self.extract_scalar(width);
        proof {
            if before.len() >= 1 + width {
                assert(before.skip(1).take(width as int) =~= before.subrange(1, 1 + width));
                assert(before.skip(1).skip(width as int) =~= before.skip(1 + width));
            }
        }
        value
    }

    /// Takes an address: sixteen bytes of IPv6 address and two of port,
    /// each most significant byte first. When fewer than eighteen bytes
    /// remain, all of them are passed over.
    pub fn extract_address(&mut self) -> (r: Result<NetAddress, CustomError>)
        ensures
            match parse_address(old(self).remaining()) {
                Parsed::Done { value, used } => r is Ok && r->Ok_0.ip as nat == value.0
                    && r->Ok_0.port as nat == value.1,
                Parsed::Failed { used } => r == Err::<NetAddress, CustomError>(
                    CustomError::SerializedBufferIsInvalid,
                ),
                Parsed::Rejected { used, message } => r is Err && rejected_with(r->Err_0, message),
            },
            parse_address(old(self).remaining()).used() <= old(self).remaining().len(),
            final(self).remaining() == old(self).remaining().skip(
                parse_address(old(self).remaining()).used() as int,
            ),
    {
        let ghost before = self.remaining();
        let left = self.len();
        if left < 18 {
            let _ = self.extract_buffer(left);
            return Err(CustomError::SerializedBufferIsInvalid);
        }
        let ip = match self.extract_buffer(16) {
            Ok(bytes) => {
                proof {
                    lemma_be_value_bound(bytes@);
                    lemma_pow256_16();
                }
                read_be(bytes)
            },
            Err(e) => { return Err(e); },
        };
        let port = match self.extract_buffer(2) {
            Ok(bytes) => {
                proof {
                    lemma_be_value_bound(bytes@);
                    lemma_pow256_values();
                }
                read_be(bytes)
            },
            Err(e) => { return Err(e); },
        };
        proof {
            assert(before.take(16) =~= before.subrange(0, 16));
            assert(before.skip(16).take(2) =~= before.subrange(16, 18));
            assert(before.skip(16).skip(2) =~= before.skip(18));
        }
        Ok(NetAddress { ip, port: port as u16 })
    }

    /// Takes the next `size` bytes as UTF-8 text. Fails when fewer remain,
    /// with the cursor where it was, or when the bytes are not UTF-8, with
    /// the cursor behind them.
    pub fn extract_string(&mut self, size: usize) -> (r: Result<String, CustomError>)
        ensures
            size <= old(self).remaining().len() && is_utf8(
                old(self).remaining().take(size as int),
            ) ==> r is Ok && r->Ok_0@ == utf8_text(old(self).remaining().take(size as int)),
            size > old(self).remaining().len() || !is_utf8(
                old(self).remaining().take(size as int),
            ) ==> r == Err::<String, CustomError>(CustomError::SerializedBufferIsInvalid),
            size <= old(self).remaining().len() ==> final(self).remaining() == old(self).remaining().skip(size as int),
            size > old(self).remaining().len() ==> final(self).remaining() == old(self).remaining(),
    {
        let bytes = match self.extract_buffer(size) {
            Ok(bytes) => slice_to_vec(bytes),
            Err(e) => { return Err(e); },
        };
        match string_from_utf8(bytes) {
            Some(text) => Ok(text),
            None => Err(CustomError::SerializedBufferIsInvalid),
        }
    }
}

/// Whether the bytes are well-formed UTF-8.
#[verifier::opaque]
pub open spec fn is_utf8(bytes: Seq<u8>) -> bool {
    valid_utf8(bytes)
}

/// The text that well-formed UTF-8 bytes encode.
#[verifier::opaque]
pub open spec fn utf8_text(bytes: Seq<u8>) -> Seq<char> {
    decode_utf8(bytes)
}

/// The bytes that encode a text in UTF-8.
#[verifier::opaque]
pub open spec fn utf8_bytes(text: Seq<char>) -> Seq<u8> {
    encode_utf8(text)
}

/// `String::from_utf8` of std: a text whose bytes are the given bytes, when
/// those are well-formed UTF-8, and nothing when they are not.
#[verifier::external_body]
fn from_utf8(bytes: Vec<u8>) -> (text: Option<String>)
    ensures
        valid_utf8(bytes@) ==> text is Some && encode_utf8(text->Some_0@) == bytes@,
        !valid_utf8(bytes@) ==> text is None,
{
    String::from_utf8(bytes).ok()
}

/// The text that the bytes encode, when they are well-formed UTF-8.
pub(crate) fn string_from_utf8(bytes: Vec<u8>) -> (text: Option<String>)
    ensures
        is_utf8(bytes@) ==> text is Some && text->Some_0@ == utf8_text(bytes@),
        !is_utf8(bytes@) ==> text is None,
{
    let text = from_utf8(bytes);
    proof {
        reveal(is_utf8);
        reveal(utf8_text);
        if text is Some {
            vstd::utf8::encode_utf8_decode_utf8(text->Some_0@);
        }
    }
    text
}

/// The compact-size encoding of a count or a length.
pub trait VarIntSerialize {
    /// The number that is encoded.
    spec fn varint_value(&self) -> nat;

    /// The shortest compact-size encoding: one byte below 0xFD, else a
    /// prefix 0xFD, 0xFE or 0xFF and two, four or eight bytes, least
    /// significant first.
    fn to_varint_bytes(&self) -> (bytes: Vec<u8>)
        ensures
            bytes@ == varint_encoding(self.varint_value()),
    ;
}

impl VarIntSerialize for usize {
    /// A length encodes itself.
    open spec fn varint_value(&self) -> nat {
        *self as nat
    }

    /// The shortest compact-size encoding of the length.
    fn to_varint_bytes(&self) -> (bytes: Vec<u8>) {
        varint_bytes(*self as u64)
    }
}

/// The shortest compact-size encoding of `x`.
pub fn varint_bytes(x: u64) -> (bytes: Vec<u8>)
    ensures
        bytes@ == varint_encoding(x as nat),
{
    if x < 0xFD {
        let mut bytes: Vec<u8> = Vec::new();
        bytes.push(x as u8);
        assert(bytes@ =~= seq![x as u8]);
        return bytes;
    }
    let (prefix, width): (u8, usize) = if x <= 0xFFFF {
        (0xFD, 2)
    } else if x <= 0xFFFF_FFFF {
        (0xFE, 4)
    } else {
        (0xFF, 8)
    };
    let mut bytes: Vec<u8> = Vec::new();
    bytes.push(prefix);
    let mut tail = write_le(x, width);
    bytes.append(&mut tail);
    assert(bytes@ =~= seq![prefix] + le_bytes(x as nat, width as nat));
    bytes
}

/// Reading the encoding of a number, whatever follows it, gives the number
/// and passes exactly the encoding.
pub proof fn lemma_varint_roundtrip(x: u64, rest: Seq<u8>)
    ensures
        parse_varint(varint_encoding(x as nat) + rest) == (Parsed::Done {
            value: x as nat,
            used: varint_encoding(x as nat).len(),
        }),
{
    let enc = varint_encoding(x as nat);
    let s = enc + rest;
    lemma_pow256_values();
    if x < 0xFD {
        assert(s[0] == x as u8);
    } else {
        let width: nat = if x <= 0xFFFF {
            2
        } else if x <= 0xFFFF_FFFF {
            4
        } else {
            8
        };
        lemma_le_bytes_len(x as nat, width);
        lemma_le_value_of_bytes(x as nat, width);
        assert(s[0] == enc[0]);
        assert(s.subrange(1, 1 + width as int) =~= le_bytes(x as nat, width));
        assert((x as nat) % pow256(width) == x as nat) by {
            vstd::arithmetic::div_mod::lemma_small_mod(x as nat, pow256(width));
        }
    }
}

/// The length of an encoding: one, three, five or nine bytes, by the
/// thresholds 0xFD, 0x1_0000 and 0x1_0000_0000.
pub proof fn lemma_varint_len(x: nat)
    ensures
        varint_encoding(x).len() == if x < 0xFD {
            1nat
        } else if x <= 0xFFFF {
            3nat
        } else if x <= 0xFFFF_FFFF {
            5nat
        } else {
            9nat
        },
{
    lemma_le_bytes_len(x, 2);
    lemma_le_bytes_len(x, 4);
    lemma_le_bytes_len(x, 8);
}

/// The encodings of `items`, one after the other.
pub open spec fn serialize_list<V>(encode: spec_fn(V) -> Seq<u8>, items: Seq<V>) -> Seq<u8>
    decreases items.len(),
{
    if items.len() == 0 {
        Seq::empty()
    } else {
        serialize_list(encode, items.drop_last()) + encode(items.last())
    }
}

/// Reads `count` records, one after the other, from the front of `s`. When
/// one read fails, the bytes passed are those of the records before it and
/// those that the failed read passed.
pub open spec fn parse_list<V>(
    decode: spec_fn(Seq<u8>) -> Parsed<V>,
    s: Seq<u8>,
    count: nat,
) -> Parsed<Seq<V>>
    decreases count,
{
    if count == 0 {
        Parsed::Done { value: Seq::empty(), used: 0 }
    } else {
        match parse_list(decode, s, (count - 1) as nat) {
            Parsed::Failed { used } => Parsed::Failed { used },
            Parsed::Rejected { used, message } => Parsed::Rejected { used, message },
            Parsed::Done { value: items, used } => match decode(s.skip(used as int)) {
                Parsed::Failed { used: more } => Parsed::Failed { used: used + more },
                Parsed::Rejected { used: more, message } => Parsed::Rejected {
                    used: used + more,
                    message,
                },
                Parsed::Done { value, used: more } => Parsed::Done {
                    value: items.push(value),
                    used: used + more,
                },
            },
        }
    }
}

/// Once a record cannot be read, asking for more records fails at the same
/// place.
pub proof fn lemma_parse_list_failure<V>(
    decode: spec_fn(Seq<u8>) -> Parsed<V>,
    s: Seq<u8>,
    failed: nat,
    count: nat,
)
    requires
        failed <= count,
        !(parse_list(decode, s, failed) is Done),
    ensures
        parse_list(decode, s, count) == parse_list(decode, s, failed),
    decreases count,
{
    if failed < count {
        lemma_parse_list_failure(decode, s, failed, (count - 1) as nat);
    }
}

/// A list that was read holds as many records as were asked for.
pub proof fn lemma_parse_list_len<V>(
    decode: spec_fn(Seq<u8>) -> Parsed<V>,
    s: Seq<u8>,
    count: nat,
)
    ensures
        parse_list(decode, s, count) matches Parsed::Done { value, .. } ==> value.len() == count,
    decreases count,
{
    if count > 0 {
        lemma_parse_list_len(decode, s, (count - 1) as nat);
    }
}

/// Where reading the encoding of each item gives the item back, reading the
/// encoding of the list gives the list back and passes exactly its bytes.
pub proof fn lemma_list_roundtrip<V>(
    encode: spec_fn(V) -> Seq<u8>,
    decode: spec_fn(Seq<u8>) -> Parsed<V>,
    items: Seq<V>,
    rest: Seq<u8>,
)
    requires
        forall|i: int, tail: Seq<u8>|
            0 <= i < items.len() ==> #[trigger] decode(encode(items[i]) + tail) == (Parsed::Done {
                value: items[i],
                used: encode(items[i]).len(),
            }),
    ensures
        parse_list(decode, serialize_list(encode, items) + rest, items.len()) == (Parsed::Done {
            value: items,
            used: serialize_list(encode, items).len(),
        }),
    decreases items.len(),
{
    let s = serialize_list(encode, items) + rest;
    if items.len() == 0 {
        assert(items =~= Seq::empty());
    } else {
        let front = items.drop_last();
        let last = items.last();
        let front_bytes = serialize_list(encode, front);
        assert forall|i: int, tail: Seq<u8>| 0 <= i < front.len() implies #[trigger] decode(
            encode(front[i]) + tail,
        ) == (Parsed::Done { value: front[i], used: encode(front[i]).len() }) by {
            assert(front[i] == items[i]);
        }
        assert(s =~= front_bytes + (encode(last) + rest));
        lemma_list_roundtrip(encode, decode, front, encode(last) + rest);
        assert(s.skip(front_bytes.len() as int) =~= encode(last) + rest);
        assert(items[items.len() - 1] == last);
        assert(front.push(last) =~= items);
    }
}

/// The number of `items` as a compact size, then their encodings.
pub open spec fn serialize_counted_list<V>(encode: spec_fn(V) -> Seq<u8>, items: Seq<V>) -> Seq<
    u8,
> {
    varint_encoding(items.len()) + serialize_list(encode, items)
}

/// Reads a compact size from the front of `s`, then that many records.
pub open spec fn parse_counted_list<V>(decode: spec_fn(Seq<u8>) -> Parsed<V>, s: Seq<u8>) -> Parsed<
    Seq<V>,
> {
    match parse_varint(s) {
        Parsed::Failed { used } => Parsed::Failed { used },
        Parsed::Rejected { used, message } => Parsed::Rejected { used, message },
        Parsed::Done { value: count, used } => match parse_list(decode, s.skip(used as int), count) {
            Parsed::Failed { used: more } => Parsed::Failed { used: used + more },
            Parsed::Rejected { used: more, message } => Parsed::Rejected {
                used: used + more,
                message,
            },
            Parsed::Done { value, used: more } => Parsed::Done { value, used: used + more },
        },
    }
}

/// Where reading the encoding of each item gives the item back, reading the
/// counted encoding of the list gives the list back and passes exactly its
/// bytes.
pub proof fn lemma_counted_list_roundtrip<V>(
    encode: spec_fn(V) -> Seq<u8>,
    decode: spec_fn(Seq<u8>) -> Parsed<V>,
    items: Seq<V>,
    rest: Seq<u8>,
)
    requires
        items.len() <= u64::MAX,
        forall|i: int, tail: Seq<u8>|
            0 <= i < items.len() ==> #[trigger] decode(encode(items[i]) + tail) == (Parsed::Done {
                value: items[i],
                used: encode(items[i]).len(),
            }),
    ensures
        parse_counted_list(decode, serialize_counted_list(encode, items) + rest) == (Parsed::Done {
            value: items,
            used: serialize_counted_list(encode, items).len(),
        }),
{
    let count = varint_encoding(items.len());
    let body = serialize_list(encode, items);
    let s = serialize_counted_list(encode, items) + rest;
    assert(s =~= count + (body + rest));
    lemma_varint_roundtrip(items.len() as u64, body + rest);
    assert(s.skip(count.len() as int) =~= body + rest);
    lemma_list_roundtrip(encode, decode, items, rest);
}

/// Where no record is ever rejected, no list of records is.
pub proof fn lemma_parse_list_not_rejected<V>(
    decode: spec_fn(Seq<u8>) -> Parsed<V>,
    s: Seq<u8>,
    count: nat,
)
    requires
        forall|t: Seq<u8>| !(#[trigger] decode(t) is Rejected),
    ensures
        !(parse_list(decode, s, count) is Rejected),
        !(parse_counted_list(decode, s) is Rejected),
    decreases count,
{
    if count > 0 {
        lemma_parse_list_not_rejected(decode, s, (count - 1) as nat);
    }
    match parse_varint(s) {
        Parsed::Done { value, used } => {
            lemma_parse_list_not_rejected_at(decode, s.skip(used as int), value);
        },
        _ => {},
    }
}

/// Where no record is ever rejected, no list of a given length is.
pub proof fn lemma_parse_list_not_rejected_at<V>(
    decode: spec_fn(Seq<u8>) -> Parsed<V>,
    s: Seq<u8>,
    count: nat,
)
    requires
        forall|t: Seq<u8>| !(#[trigger] decode(t) is Rejected),
    ensures
        !(parse_list(decode, s, count) is Rejected),
    decreases count,
{
    if count > 0 {
        lemma_parse_list_not_rejected_at(decode, s, (count - 1) as nat);
    }
}

} // verus!
