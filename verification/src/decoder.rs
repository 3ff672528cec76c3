//! The `Decoder`, the `Decodable` trait that it drives, and the readers of the
//! byte-level encodings.

use crate::encoding::{CompleteEncoding, FieldEncoding, FieldID, Quantifier, RecordEncoding, Type};
use crate::primitive::{unzigzag, Primitive, PrimitiveView};
use vstd::prelude::*;
use vstd::slice::{slice_subrange, slice_to_vec};
use vstd::utf8::{decode_utf8, encode_utf8, valid_utf8};

verus! {

/// The error with which `String::from_utf8` of the standard library refuses
/// bytes that are not UTF-8. It holds the bytes and the place of the fault.
#[verifier::external_type_specification]
#[verifier::external_body]
pub struct ExFromUtf8Error(std::string::FromUtf8Error);

/// `Error` is used to report errors that occur during the decoding process.
#[derive(Debug, PartialEq, Eq)]
pub enum Error {
    /// `EOF` indicates that the record source ended before it could be fully
    /// decoded.
    EOF,
    /// `FieldTypeMismatch` indicates a disagreement between the `Decoder` and
    /// the `Decodable` about what the type of a field is. Either the wrong
    /// `CompleteEncoding` is in use, or the `Decodable` is not consistent with
    /// the record definition.
    FieldTypeMismatch,
    /// `EncodingInvalid` indicates that there is an inconsistency in the
    /// `CompleteEncoding` being used.
    EncodingInvalid,
    /// `BadBool` indicates that a bool was read off the wire as a value other
    /// than `0xFF` or `0x00`.
    BadBool,
    /// `Utf8Error` passes on the error with which the bytes of a string were
    /// refused as not being UTF-8.
    Utf8Error(std::string::FromUtf8Error),
    /// `IoError` indicates a failure of the source that the bytes come from.
    /// No reader of this module gives it; a `Decodable` may.
    IoError,
}

/// What kind of error an `Error` is, without what it carries.
#[derive(Clone, Copy, Debug, PartialEq, Eq, Structural)]
pub enum ErrorKind {
    EOF,
    FieldTypeMismatch,
    EncodingInvalid,
    BadBool,
    Utf8Error,
    IoError,
}

impl View for Error {
    type V = ErrorKind;

    open spec fn view(&self) -> ErrorKind {
        match *self {
            Error::EOF => ErrorKind::EOF,
            Error::FieldTypeMismatch => ErrorKind::FieldTypeMismatch,
            Error::EncodingInvalid => ErrorKind::EncodingInvalid,
            Error::BadBool => ErrorKind::BadBool,
            Error::Utf8Error(_) => ErrorKind::Utf8Error,
            Error::IoError => ErrorKind::IoError,
        }
    }
}

impl Error {
    /// The kind of this error.
    pub fn kind(&self) -> (k: ErrorKind)
        ensures
            k == self@,
    {
        match self {
            Error::EOF => ErrorKind::EOF,
            Error::FieldTypeMismatch => ErrorKind::FieldTypeMismatch,
            Error::EncodingInvalid => ErrorKind::EncodingInvalid,
            Error::BadBool => ErrorKind::BadBool,
            Error::Utf8Error(_) => ErrorKind::Utf8Error,
            Error::IoError => ErrorKind::IoError,
        }
    }
}

/// A cursor over bytes in memory: the bytes of `buf` from `pos` on are still
/// to be read. A position beyond the end reads as an exhausted source.
pub struct Reader<'a> {
    pub buf: &'a [u8],
    pub pos: usize,
}

impl<'a> Reader<'a> {
    /// A reader at the start of `buf`.
    pub fn new(buf: &'a [u8]) -> (r: Reader<'a>)
        ensures
            r.buf@ == buf@,
            r.pos == 0,
    {
        Reader { buf, pos: 0 }
    }

    /// This reader reads the same bytes as `before` and stands at `pos`.
    pub open spec fn moved(&self, before: &Reader<'a>, pos: int) -> bool {
        self.buf@ == before.buf@ && self.pos == pos
    }

    /// The number of bytes still to be read.
    pub fn remaining(&self) -> (n: usize)
        ensures
            n == if self.pos <= self.buf@.len() {
                self.buf@.len() - self.pos
            } else {
                0
            },
            self.buf@.len() <= usize::MAX,
    {
        if self.pos <= self.buf.len() {
            self.buf.len() - self.pos
        } else {
            0
        }
    }
}

/// The unsigned varint that starts at `pos`, with its groups placed from bit
/// `shift` on, and the position after it. Each byte gives its low seven bits;
/// the first byte with a clear high bit is the last. Bits that would land
/// beyond bit 63 are dropped, so an overlong varint is read without error.
/// `None` where the bytes end before the varint does.
pub open spec fn uvarint_at(s: Seq<u8>, pos: int, shift: u64) -> Option<(u64, int)>
    decreases s.len() - pos,
{
    if pos < 0 || pos >= s.len() {
        None
    } else {
        let group: u64 = if shift < 64 {
            ((s[pos] % 0x80) as u64) << shift
        } else {
            0
        };
        if s[pos] < 0x80 {
            Some((group, pos + 1))
        } else {
            let next_shift: u64 = if shift < 64 {
                (shift + 7) as u64
            } else {
                shift
            };
            match uvarint_at(s, pos + 1, next_shift) {
                Some((rest, end)) => Some((group | rest, end)),
                None => None,
            }
        }
    }
}

/// The unsigned varint that starts at `pos` and the position after it.
pub open spec fn parse_uvarint(s: Seq<u8>, pos: int) -> Option<(u64, int)> {
    uvarint_at(s, pos, 0)
}

/// The zig-zag varint that starts at `pos` and the position after it.
pub open spec fn parse_varint(s: Seq<u8>, pos: int) -> Option<(i64, int)> {
    match parse_uvarint(s, pos) {
        Some((u, end)) => Some((unzigzag(u), end)),
        None => None,
    }
}

/// A varint ends after where it starts, and within the bytes.
pub proof fn lemma_uvarint_at_bounds(s: Seq<u8>, pos: int, shift: u64)
    ensures
        uvarint_at(s, pos, shift) matches Some((_, end)) ==> 0 <= pos < end <= s.len(),
    decreases s.len() - pos,
{
    if 0 <= pos < s.len() && s[pos] >= 0x80 {
        let next_shift: u64 = if shift < 64 {
            (shift + 7) as u64
        } else {
            shift
        };
        lemma_uvarint_at_bounds(s, pos + 1, next_shift);
    }
}

/// Whether `n` bytes can be read at `pos`.
pub open spec fn has_bytes(s: Seq<u8>, pos: int, n: int) -> bool {
    0 <= pos && 0 <= n && pos + n <= s.len()
}

/// The 16-bit word whose little-endian bytes start at `pos`.
pub open spec fn u16_le_at(s: Seq<u8>, pos: int) -> u16 {
    (s[pos] + 0x100 * s[pos + 1]) as u16
}

/// The 32-bit word whose little-endian bytes start at `pos`.
pub open spec fn u32_le_at(s: Seq<u8>, pos: int) -> u32 {
    (s[pos] + 0x100 * s[pos + 1] + 0x1_0000 * s[pos + 2] + 0x100_0000 * s[pos + 3]) as u32
}

/// The 64-bit word whose little-endian bytes start at `pos`.
pub open spec fn u64_le_at(s: Seq<u8>, pos: int) -> u64 {
    (s[pos] + 0x100 * s[pos + 1] + 0x1_0000 * s[pos + 2] + 0x100_0000 * s[pos + 3] + 0x1_0000_0000
        * s[pos + 4] + 0x100_0000_0000 * s[pos + 5] + 0x1_0000_0000_0000 * s[pos + 6]
        + 0x100_0000_0000_0000 * s[pos + 7]) as u64
}

/// The number that the byte `u` holds in two's complement.
pub open spec fn i8_of_bits(u: u8) -> i8 {
    if u >= 0x80 {
        (u - 0x100) as i8
    } else {
        u as i8
    }
}

/// The number that the 16-bit word `u` holds in two's complement.
pub open spec fn i16_of_bits(u: u16) -> i16 {
    if u >= 0x8000 {
        (u - 0x1_0000) as i16
    } else {
        u as i16
    }
}

/// The number that the 32-bit word `u` holds in two's complement.
pub open spec fn i32_of_bits(u: u32) -> i32 {
    if u >= 0x8000_0000 {
        (u - 0x1_0000_0000) as i32
    } else {
        u as i32
    }
}

/// The number that the 64-bit word `u` holds in two's complement.
pub open spec fn i64_of_bits(u: u64) -> i64 {
    if u >= 0x8000_0000_0000_0000 {
        (u - 0x1_0000_0000_0000_0000) as i64
    } else {
        u as i64
    }
}

/// `read_uvarint` reads a varint encoded `u64` from `r`. Where the bytes end
/// before the varint does, it gives `EOF` and leaves `r` as it was.
pub fn read_uvarint(r: &mut Reader) -> (res: Result<u64, Error>)
    ensures
        match parse_uvarint(old(r).buf@, old(r).pos as int) {
            Some((x, end)) => res == Ok::<u64, Error>(x) && final(r).moved(old(r), end),
            None => res == Err::<u64, Error>(Error::EOF) && final(r).moved(
                old(r),
                old(r).pos as int,
            ),
        },
{
    let ghost s = r.buf@;
    let ghost start = r.pos as int;
    let mut pos: usize = r.pos;
    let mut acc: u64 = 0;
    let mut shift: u64 = 0;
    assert(forall|v: u64| 0u64 | v == v) by (bit_vector);
    while pos < r.buf.len()
        invariant
            r.buf@ == s,
            r.pos == start,
            old(r).buf@ == s,
            old(r).pos == start,
            start <= pos,
            shift <= 70,
            parse_uvarint(s, start) == match uvarint_at(s, pos as int, shift) {
                Some((rest, end)) => Some((acc | rest, end)),
                None => None,
            },
        decreases r.buf@.len() - pos,
    {
        let b: u8 = r.buf[pos];
        let low: u8 = b & 0x7F;
        assert(low == b % 0x80) by (bit_vector)
            requires
                low == b & 0x7F,
        ;
        let group: u64 = if shift < 64 {
            (low as u64) << shift
        } else {
            0
        };
        assert(forall|v: u64| acc | (group | v) == (acc | group) | v) by (bit_vector);
        assert(acc | group == (acc | group) | 0) by (bit_vector);
        acc = acc | group;
        pos = pos + 1;
        if b < 0x80 {
            r.pos = pos;
            return Ok(acc);
        }
        if shift < 64 {
            shift = shift + 7;
        }
    }
    Err(Error::EOF)
}

/// `read_varint` reads a zig-zag varint encoded `i64` from `r`: the code's low
/// bit tells the sign. Where the bytes end before the varint does, it gives
/// `EOF` and leaves `r` as it was.
pub fn read_varint(r: &mut Reader) -> (res: Result<i64, Error>)
    ensures
        match parse_varint(old(r).buf@, old(r).pos as int) {
            Some((x, end)) => res == Ok::<i64, Error>(x) && final(r).moved(old(r), end),
            None => res == Err::<i64, Error>(Error::EOF) && final(r).moved(
                old(r),
                old(r).pos as int,
            ),
        },
{
    match read_uvarint(r) {
        Ok(ux) => {
            let x: i64 = if ux & 1 != 0 {
                !(ux >> 1) as i64
            } else {
                (ux >> 1) as i64
            };
            assert(x == unzigzag(ux)) by {
                assert((ux & 1 != 0) == (ux % 2 != 0)) by (bit_vector);
                assert(ux % 2 == 0 ==> (ux >> 1) as i64 == (ux / 2) as i64) by (bit_vector);
                assert(ux % 2 != 0 ==> !(ux >> 1) as i64 == (-(ux / 2) - 1) as i64)
                    by (bit_vector);
            }
            Ok(x)
        },
        Err(e) => Err(e),
    }
}

/// `read_u8` reads a single byte from `r`, or gives `EOF` where none is left.
pub fn read_u8(r: &mut Reader) -> (res: Result<u8, Error>)
    ensures
        has_bytes(old(r).buf@, old(r).pos as int, 1) ==> res == Ok::<u8, Error>(
            old(r).buf@[old(r).pos as int],
        ) && final(r).moved(old(r), old(r).pos + 1),
        !has_bytes(old(r).buf@, old(r).pos as int, 1) ==> res == Err::<u8, Error>(Error::EOF)
            && final(r).moved(old(r), old(r).pos as int),
{
    if r.pos < r.buf.len() {
        let b: u8 = r.buf[r.pos];
        r.pos = r.pos + 1;
        Ok(b)
    } else {
        Err(Error::EOF)
    }
}

/// `read_le_u16` reads 2 bytes as a little endian `u16` from `r`, or gives
/// `EOF` and leaves `r` as it was where fewer are left.
pub fn read_le_u16(r: &mut Reader) -> (res: Result<u16, Error>)
    ensures
        has_bytes(old(r).buf@, old(r).pos as int, 2) ==> res == Ok::<u16, Error>(
            u16_le_at(old(r).buf@, old(r).pos as int),
        ) && final(r).moved(old(r), old(r).pos + 2),
        !has_bytes(old(r).buf@, old(r).pos as int, 2) ==> res == Err::<u16, Error>(Error::EOF)
            && final(r).moved(old(r), old(r).pos as int),
{
    if r.remaining() < 2 {
        return Err(Error::EOF);
    }
    let p: usize = r.pos;
    let b0: u16 = r.buf[p] as u16;
    let b1: u16 = r.buf[p + 1] as u16;
    r.pos = p + 2;
    Ok(b0 + 0x100 * b1)
}

/// `read_le_u32` reads 4 bytes as a little endian `u32` from `r`, or gives
/// `EOF` and leaves `r` as it was where fewer are left.
pub fn read_le_u32(r: &mut Reader) -> (res: Result<u32, Error>)
    ensures
        has_bytes(old(r).buf@, old(r).pos as int, 4) ==> res == Ok::<u32, Error>(
            u32_le_at(old(r).buf@, old(r).pos as int),
        ) && final(r).moved(old(r), old(r).pos + 4),
        !has_bytes(old(r).buf@, old(r).pos as int, 4) ==> res == Err::<u32, Error>(Error::EOF)
            && final(r).moved(old(r), old(r).pos as int),
{
    if r.remaining() < 4 {
        return Err(Error::EOF);
    }
    let p: usize = r.pos;
    let b0: u32 = r.buf[p] as u32;
    let b1: u32 = r.buf[p + 1] as u32;
    let b2: u32 = r.buf[p + 2] as u32;
    let b3: u32 = r.buf[p + 3] as u32;
    r.pos = p + 4;
    Ok(b0 + 0x100 * b1 + 0x1_0000 * b2 + 0x100_0000 * b3)
}

/// `read_le_u64` reads 8 bytes as a little endian `u64` from `r`, or gives
/// `EOF` and leaves `r` as it was where fewer are left.
pub fn read_le_u64(r: &mut Reader) -> (res: Result<u64, Error>)
    ensures
        has_bytes(old(r).buf@, old(r).pos as int, 8) ==> res == Ok::<u64, Error>(
            u64_le_at(old(r).buf@, old(r).pos as int),
        ) && final(r).moved(old(r), old(r).pos + 8),
        !has_bytes(old(r).buf@, old(r).pos as int, 8) ==> res == Err::<u64, Error>(Error::EOF)
            && final(r).moved(old(r), old(r).pos as int),
{
    if r.remaining() < 8 {
        return Err(Error::EOF);
    }
    let p: usize = r.pos;
    let b0: u64 = r.buf[p] as u64;
    let b1: u64 = r.buf[p + 1] as u64;
    let b2: u64 = r.buf[p + 2] as u64;
    let b3: u64 = r.buf[p + 3] as u64;
    let b4: u64 = r.buf[p + 4] as u64;
    let b5: u64 = r.buf[p + 5] as u64;
    let b6: u64 = r.buf[p + 6] as u64;
    let b7: u64 = r.buf[p + 7] as u64;
    r.pos = p + 8;
    Ok(
        b0 + 0x100 * b1 + 0x1_0000 * b2 + 0x100_0000 * b3 + 0x1_0000_0000 * b4 + 0x100_0000_0000
            * b5 + 0x1_0000_0000_0000 * b6 + 0x100_0000_0000_0000 * b7,
    )
}

/// `read_i8` reads a single byte from `r`, as a 2's complement `i8`.
pub fn read_i8(r: &mut Reader) -> (res: Result<i8, Error>)
    ensures
        has_bytes(old(r).buf@, old(r).pos as int, 1) ==> res == Ok::<i8, Error>(
            i8_of_bits(old(r).buf@[old(r).pos as int]),
        ) && final(r).moved(old(r), old(r).pos + 1),
        !has_bytes(old(r).buf@, old(r).pos as int, 1) ==> res == Err::<i8, Error>(Error::EOF)
            && final(r).moved(old(r), old(r).pos as int),
{
    match read_u8(r) {
        Ok(u) => {
            assert(u as i8 == i8_of_bits(u)) by (bit_vector);
            Ok(u as i8)
        },
        Err(e) => Err(e),
    }
}

/// `read_le_i16` reads 2 bytes as a little endian 2's complement `i16` from
/// `r`.
pub fn read_le_i16(r: &mut Reader) -> (res: Result<i16, Error>)
    ensures
        has_bytes(old(r).buf@, old(r).pos as int, 2) ==> res == Ok::<i16, Error>(
            i16_of_bits(u16_le_at(old(r).buf@, old(r).pos as int)),
        ) && final(r).moved(old(r), old(r).pos + 2),
        !has_bytes(old(r).buf@, old(r).pos as int, 2) ==> res == Err::<i16, Error>(Error::EOF)
            && final(r).moved(old(r), old(r).pos as int),
{
    match read_le_u16(r) {
        Ok(u) => {
            assert(u as i16 == i16_of_bits(u)) by (bit_vector);
            Ok(u as i16)
        },
        Err(e) => Err(e),
    }
}

/// `read_le_i32` reads 4 bytes as a little endian 2's complement `i32` from
/// `r`.
pub fn read_le_i32(r: &mut Reader) -> (res: Result<i32, Error>)
    ensures
        has_bytes(old(r).buf@, old(r).pos as int, 4) ==> res == Ok::<i32, Error>(
            i32_of_bits(u32_le_at(old(r).buf@, old(r).pos as int)),
        ) && final(r).moved(old(r), old(r).pos + 4),
        !has_bytes(old(r).buf@, old(r).pos as int, 4) ==> res == Err::<i32, Error>(Error::EOF)
            && final(r).moved(old(r), old(r).pos as int),
{
    match read_le_u32(r) {
        Ok(u) => {
            assert(u as i32 == i32_of_bits(u)) by (bit_vector);
            Ok(u as i32)
        },
        Err(e) => Err(e),
    }
}

/// `read_le_i64` reads 8 bytes as a little endian 2's complement `i64` from
/// `r`.
pub fn read_le_i64(r: &mut Reader) -> (res: Result<i64, Error>)
    ensures
        has_bytes(old(r).buf@, old(r).pos as int, 8) ==> res == Ok::<i64, Error>(
            i64_of_bits(u64_le_at(old(r).buf@, old(r).pos as int)),
        ) && final(r).moved(old(r), old(r).pos + 8),
        !has_bytes(old(r).buf@, old(r).pos as int, 8) ==> res == Err::<i64, Error>(Error::EOF)
            && final(r).moved(old(r), old(r).pos as int),
{
    match read_le_u64(r) {
        Ok(u) => {
            assert(u as i64 == i64_of_bits(u)) by (bit_vector);
            Ok(u as i64)
        },
        Err(e) => Err(e),
    }
}

/// Skips `n` bytes of `r`, or gives `EOF` and leaves `r` as it was where fewer
/// are left.
pub fn skip_bytes(r: &mut Reader, n: u64) -> (res: Result<(), Error>)
    ensures
        has_bytes(old(r).buf@, old(r).pos as int, n as int) ==> res is Ok && final(r).moved(
            old(r),
            old(r).pos + n,
        ),
        !has_bytes(old(r).buf@, old(r).pos as int, n as int) ==> res == Err::<(), Error>(
            Error::EOF,
        ) && final(r).moved(old(r), old(r).pos as int),
{
    let left: usize = r.remaining();
    if r.pos <= r.buf.len() && n <= left as u64 {
        r.pos = r.pos + n as usize;
        Ok(())
    } else {
        Err(Error::EOF)
    }
}

/// The low 32 bits of `u`.
pub open spec fn low_u32(u: u64) -> u32 {
    (u % 0x1_0000_0000) as u32
}

/// The number that the low 32 bits of `x` hold in two's complement.
pub open spec fn low_i32(x: i64) -> i32 {
    i32_of_bits(low_u32(crate::primitive::i64_bits(x)))
}

/// The boolean that the byte `b` stands for, if any.
pub open spec fn bool_of_byte(b: u8) -> Option<bool> {
    if b == 0xFF {
        Some(true)
    } else if b == 0x00 {
        Some(false)
    } else {
        None
    }
}

/// The length-prefixed bytes that start at `pos` and the position after them:
/// a varint gives the number of bytes that follow it.
pub open spec fn parse_bytes(s: Seq<u8>, pos: int) -> Option<(Seq<u8>, int)> {
    match parse_uvarint(s, pos) {
        Some((len, start)) => if has_bytes(s, start, len as int) {
            Some((s.subrange(start, start + len), start + len))
        } else {
            None
        },
        None => None,
    }
}

/// The primitive of type `t` that starts at `pos`, and the position after it.
///
/// `EOF` where the bytes end too early, `BadBool` where a boolean's byte is
/// neither `0xFF` nor `0x00`, `Utf8Error` where a string's bytes are not
/// UTF-8, and `EncodingInvalid` where `t` is a record type. An unsigned or
/// signed 32-bit integer is a varint of which the low 32 bits count.
pub open spec fn parse_primitive(t: Type, s: Seq<u8>, pos: int) -> Result<
    (PrimitiveView, int),
    ErrorKind,
> {
    match t {
        Type::UInt8 => if has_bytes(s, pos, 1) {
            Ok((PrimitiveView::UInt8(s[pos]), pos + 1))
        } else {
            Err(ErrorKind::EOF)
        },
        Type::UInt16 => if has_bytes(s, pos, 2) {
            Ok((PrimitiveView::UInt16(u16_le_at(s, pos)), pos + 2))
        } else {
            Err(ErrorKind::EOF)
        },
        Type::UInt32 => match parse_uvarint(s, pos) {
            Some((u, end)) => Ok((PrimitiveView::UInt32(low_u32(u)), end)),
            None => Err(ErrorKind::EOF),
        },
        Type::UInt64 => match parse_uvarint(s, pos) {
            Some((u, end)) => Ok((PrimitiveView::UInt64(u), end)),
            None => Err(ErrorKind::EOF),
        },
        Type::Int8 => if has_bytes(s, pos, 1) {
            Ok((PrimitiveView::Int8(i8_of_bits(s[pos])), pos + 1))
        } else {
            Err(ErrorKind::EOF)
        },
        Type::Int16 => if has_bytes(s, pos, 2) {
            Ok((PrimitiveView::Int16(i16_of_bits(u16_le_at(s, pos))), pos + 2))
        } else {
            Err(ErrorKind::EOF)
        },
        Type::Int32 => match parse_varint(s, pos) {
            Some((x, end)) => Ok((PrimitiveView::Int32(low_i32(x)), end)),
            None => Err(ErrorKind::EOF),
        },
        Type::Int64 => match parse_varint(s, pos) {
            Some((x, end)) => Ok((PrimitiveView::Int64(x), end)),
            None => Err(ErrorKind::EOF),
        },
        Type::Fixed32 => if has_bytes(s, pos, 4) {
            Ok((PrimitiveView::Fixed32(u32_le_at(s, pos)), pos + 4))
        } else {
            Err(ErrorKind::EOF)
        },
        Type::Fixed64 => if has_bytes(s, pos, 8) {
            Ok((PrimitiveView::Fixed64(u64_le_at(s, pos)), pos + 8))
        } else {
            Err(ErrorKind::EOF)
        },
        Type::Float32 => if has_bytes(s, pos, 4) {
            Ok((PrimitiveView::Float32(u32_le_at(s, pos)), pos + 4))
        } else {
            Err(ErrorKind::EOF)
        },
        Type::Float64 => if has_bytes(s, pos, 8) {
            Ok((PrimitiveView::Float64(u64_le_at(s, pos)), pos + 8))
        } else {
            Err(ErrorKind::EOF)
        },
        Type::Bool => if has_bytes(s, pos, 1) {
            match bool_of_byte(s[pos]) {
                Some(b) => Ok((PrimitiveView::Bool(b), pos + 1)),
                None => Err(ErrorKind::BadBool),
            }
        } else {
            Err(ErrorKind::EOF)
        },
        Type::Bytes => match parse_bytes(s, pos) {
            Some((bytes, end)) => Ok((PrimitiveView::Bytes(bytes), end)),
            None => Err(ErrorKind::EOF),
        },
        Type::String => match parse_bytes(s, pos) {
            Some((bytes, end)) => if valid_utf8(bytes) {
                Ok((PrimitiveView::String(decode_utf8(bytes)), end))
            } else {
                Err(ErrorKind::Utf8Error)
            },
            None => Err(ErrorKind::EOF),
        },
        Type::Enum => match parse_varint(s, pos) {
            Some((x, end)) => Ok((PrimitiveView::Enum(x), end)),
            None => Err(ErrorKind::EOF),
        },
        Type::Record { .. } => Err(ErrorKind::EncodingInvalid),
    }
}

/// Makes a string of `bytes` with `String::from_utf8` of the standard library,
/// which succeeds exactly on valid UTF-8 and then gives the string that has
/// these bytes as its UTF-8 form.
#[verifier::external_body]
fn string_from_utf8(bytes: Vec<u8>) -> (res: Result<String, std::string::FromUtf8Error>)
    ensures
        res is Ok <==> valid_utf8(bytes@),
        res matches Ok(text) ==> encode_utf8(text@) == bytes@,
{
    String::from_utf8(bytes)
}

/// Reads length-prefixed bytes from `r`.
fn read_bytes(r: &mut Reader) -> (res: Result<Vec<u8>, Error>)
    ensures
        final(r).buf@ == old(r).buf@,
        match parse_bytes(old(r).buf@, old(r).pos as int) {
            Some((bytes, end)) => res matches Ok(v) && v@ == bytes && final(r).pos == end,
            None => res matches Err(e) && e == Error::EOF,
        },
{
    proof {
        lemma_uvarint_at_bounds(r.buf@, r.pos as int, 0);
    }
    match read_uvarint(r) {
        Ok(len) => {
            let left: usize = r.remaining();
            if len <= left as u64 {
                let start: usize = r.pos;
                let end: usize = start + len as usize;
                let v: Vec<u8> = slice_to_vec(slice_subrange(r.buf, start, end));
                r.pos = end;
                Ok(v)
            } else {
                Err(Error::EOF)
            }
        },
        Err(e) => Err(e),
    }
}

/// Reads one primitive of a type that takes a fixed number of bytes.
fn read_fixed_primitive(r: &mut Reader, t: Type) -> (res: Result<Primitive, Error>)
    requires
        t is UInt8 || t is UInt16 || t is Int8 || t is Int16 || t is Fixed32 || t is Fixed64
            || t is Float32 || t is Float64 || t is Bool,
    ensures
        final(r).buf@ == old(r).buf@,
        match parse_primitive(t, old(r).buf@, old(r).pos as int) {
            Ok((p, end)) => res matches Ok(prim) && prim@ == p && final(r).pos == end,
            Err(e) => res matches Err(err) && err@ == e,
        },
{
    match t {
        Type::UInt8 => match read_u8(r) {
            Ok(x) => Ok(Primitive::UInt8(x)),
            Err(e) => Err(e),
        },
        Type::UInt16 => match read_le_u16(r) {
            Ok(x) => Ok(Primitive::UInt16(x)),
            Err(e) => Err(e),
        },
        Type::Int8 => match read_i8(r) {
            Ok(x) => Ok(Primitive::Int8(x)),
            Err(e) => Err(e),
        },
        Type::Int16 => match read_le_i16(r) {
            Ok(x) => Ok(Primitive::Int16(x)),
            Err(e) => Err(e),
        },
        Type::Fixed32 => match read_le_u32(r) {
            Ok(x) => Ok(Primitive::Fixed32(x)),
            Err(e) => Err(e),
        },
        Type::Fixed64 => match read_le_u64(r) {
            Ok(x) => Ok(Primitive::Fixed64(x)),
            Err(e) => Err(e),
        },
        Type::Float32 => match read_le_u32(r) {
            Ok(x) => Ok(Primitive::Float32(x)),
            Err(e) => Err(e),
        },
        Type::Float64 => match read_le_u64(r) {
            Ok(x) => Ok(Primitive::Float64(x)),
            Err(e) => Err(e),
        },
        _ => match read_u8(r) {
            Ok(x) => if x == 0xFF {
                Ok(Primitive::Bool(true))
            } else if x == 0x00 {
                Ok(Primitive::Bool(false))
            } else {
                Err(Error::BadBool)
            },
            Err(e) => Err(e),
        },
    }
}

/// Reads one primitive of a type that travels as a varint.
fn read_varint_primitive(r: &mut Reader, t: Type) -> (res: Result<Primitive, Error>)
    requires
        t is UInt32 || t is UInt64 || t is Int32 || t is Int64 || t is Enum,
    ensures
        final(r).buf@ == old(r).buf@,
        match parse_primitive(t, old(r).buf@, old(r).pos as int) {
            Ok((p, end)) => res matches Ok(prim) && prim@ == p && final(r).pos == end,
            Err(e) => res matches Err(err) && err@ == e,
        },
{
    match t {
        Type::UInt32 => match read_uvarint(r) {
            Ok(x) => {
                assert(x as u32 == low_u32(x)) by (bit_vector);
                Ok(Primitive::UInt32(x as u32))
            },
            Err(e) => Err(e),
        },
        Type::UInt64 => match read_uvarint(r) {
            Ok(x) => Ok(Primitive::UInt64(x)),
            Err(e) => Err(e),
        },
        Type::Int32 => match read_varint(r) {
            Ok(x) => {
                assert(x as i32 == low_i32(x)) by (bit_vector);
                Ok(Primitive::Int32(x as i32))
            },
            Err(e) => Err(e),
        },
        Type::Int64 => match read_varint(r) {
            Ok(x) => Ok(Primitive::Int64(x)),
            Err(e) => Err(e),
        },
        _ => match read_varint(r) {
            Ok(x) => Ok(Primitive::Enum(x)),
            Err(e) => Err(e),
        },
    }
}

/// Reads one primitive of a type that travels behind its length.
fn read_sized_primitive(r: &mut Reader, t: Type) -> (res: Result<Primitive, Error>)
    requires
        t is Bytes || t is String,
    ensures
        final(r).buf@ == old(r).buf@,
        match parse_primitive(t, old(r).buf@, old(r).pos as int) {
            Ok((p, end)) => res matches Ok(prim) && prim@ == p && final(r).pos == end,
            Err(e) => res matches Err(err) && err@ == e,
        },
{
    match read_bytes(r) {
        Ok(v) => match t {
            Type::Bytes => Ok(Primitive::Bytes(v)),
            _ => match string_from_utf8(v) {
                Ok(text) => {
                    proof {
                        vstd::utf8::encode_utf8_decode_utf8(text@);
                    }
                    Ok(Primitive::String(text))
                },
                Err(fault) => Err(Error::Utf8Error(fault)),
            },
        },
        Err(e) => Err(e),
    }
}

/// Reads one primitive of type `t` from `r`. `r` keeps its bytes; where the
/// result is an error, its position is not specified.
pub fn read_primitive(r: &mut Reader, t: Type) -> (res: Result<Primitive, Error>)
    ensures
        final(r).buf@ == old(r).buf@,
        match parse_primitive(t, old(r).buf@, old(r).pos as int) {
            Ok((p, end)) => res matches Ok(prim) && prim@ == p && final(r).pos == end,
            Err(e) => res matches Err(err) && err@ == e,
        },
{
    match t {
        Type::UInt8 | Type::UInt16 | Type::Int8 | Type::Int16 | Type::Fixed32 | Type::Fixed64
        | Type::Float32 | Type::Float64 | Type::Bool => read_fixed_primitive(r, t),
        Type::UInt32 | Type::UInt64 | Type::Int32 | Type::Int64 | Type::Enum => {
            read_varint_primitive(r, t)
        },
        Type::Bytes | Type::String => read_sized_primitive(r, t),
        Type::Record { .. } => Err(Error::EncodingInvalid),
    }
}

/// The `Decodable` trait allows an object to be decoded from a rex record.
///
/// A `Decoder` calls the three methods in the order of the fields on the wire.
/// What an implementation does is stated over a model of its own choice: the
/// spec functions `on_primitive`, `on_record` and `on_alloc` say, for a model
/// and a call, what the call returns and which model it leaves behind. An
/// implementation that is verified defines all four spec functions.
pub trait Decodable {
    /// What the contracts of this trait see of a value.
    type Model;

    /// The model of this value.
    open spec fn model(&self) -> Self::Model {
        arbitrary()
    }

    /// What `set_primitive` does to the model `m`: the model that it leaves,
    /// or the error that it returns.
    open spec fn on_primitive(m: Self::Model, id: FieldID, idx: usize, prim: PrimitiveView)
        -> Result<Self::Model, Error> {
        arbitrary()
    }

    /// What `decode_record` does to the model `m` when it is handed a decoder
    /// for `rec` and `deps` whose reader stands at `pos` in the bytes `s`: the
    /// model that it leaves and the position at which it leaves the reader, or
    /// the error that it returns.
    open spec fn on_record(
        m: Self::Model,
        rec: RecordEncoding,
        deps: Seq<RecordEncoding>,
        s: Seq<u8>,
        pos: int,
        id: FieldID,
        idx: usize,
    ) -> Result<(Self::Model, int), Error> {
        arbitrary()
    }

    /// What `alloc_field` does to the model `m`: the model that it leaves and
    /// whether the field is wanted, or the error that it returns.
    open spec fn on_alloc(m: Self::Model, id: FieldID, count: usize) -> Result<
        (Self::Model, bool),
        Error,
    > {
        arbitrary()
    }

    /// `set_primitive` sets the value of a single element of a field with
    /// primitive type.
    fn set_primitive(&mut self, id: FieldID, idx: usize, prim: Primitive) -> (res: Result<
        (),
        Error,
    >)
        ensures
            match Self::on_primitive(old(self).model(), id, idx, prim@) {
                Ok(m) => res is Ok && final(self).model() == m,
                Err(e) => res == Err::<(), Error>(e),
            },
    ;

    /// `decode_record` is a request to call `d.decode` on a record field.
    fn decode_record(&mut self, d: Decoder<'_, '_>, id: FieldID, idx: usize) -> (res: Result<
        (),
        Error,
    >)
        ensures
            final(d.r).buf@ == old(d.r).buf@,
            match Self::on_record(
                old(self).model(),
                *d.rec,
                d.deps@,
                old(d.r).buf@,
                old(d.r).pos as int,
                id,
                idx,
            ) {
                Ok((m, end)) => res is Ok && final(self).model() == m && final(d.r).pos == end,
                Err(e) => res == Err::<(), Error>(e),
            },
    ;

    /// `alloc_field` requests that the receiver allocate space for an optional
    /// or repeated field. The boolean return value can be `false` to indicate
    /// that the receiver is uninterested in this field.
    fn alloc_field(&mut self, id: FieldID, count: usize) -> (res: Result<bool, Error>)
        ensures
            match Self::on_alloc(old(self).model(), id, count) {
                Ok((m, wanted)) => res == Ok::<bool, Error>(wanted) && final(self).model() == m,
                Err(e) => res == Err::<bool, Error>(e),
            },
    ;
}

/// How a decoding step ends.
pub enum Decoded<M> {
    /// It succeeded: the model that the `Decodable` is left with, and the
    /// position at which the reader stands.
    Done(M, int),
    /// The decoder itself found the error. The `Decodable` is as the calls
    /// before the error left it: nothing was handed to it for what could not
    /// be decoded.
    Refused(ErrorKind, M),
    /// A method of the `Decodable` returned the error. What the `Decodable`
    /// is left with is its own matter.
    Failed(Error),
}

/// Whether what a decoding step returned, with the model and the reader
/// position that it left, is what `goal` asks for.
pub open spec fn agrees<M>(res: Result<(), Error>, m: M, pos: int, goal: Decoded<M>) -> bool {
    match goal {
        Decoded::Done(gm, gpos) => res is Ok && m == gm && pos == gpos,
        Decoded::Refused(kind, gm) => res matches Err(e) && e@ == kind && m == gm,
        Decoded::Failed(e) => res == Err::<(), Error>(e),
    }
}

/// The position after a field that is skipped at `pos`: a varint gives the
/// number of bytes to pass over. `None` where the bytes end too early.
pub open spec fn skipped(s: Seq<u8>, pos: int) -> Option<int> {
    match parse_uvarint(s, pos) {
        Some((len, start)) => if has_bytes(s, start, len as int) {
            Some(start + len)
        } else {
            None
        },
        None => None,
    }
}

/// Decoding of one element of field `f` at index `idx`: a record goes to
/// `decode_record` with the encoding that its type names, which must exist;
/// anything else is read as a primitive and goes to `set_primitive`. Where
/// the primitive cannot be read, nothing goes to the `Decodable`.
pub open spec fn decoded_element<D: Decodable>(
    f: FieldEncoding,
    deps: Seq<RecordEncoding>,
    s: Seq<u8>,
    pos: int,
    m: D::Model,
    idx: usize,
) -> Decoded<D::Model> {
    match f.typ {
        Type::Record { index } => if index < deps.len() {
            match D::on_record(m, deps[index as int], deps, s, pos, f.id, idx) {
                Ok((m_next, end)) => Decoded::Done(m_next, end),
                Err(e) => Decoded::Failed(e),
            }
        } else {
            Decoded::Refused(ErrorKind::EncodingInvalid, m)
        },
        _ => match parse_primitive(f.typ, s, pos) {
            Ok((p, end)) => match D::on_primitive(m, f.id, idx, p) {
                Ok(m_next) => Decoded::Done(m_next, end),
                Err(e) => Decoded::Failed(e),
            },
            Err(kind) => Decoded::Refused(kind, m),
        },
    }
}

/// Decoding of the elements `j` to `n - 1` of an array whose first element has
/// the index `base`. An index that does not fit in `usize` is an
/// `EncodingInvalid` error.
pub open spec fn decoded_run<D: Decodable>(
    f: FieldEncoding,
    deps: Seq<RecordEncoding>,
    s: Seq<u8>,
    pos: int,
    m: D::Model,
    base: int,
    j: int,
    n: int,
) -> Decoded<D::Model>
    decreases n - j,
{
    if j >= n {
        Decoded::Done(m, pos)
    } else if base + j > usize::MAX {
        Decoded::Refused(ErrorKind::EncodingInvalid, m)
    } else {
        match decoded_element::<D>(f, deps, s, pos, m, (base + j) as usize) {
            Decoded::Done(m_next, p_next) => decoded_run::<D>(
                f,
                deps,
                s,
                p_next,
                m_next,
                base,
                j + 1,
                n,
            ),
            other => other,
        }
    }
}

/// Decoding of occurrence `idx` of field `f`: one element at `idx`, or for an
/// array of `n` elements those at `idx * n` to `idx * n + n - 1`.
pub open spec fn decoded_array<D: Decodable>(
    f: FieldEncoding,
    deps: Seq<RecordEncoding>,
    s: Seq<u8>,
    pos: int,
    m: D::Model,
    idx: usize,
) -> Decoded<D::Model> {
    match f.bounds {
        Some(n) => decoded_run::<D>(f, deps, s, pos, m, idx * n, 0, n as int),
        None => decoded_element::<D>(f, deps, s, pos, m, idx),
    }
}

/// Decoding of the occurrences `idx` to `count - 1` of a repeated field.
pub open spec fn decoded_arrays<D: Decodable>(
    f: FieldEncoding,
    deps: Seq<RecordEncoding>,
    s: Seq<u8>,
    pos: int,
    m: D::Model,
    idx: int,
    count: int,
) -> Decoded<D::Model>
    decreases count - idx,
{
    if idx >= count || idx < 0 {
        Decoded::Done(m, pos)
    } else {
        match decoded_array::<D>(f, deps, s, pos, m, idx as usize) {
            Decoded::Done(m_next, p_next) => decoded_arrays::<D>(
                f,
                deps,
                s,
                p_next,
                m_next,
                idx + 1,
                count,
            ),
            other => other,
        }
    }
}

/// Decoding of an optional field whose id has just been read: the size prefix
/// is read, `alloc_field` is asked with count 1, and then the one occurrence
/// is decoded, or, where the field is not wanted, as many bytes are passed
/// over as the size prefix says.
pub open spec fn decoded_optional<D: Decodable>(
    f: FieldEncoding,
    deps: Seq<RecordEncoding>,
    s: Seq<u8>,
    pos: int,
    m: D::Model,
) -> Decoded<D::Model> {
    match parse_uvarint(s, pos) {
        Some((size, start)) => match D::on_alloc(m, f.id, 1) {
            Ok((m_next, wanted)) => if wanted {
                decoded_array::<D>(f, deps, s, start, m_next, 0)
            } else if has_bytes(s, start, size as int) {
                Decoded::Done(m_next, start + size)
            } else {
                Decoded::Refused(ErrorKind::EOF, m_next)
            },
            Err(e) => Decoded::Failed(e),
        },
        None => Decoded::Refused(ErrorKind::EOF, m),
    }
}

/// Decoding of a repeated field whose id has just been read: the size prefix
/// and the count are read, `alloc_field` is asked with the count, and then
/// that many occurrences are decoded, or, where the field is not wanted, the
/// rest of what the size prefix covers is passed over. A count beyond `usize`
/// and a size prefix that does not cover the count are `EOF` errors.
pub open spec fn decoded_repeated<D: Decodable>(
    f: FieldEncoding,
    deps: Seq<RecordEncoding>,
    s: Seq<u8>,
    pos: int,
    m: D::Model,
) -> Decoded<D::Model> {
    match parse_uvarint(s, pos) {
        Some((size, start)) => match parse_uvarint(s, start) {
            Some((count, first)) => if count > usize::MAX {
                Decoded::Refused(ErrorKind::EOF, m)
            } else {
                match D::on_alloc(m, f.id, count as usize) {
                    Ok((m_next, wanted)) => if wanted {
                        decoded_arrays::<D>(f, deps, s, first, m_next, 0, count as int)
                    } else if start + size >= first && has_bytes(s, start, size as int) {
                        Decoded::Done(m_next, start + size)
                    } else {
                        Decoded::Refused(ErrorKind::EOF, m_next)
                    },
                    Err(e) => Decoded::Failed(e),
                }
            },
            None => Decoded::Refused(ErrorKind::EOF, m),
        },
        None => Decoded::Refused(ErrorKind::EOF, m),
    }
}

/// Decoding of the field `f` whose id has just been read, by its quantifier.
/// A required field has no place among the tagged fields: it is refused
/// before anything goes to the `Decodable`.
pub open spec fn decoded_block<D: Decodable>(
    f: FieldEncoding,
    deps: Seq<RecordEncoding>,
    s: Seq<u8>,
    pos: int,
    m: D::Model,
) -> Decoded<D::Model> {
    match f.quant {
        Quantifier::Required => Decoded::Refused(ErrorKind::EncodingInvalid, m),
        Quantifier::Optional => decoded_optional::<D>(f, deps, s, pos, m),
        Quantifier::Repeated => decoded_repeated::<D>(f, deps, s, pos, m),
    }
}

/// Decoding of the tagged fields from `pos` on, where `fields[k]` is the first
/// field of the encoding that may still come.
///
/// An id is read. Zero ends the record. Fields of the encoding with a smaller
/// id are absent and are passed by. The field with this id is decoded, and the
/// next one is looked for behind it. An id that the encoding does not have at
/// this place is skipped with the bytes that its size prefix covers.
pub open spec fn decoded_blocks<D: Decodable>(
    fields: Seq<FieldEncoding>,
    k: int,
    deps: Seq<RecordEncoding>,
    s: Seq<u8>,
    pos: int,
    m: D::Model,
) -> Decoded<D::Model>
    decreases fields.len() - k, s.len() - pos,
{
    match parse_uvarint(s, pos) {
        Some((id, start)) => if id == 0 {
            Decoded::Done(m, start)
        } else if 0 <= k < fields.len() && fields[k].id.0 < id {
            decoded_blocks::<D>(fields, k + 1, deps, s, pos, m)
        } else if 0 <= k < fields.len() && fields[k].id.0 == id {
            match decoded_block::<D>(fields[k], deps, s, start, m) {
                Decoded::Done(m_next, p_next) => decoded_blocks::<D>(
                    fields,
                    k + 1,
                    deps,
                    s,
                    p_next,
                    m_next,
                ),
                other => other,
            }
        } else {
            match skipped(s, start) {
                Some(p_next) => {
                    proof {
                        lemma_uvarint_at_bounds(s, pos, 0);
                        lemma_uvarint_at_bounds(s, start, 0);
                    }
                    decoded_blocks::<D>(fields, k, deps, s, p_next, m)
                },
                None => Decoded::Refused(ErrorKind::EOF, m),
            }
        },
        None => Decoded::Refused(ErrorKind::EOF, m),
    }
}

/// Decoding of the required fields from `fields[i]` on: one occurrence of
/// each, in the order of the encoding, with nothing between them.
pub open spec fn decoded_required<D: Decodable>(
    fields: Seq<FieldEncoding>,
    i: int,
    deps: Seq<RecordEncoding>,
    s: Seq<u8>,
    pos: int,
    m: D::Model,
) -> Decoded<D::Model>
    decreases fields.len() - i,
{
    if i < 0 || i >= fields.len() {
        Decoded::Done(m, pos)
    } else {
        match decoded_array::<D>(fields[i], deps, s, pos, m, 0) {
            Decoded::Done(m_next, p_next) => decoded_required::<D>(
                fields,
                i + 1,
                deps,
                s,
                p_next,
                m_next,
            ),
            other => other,
        }
    }
}

/// Decoding of one record of encoding `rec` that starts at `pos`: the required
/// fields, then the tagged fields up to the id zero. The result is the model
/// that the `Decodable` is left with and the position after the record, or the
/// first error, and with an error of the decoder's own the model that the
/// calls before it left.
pub open spec fn decoded_record<D: Decodable>(
    rec: RecordEncoding,
    deps: Seq<RecordEncoding>,
    s: Seq<u8>,
    pos: int,
    m: D::Model,
) -> Decoded<D::Model> {
    match decoded_required::<D>(rec.req_fields@, 0, deps, s, pos, m) {
        Decoded::Done(m_next, p_next) => decoded_blocks::<D>(
            rec.opt_rep_fields@,
            0,
            deps,
            s,
            p_next,
            m_next,
        ),
        other => other,
    }
}

/// A `Decoder` is a struct that knows how to decode a particular record field.
/// `Decoder`s are handed to the `decode_record` method of a `Decodable`.
pub struct Decoder<'x, 'a> {
    /// The reader that the record is being read from.
    pub r: &'x mut Reader<'a>,
    /// The record type that this `Decoder` knows how to decode.
    pub rec: &'x RecordEncoding,
    /// The `depends` field of the `CompleteEncoding` that `rec` is a member of.
    pub deps: &'x [RecordEncoding],
}

/// Decodes one record of the target type of `enc` from `r` into `d`, and
/// leaves `r` behind the id zero that ends the record.
pub fn decode_from<'a, D: Decodable>(enc: &CompleteEncoding, r: &mut Reader<'a>, d: &mut D) -> (res:
    Result<(), Error>)
    ensures
        final(r).buf@ == old(r).buf@,
        agrees(
            res,
            final(d).model(),
            final(r).pos as int,
            decoded_record::<D>(
                enc.target,
                enc.depends@,
                old(r).buf@,
                old(r).pos as int,
                old(d).model(),
            ),
        ),
{
    let mut dec = Decoder { r: &mut *r, rec: &enc.target, deps: enc.depends.as_slice() };
    let res = dec.decode(d);
    res
}

impl<'x, 'a> Decoder<'x, 'a> {
    /// This decoder is `before` but for the position of its reader.
    pub open spec fn follows(&self, before: &Self) -> bool {
        &&& self.rec == before.rec
        &&& self.deps == before.deps
        &&& self.r.buf@ == before.r.buf@
    }

    /// `decode` decodes the next record on the wire into `d`.
    pub fn decode<D: Decodable>(&mut self, d: &mut D) -> (res: Result<(), Error>)
        ensures
            final(self).follows(old(self)),
            *final(final(self).r) == *final(old(self).r),
            agrees(
                res,
                final(d).model(),
                final(self).r.pos as int,
                decoded_record::<D>(
                    *old(self).rec,
                    old(self).deps@,
                    old(self).r.buf@,
                    old(self).r.pos as int,
                    old(d).model(),
                ),
            ),
    {
        let ghost s = self.r.buf@;
        let ghost deps = self.deps@;
        let ghost goal = decoded_record::<D>(
            *self.rec,
            deps,
            s,
            self.r.pos as int,
            d.model(),
        );
        let rec: &RecordEncoding = self.rec;
        let n_req: usize = rec.req_fields.len();
        let mut i: usize = 0;
        while i < n_req
            invariant
                i <= n_req,
                n_req == rec.req_fields@.len(),
                self.follows(old(self)),
                *final(self.r) == *final(old(self).r),
                rec == old(self).rec,
                s == self.r.buf@,
                deps == self.deps@,
                goal == match decoded_required::<D>(
                    rec.req_fields@,
                    i as int,
                    deps,
                    s,
                    self.r.pos as int,
                    d.model(),
                ) {
                    Decoded::Done(m_next, p_next) => decoded_blocks::<D>(
                        rec.opt_rep_fields@,
                        0,
                        deps,
                        s,
                        p_next,
                        m_next,
                    ),
                    other => other,
                },
                goal == decoded_record::<D>(
                    *old(self).rec,
                    old(self).deps@,
                    old(self).r.buf@,
                    old(self).r.pos as int,
                    old(d).model(),
                ),
            decreases n_req - i,
        {
            match self.decode_required(d, &rec.req_fields[i]) {
                Ok(()) => {},
                Err(e) => {
                    return Err(e);
                },
            }
            i = i + 1;
        }
        let n: usize = rec.opt_rep_fields.len();
        let mut k: usize = 0;
        let ghost mut id_pos: int = self.r.pos as int;
        let mut next_id: u64 = match read_uvarint(self.r) {
            Ok(x) => x,
            Err(e) => {
                return Err(e);
            },
        };
        while next_id != 0
            invariant
                k <= n,
                n == rec.opt_rep_fields@.len(),
                self.follows(old(self)),
                *final(self.r) == *final(old(self).r),
                rec == old(self).rec,
                s == self.r.buf@,
                deps == self.deps@,
                parse_uvarint(s, id_pos) == Some((next_id, self.r.pos as int)),
                goal == decoded_blocks::<D>(
                    rec.opt_rep_fields@,
                    k as int,
                    deps,
                    s,
                    id_pos,
                    d.model(),
                ),
                goal == decoded_record::<D>(
                    *old(self).rec,
                    old(self).deps@,
                    old(self).r.buf@,
                    old(self).r.pos as int,
                    old(d).model(),
                ),
            decreases n - k, s.len() - id_pos,
        {
            proof {
                lemma_uvarint_at_bounds(s, id_pos, 0);
            }
            if k < n && rec.opt_rep_fields[k].id.0 < next_id {
                k = k + 1;
            } else if k < n && rec.opt_rep_fields[k].id.0 == next_id {
                let f: &FieldEncoding = &rec.opt_rep_fields[k];
                let step: Result<(), Error> = match f.quant {
                    Quantifier::Required => Err(Error::EncodingInvalid),
                    Quantifier::Optional => self.decode_optional(d, f),
                    Quantifier::Repeated => self.decode_repeated(d, f),
                };
                match step {
                    Ok(()) => {},
                    Err(e) => {
                        return Err(e);
                    },
                }
                k = k + 1;
                proof {
                    id_pos = self.r.pos as int;
                }
                next_id =
                match read_uvarint(self.r) {
                    Ok(x) => x,
                    Err(e) => {
                        return Err(e);
                    },
                };
            } else {
                proof {
                    lemma_uvarint_at_bounds(s, self.r.pos as int, 0);
                }
                match self.skip_field() {
                    Ok(()) => {},
                    Err(e) => {
                        return Err(e);
                    },
                }
                proof {
                    id_pos = self.r.pos as int;
                }
                assert(goal == decoded_blocks::<D>(
                    rec.opt_rep_fields@,
                    k as int,
                    deps,
                    s,
                    id_pos,
                    d.model(),
                ));
                next_id =
                match read_uvarint(self.r) {
                    Ok(x) => x,
                    Err(e) => {
                        return Err(e);
                    },
                };
            }
        }
        Ok(())
    }

    /// Passes over a field that the encoding does not know: a varint gives the
    /// number of bytes to discard. Fewer bytes than that are an `EOF` error.
    pub fn skip_field(&mut self) -> (res: Result<(), Error>)
        ensures
            final(self).follows(old(self)),
            *final(final(self).r) == *final(old(self).r),
            match skipped(old(self).r.buf@, old(self).r.pos as int) {
                Some(end) => res is Ok && final(self).r.pos == end,
                None => res == Err::<(), Error>(Error::EOF),
            },
    {
        match read_uvarint(self.r) {
            Ok(len) => skip_bytes(self.r, len),
            Err(e) => Err(e),
        }
    }

    /// A decoder for the record type that dependency `index` describes, on the
    /// same reader. A dependency that does not exist is an `EncodingInvalid`
    /// error.
    pub fn child(&mut self, index: usize) -> (res: Result<Decoder<'_, 'a>, Error>)
        ensures
            final(self).rec == old(self).rec,
            final(self).deps == old(self).deps,
            match res {
                Ok(c) => {
                    &&& index < old(self).deps@.len()
                    &&& *c.rec == old(self).deps@[index as int]
                    &&& c.deps@ == old(self).deps@
                    &&& *c.r == *old(self).r
                    &&& *final(self).r == *final(c.r)
                    &&& *final(final(self).r) == *final(old(self).r)
                },
                Err(e) => {
                    &&& index >= old(self).deps@.len()
                    &&& e == Error::EncodingInvalid
                    &&& *final(self).r == *old(self).r
                    &&& *final(final(self).r) == *final(old(self).r)
                },
            },
    {
        if index < self.deps.len() {
            Ok(Decoder { r: &mut *self.r, rec: &self.deps[index], deps: self.deps })
        } else {
            Err(Error::EncodingInvalid)
        }
    }

    fn decode_required<D: Decodable>(&mut self, d: &mut D, f: &FieldEncoding) -> (res: Result<
        (),
        Error,
    >)
        ensures
            final(self).follows(old(self)),
            *final(final(self).r) == *final(old(self).r),
            agrees(
                res,
                final(d).model(),
                final(self).r.pos as int,
                decoded_array::<D>(
                    *f,
                    old(self).deps@,
                    old(self).r.buf@,
                    old(self).r.pos as int,
                    old(d).model(),
                    0,
                ),
            ),
    {
        self.decode_array(d, f, 0)
    }

    fn decode_optional<D: Decodable>(&mut self, d: &mut D, f: &FieldEncoding) -> (res: Result<
        (),
        Error,
    >)
        ensures
            final(self).follows(old(self)),
            *final(final(self).r) == *final(old(self).r),
            agrees(
                res,
                final(d).model(),
                final(self).r.pos as int,
                decoded_optional::<D>(
                    *f,
                    old(self).deps@,
                    old(self).r.buf@,
                    old(self).r.pos as int,
                    old(d).model(),
                ),
            ),
    {
        let size: u64 = match read_uvarint(self.r) {
            Ok(x) => x,
            Err(e) => {
                return Err(e);
            },
        };
        match d.alloc_field(f.id, 1) {
            Ok(true) => self.decode_array(d, f, 0),
            Ok(false) => skip_bytes(self.r, size),
            Err(e) => Err(e),
        }
    }

    fn decode_repeated<D: Decodable>(&mut self, d: &mut D, f: &FieldEncoding) -> (res: Result<
        (),
        Error,
    >)
        ensures
            final(self).follows(old(self)),
            *final(final(self).r) == *final(old(self).r),
            agrees(
                res,
                final(d).model(),
                final(self).r.pos as int,
                decoded_repeated::<D>(
                    *f,
                    old(self).deps@,
                    old(self).r.buf@,
                    old(self).r.pos as int,
                    old(d).model(),
                ),
            ),
    {
        let ghost s = self.r.buf@;
        let ghost deps = self.deps@;
        let ghost goal = decoded_repeated::<D>(*f, deps, s, self.r.pos as int, d.model());
        proof {
            lemma_uvarint_at_bounds(s, self.r.pos as int, 0);
        }
        let size: u64 = match read_uvarint(self.r) {
            Ok(x) => x,
            Err(e) => {
                return Err(e);
            },
        };
        let start: usize = self.r.pos;
        proof {
            lemma_uvarint_at_bounds(s, start as int, 0);
        }
        let count: u64 = match read_uvarint(self.r) {
            Ok(x) => x,
            Err(e) => {
                return Err(e);
            },
        };
        if count > usize::MAX as u64 {
            return Err(Error::EOF);
        }
        let n: usize = count as usize;
        match d.alloc_field(f.id, n) {
            Ok(true) => {
                let mut idx: usize = 0;
                while idx < n
                    invariant
                        idx <= n,
                        self.follows(old(self)),
                        *final(self.r) == *final(old(self).r),
                        s == self.r.buf@,
                        deps == self.deps@,
                        goal == decoded_arrays::<D>(
                            *f,
                            deps,
                            s,
                            self.r.pos as int,
                            d.model(),
                            idx as int,
                            n as int,
                        ),
                        goal == decoded_repeated::<D>(
                            *f,
                            old(self).deps@,
                            old(self).r.buf@,
                            old(self).r.pos as int,
                            old(d).model(),
                        ),
                    decreases n - idx,
                {
                    match self.decode_array(d, f, idx) {
                        Ok(()) => {},
                        Err(e) => {
                            return Err(e);
                        },
                    }
                    idx = idx + 1;
                }
                Ok(())
            },
            Ok(false) => {
                let used: usize = self.r.pos - start;
                if size < used as u64 {
                    Err(Error::EOF)
                } else {
                    skip_bytes(self.r, size - used as u64)
                }
            },
            Err(e) => Err(e),
        }
    }

    fn decode_array<D: Decodable>(&mut self, d: &mut D, f: &FieldEncoding, idx: usize) -> (res:
        Result<(), Error>)
        ensures
            final(self).follows(old(self)),
            *final(final(self).r) == *final(old(self).r),
            agrees(
                res,
                final(d).model(),
                final(self).r.pos as int,
                decoded_array::<D>(
                    *f,
                    old(self).deps@,
                    old(self).r.buf@,
                    old(self).r.pos as int,
                    old(d).model(),
                    idx,
                ),
            ),
    {
        let ghost s = self.r.buf@;
        let ghost deps = self.deps@;
        let ghost goal = decoded_array::<D>(*f, deps, s, self.r.pos as int, d.model(), idx);
        match f.bounds {
            Some(max) => {
                let base: Option<usize> = idx.checked_mul(max);
                let mut j: usize = 0;
                while j < max
                    invariant
                        j <= max,
                        self.follows(old(self)),
                        *final(self.r) == *final(old(self).r),
                        s == self.r.buf@,
                        deps == self.deps@,
                        base == if idx * max <= usize::MAX {
                            Some((idx * max) as usize)
                        } else {
                            None
                        },
                        goal == decoded_run::<D>(
                            *f,
                            deps,
                            s,
                            self.r.pos as int,
                            d.model(),
                            idx * max,
                            j as int,
                            max as int,
                        ),
                        goal == decoded_array::<D>(
                            *f,
                            old(self).deps@,
                            old(self).r.buf@,
                            old(self).r.pos as int,
                            old(d).model(),
                            idx,
                        ),
                    decreases max - j,
                {
                    let at: usize = match base {
                        Some(b) => match b.checked_add(j) {
                            Some(a) => a,
                            None => {
                                return Err(Error::EncodingInvalid);
                            },
                        },
                        None => {
                            return Err(Error::EncodingInvalid);
                        },
                    };
                    match self.decode_field(d, f, at) {
                        Ok(()) => {},
                        Err(e) => {
                            return Err(e);
                        },
                    }
                    j = j + 1;
                }
                Ok(())
            },
            None => self.decode_field(d, f, idx),
        }
    }

    fn decode_field<D: Decodable>(&mut self, d: &mut D, f: &FieldEncoding, idx: usize) -> (res:
        Result<(), Error>)
        ensures
            final(self).follows(old(self)),
            *final(final(self).r) == *final(old(self).r),
            agrees(
                res,
                final(d).model(),
                final(self).r.pos as int,
                decoded_element::<D>(
                    *f,
                    old(self).deps@,
                    old(self).r.buf@,
                    old(self).r.pos as int,
                    old(d).model(),
                    idx,
                ),
            ),
            !(f.typ is Record) && parse_primitive(
                f.typ,
                old(self).r.buf@,
                old(self).r.pos as int,
            ) is Err ==> final(d).model() == old(d).model(),
            (f.typ matches Type::Record { index } && index >= old(self).deps@.len())
                ==> final(d).model() == old(d).model() && final(self).r.pos == old(self).r.pos,
    {
        match f.typ {
            // Records work a little differently. Create a child decoder and
            // have the `Decodable` run it on its own record field.
            Type::Record { index } => {
                match self.child(index) {
                    Ok(child) => d.decode_record(child, f.id, idx),
                    Err(e) => Err(e),
                }
            },
            t => match read_primitive(self.r, t) {
                Ok(prim) => d.set_primitive(f.id, idx, prim),
                Err(e) => Err(e),
            },
        }
    }
}

} // verus!
