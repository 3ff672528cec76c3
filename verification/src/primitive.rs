//! Primitive values and their byte-level encodings.
//!
//! Every writer appends to a byte vector and returns the number of bytes it
//! appended. What it appends is given by a spec function of the value alone,
//! so that readers can be held against it.

use crate::encoding::Type;
use vstd::prelude::*;
use vstd::utf8::encode_utf8;

verus! {

/// The unsigned varint of `x`: base 128, least significant group first, each
/// byte carrying seven bits of the value in its low bits. The high bit is set
/// on every byte but the last.
pub open spec fn uvarint_bytes(x: u64) -> Seq<u8>
    decreases x,
{
    if x < 0x80 {
        seq![x as u8]
    } else {
        seq![(0x80 + x % 0x80) as u8] + uvarint_bytes(x / 0x80)
    }
}

/// The number of bytes in the unsigned varint of `x`, by the size of `x`.
pub open spec fn uvarint_len(x: u64) -> nat {
    if x < 0x80 {
        1
    } else if x < 0x4000 {
        2
    } else if x < 0x20_0000 {
        3
    } else if x < 0x1000_0000 {
        4
    } else if x < 0x8_0000_0000 {
        5
    } else if x < 0x400_0000_0000 {
        6
    } else if x < 0x2_0000_0000_0000 {
        7
    } else if x < 0x100_0000_0000_0000 {
        8
    } else if x < 0x8000_0000_0000_0000 {
        9
    } else {
        10
    }
}

/// A varint has as many bytes as `uvarint_len` says: one byte below `0x80`,
/// one more for each further seven bits, and ten from `0x80 << 56` on.
pub proof fn lemma_uvarint_len(x: u64)
    ensures
        uvarint_bytes(x).len() == uvarint_len(x),
        1 <= uvarint_bytes(x).len() <= 10,
        x < 0x80 ==> uvarint_bytes(x).len() == 1,
        x >= 0x8000_0000_0000_0000 ==> uvarint_bytes(x).len() == 10,
    decreases x,
{
    if x >= 0x80 {
        lemma_uvarint_len(x / 0x80);
    }
}

/// Every byte of a varint but the last has its high bit set, and the last has
/// it clear.
pub proof fn lemma_uvarint_shape(x: u64)
    ensures
        forall|i: int| 0 <= i < uvarint_bytes(x).len() - 1 ==> uvarint_bytes(x)[i] >= 0x80,
        uvarint_bytes(x).last() < 0x80,
    decreases x,
{
    if x >= 0x80 {
        lemma_uvarint_len(x / 0x80);
        lemma_uvarint_shape(x / 0x80);
        let rest = uvarint_bytes(x / 0x80);
        let all = uvarint_bytes(x);
        assert forall|i: int| 0 <= i < all.len() - 1 implies all[i] >= 0x80 by {
            if i > 0 {
                assert(all[i] == rest[i - 1]);
            }
        }
        assert(all.last() == rest.last());
    }
}

/// The zig-zag code of `x`: zero and the positive numbers take the even codes,
/// the negative numbers the odd ones, so that numbers near zero get small codes.
pub open spec fn zigzag(x: i64) -> u64 {
    if x >= 0 {
        (2 * x) as u64
    } else {
        (-2 * x - 1) as u64
    }
}

/// The number whose zig-zag code is `u`.
pub open spec fn unzigzag(u: u64) -> i64 {
    if u % 2 == 0 {
        (u / 2) as i64
    } else {
        (-(u / 2) - 1) as i64
    }
}

/// Zig-zag coding loses nothing, in either direction.
pub proof fn lemma_zigzag_inverse(x: i64, u: u64)
    ensures
        unzigzag(zigzag(x)) == x,
        zigzag(unzigzag(u)) == u,
{
}

/// The signed varint of `x`: the unsigned varint of its zig-zag code.
pub open spec fn varint_bytes(x: i64) -> Seq<u8> {
    uvarint_bytes(zigzag(x))
}

/// `uvarint_size` returns the number of bytes required to encode `x` as a
/// varint.
pub fn uvarint_size(x: u64) -> (n: usize)
    ensures
        n == uvarint_bytes(x).len(),
        n == uvarint_len(x),
{
    proof {
        lemma_uvarint_len(x);
    }
    if x < 0x80 {
        1
    } else if x < 0x4000 {
        2
    } else if x < 0x20_0000 {
        3
    } else if x < 0x1000_0000 {
        4
    } else if x < 0x8_0000_0000 {
        5
    } else if x < 0x400_0000_0000 {
        6
    } else if x < 0x2_0000_0000_0000 {
        7
    } else if x < 0x100_0000_0000_0000 {
        8
    } else if x < 0x8000_0000_0000_0000 {
        9
    } else {
        10
    }
}

/// The zig-zag code of `x`, computed.
pub fn zigzag_encode(x: i64) -> (u: u64)
    ensures
        u == zigzag(x),
{
    let ux: u64 = (x as u64) << 1;
    let u: u64 = if x < 0 {
        !ux
    } else {
        ux
    };
    assert(u == zigzag(x)) by {
        assert(x >= 0 ==> ((x as u64) << 1) == (2 * x) as u64) by (bit_vector);
        assert(x < 0 ==> !((x as u64) << 1) == (-2 * x - 1) as u64) by (bit_vector);
    }
    u
}

/// `varint_size` returns the number of bytes required to encode `x` as a
/// zig-zag encoded signed varint.
pub fn varint_size(x: i64) -> (n: usize)
    ensures
        n == varint_bytes(x).len(),
{
    uvarint_size(zigzag_encode(x))
}

/// `write_uvarint` appends `x` to `w` encoded as a varint.
pub fn write_uvarint(w: &mut Vec<u8>, x: u64) -> (n: usize)
    ensures
        final(w)@ == old(w)@ + uvarint_bytes(x),
        n == uvarint_bytes(x).len(),
{
    let start: usize = w.len();
    let mut rest: u64 = x;
    while rest > 0x7F
        invariant
            start == old(w)@.len(),
            w@.len() >= start,
            old(w)@ + uvarint_bytes(x) == w@ + uvarint_bytes(rest),
        decreases rest,
    {
        let low: u8 = (rest & 0x7F) as u8;
        assert(low == rest % 0x80 && (rest >> 7) == rest / 0x80 && (0x80u8 | low) == 0x80 + rest
            % 0x80) by (bit_vector)
            requires
                low == (rest & 0x7F) as u8,
        ;
        assert(uvarint_bytes(rest) == seq![(0x80u8 | low)] + uvarint_bytes(rest / 0x80));
        w.push(0x80 | low);
        rest = rest >> 7;
        assert(old(w)@ + uvarint_bytes(x) == w@ + uvarint_bytes(rest));
    }
    w.push(rest as u8);
    assert(old(w)@ + uvarint_bytes(x) == w@);
    w.len() - start
}

/// `write_varint` appends `x` to `w` as a zig-zag encoded signed varint.
pub fn write_varint(w: &mut Vec<u8>, x: i64) -> (n: usize)
    ensures
        final(w)@ == old(w)@ + varint_bytes(x),
        n == varint_bytes(x).len(),
{
    write_uvarint(w, zigzag_encode(x))
}


/// The two bytes of `x`, least significant first.
pub open spec fn u16_le_bytes(x: u16) -> Seq<u8> {
    seq![(x % 0x100) as u8, (x / 0x100) as u8]
}

/// The four bytes of `x`, least significant first.
pub open spec fn u32_le_bytes(x: u32) -> Seq<u8> {
    seq![
        (x % 0x100) as u8,
        (x / 0x100 % 0x100) as u8,
        (x / 0x1_0000 % 0x100) as u8,
        (x / 0x100_0000) as u8,
    ]
}

/// The eight bytes of `x`, least significant first.
pub open spec fn u64_le_bytes(x: u64) -> Seq<u8> {
    seq![
        (x % 0x100) as u8,
        (x / 0x100 % 0x100) as u8,
        (x / 0x1_0000 % 0x100) as u8,
        (x / 0x100_0000 % 0x100) as u8,
        (x / 0x1_0000_0000 % 0x100) as u8,
        (x / 0x100_0000_0000 % 0x100) as u8,
        (x / 0x1_0000_0000_0000 % 0x100) as u8,
        (x / 0x100_0000_0000_0000) as u8,
    ]
}

/// The byte that holds `x` in two's complement.
pub open spec fn i8_bits(x: i8) -> u8 {
    if x < 0 {
        (x + 0x100) as u8
    } else {
        x as u8
    }
}

/// The 16-bit word that holds `x` in two's complement.
pub open spec fn i16_bits(x: i16) -> u16 {
    if x < 0 {
        (x + 0x1_0000) as u16
    } else {
        x as u16
    }
}

/// The 32-bit word that holds `x` in two's complement.
pub open spec fn i32_bits(x: i32) -> u32 {
    if x < 0 {
        (x + 0x1_0000_0000) as u32
    } else {
        x as u32
    }
}

/// The 64-bit word that holds `x` in two's complement.
pub open spec fn i64_bits(x: i64) -> u64 {
    if x < 0 {
        (x + 0x1_0000_0000_0000_0000) as u64
    } else {
        x as u64
    }
}

/// `write_u8` appends `x` to `w` as a single byte.
pub fn write_u8(w: &mut Vec<u8>, x: u8) -> (n: usize)
    ensures
        final(w)@ == old(w)@ + seq![x],
        n == 1,
{
    w.push(x);
    assert(w@ == old(w)@ + seq![x]);
    1
}

/// `write_le_u16` appends `x` to `w` as 2 bytes in little-endian byte order.
pub fn write_le_u16(w: &mut Vec<u8>, x: u16) -> (n: usize)
    ensures
        final(w)@ == old(w)@ + u16_le_bytes(x),
        n == 2,
{
    let b0: u8 = ((x >> 0) & 0xFF) as u8;
    let b1: u8 = ((x >> 8) & 0xFF) as u8;
    assert(b0 == (x % 0x100) as u8 && b1 == (x / 0x100) as u8) by (bit_vector)
        requires
            b0 == ((x >> 0) & 0xFF) as u8,
            b1 == ((x >> 8) & 0xFF) as u8,
    ;
    w.push(b0);
    w.push(b1);
    assert(w@ == old(w)@ + u16_le_bytes(x));
    2
}

/// `write_le_u32` appends `x` to `w` as 4 bytes in little-endian byte order.
pub fn write_le_u32(w: &mut Vec<u8>, x: u32) -> (n: usize)
    ensures
        final(w)@ == old(w)@ + u32_le_bytes(x),
        n == 4,
{
    let b0: u8 = ((x >> 0) & 0xFF) as u8;
    let b1: u8 = ((x >> 8) & 0xFF) as u8;
    let b2: u8 = ((x >> 16) & 0xFF) as u8;
    let b3: u8 = ((x >> 24) & 0xFF) as u8;
    assert(b0 == (x % 0x100) as u8 && b1 == (x / 0x100 % 0x100) as u8 && b2 == (x / 0x1_0000
        % 0x100) as u8 && b3 == (x / 0x100_0000) as u8) by (bit_vector)
        requires
            b0 == ((x >> 0) & 0xFF) as u8,
            b1 == ((x >> 8) & 0xFF) as u8,
            b2 == ((x >> 16) & 0xFF) as u8,
            b3 == ((x >> 24) & 0xFF) as u8,
    ;
    w.push(b0);
    w.push(b1);
    w.push(b2);
    w.push(b3);
    assert(w@ == old(w)@ + u32_le_bytes(x));
    4
}

/// `write_le_u64` appends `x` to `w` as 8 bytes in little-endian byte order.
pub fn write_le_u64(w: &mut Vec<u8>, x: u64) -> (n: usize)
    ensures
        final(w)@ == old(w)@ + u64_le_bytes(x),
        n == 8,
{
    let b0: u8 = ((x >> 0) & 0xFF) as u8;
    let b1: u8 = ((x >> 8) & 0xFF) as u8;
    let b2: u8 = ((x >> 16) & 0xFF) as u8;
    let b3: u8 = ((x >> 24) & 0xFF) as u8;
    let b4: u8 = ((x >> 32) & 0xFF) as u8;
    let b5: u8 = ((x >> 40) & 0xFF) as u8;
    let b6: u8 = ((x >> 48) & 0xFF) as u8;
    let b7: u8 = ((x >> 56) & 0xFF) as u8;
    assert(b0 == (x % 0x100) as u8 && b1 == (x / 0x100 % 0x100) as u8 && b2 == (x / 0x1_0000
        % 0x100) as u8 && b3 == (x / 0x100_0000 % 0x100) as u8) by (bit_vector)
        requires
            b0 == ((x >> 0) & 0xFF) as u8,
            b1 == ((x >> 8) & 0xFF) as u8,
            b2 == ((x >> 16) & 0xFF) as u8,
            b3 == ((x >> 24) & 0xFF) as u8,
    ;
    assert(b4 == (x / 0x1_0000_0000 % 0x100) as u8 && b5 == (x / 0x100_0000_0000 % 0x100) as u8
        && b6 == (x / 0x1_0000_0000_0000 % 0x100) as u8 && b7 == (x / 0x100_0000_0000_0000) as u8)
        by (bit_vector)
        requires
            b4 == ((x >> 32) & 0xFF) as u8,
            b5 == ((x >> 40) & 0xFF) as u8,
            b6 == ((x >> 48) & 0xFF) as u8,
            b7 == ((x >> 56) & 0xFF) as u8,
    ;
    w.push(b0);
    w.push(b1);
    w.push(b2);
    w.push(b3);
    w.push(b4);
    w.push(b5);
    w.push(b6);
    w.push(b7);
    assert(w@ == old(w)@ + u64_le_bytes(x));
    8
}

/// `write_i8` appends `x` to `w` as a single, 2's complement encoded byte.
pub fn write_i8(w: &mut Vec<u8>, x: i8) -> (n: usize)
    ensures
        final(w)@ == old(w)@ + seq![i8_bits(x)],
        n == 1,
{
    assert(x as u8 == i8_bits(x)) by (bit_vector);
    write_u8(w, x as u8)
}

/// `write_le_i16` appends `x` to `w` as 2 bytes, 2's complement encoded in
/// little-endian byte order.
pub fn write_le_i16(w: &mut Vec<u8>, x: i16) -> (n: usize)
    ensures
        final(w)@ == old(w)@ + u16_le_bytes(i16_bits(x)),
        n == 2,
{
    assert(x as u16 == i16_bits(x)) by (bit_vector);
    write_le_u16(w, x as u16)
}

/// `write_le_i32` appends `x` to `w` as 4 bytes, 2's complement encoded in
/// little-endian byte order.
pub fn write_le_i32(w: &mut Vec<u8>, x: i32) -> (n: usize)
    ensures
        final(w)@ == old(w)@ + u32_le_bytes(i32_bits(x)),
        n == 4,
{
    assert(x as u32 == i32_bits(x)) by (bit_vector);
    write_le_u32(w, x as u32)
}

/// `write_le_i64` appends `x` to `w` as 8 bytes, 2's complement encoded in
/// little-endian byte order.
pub fn write_le_i64(w: &mut Vec<u8>, x: i64) -> (n: usize)
    ensures
        final(w)@ == old(w)@ + u64_le_bytes(i64_bits(x)),
        n == 8,
{
    assert(x as u64 == i64_bits(x)) by (bit_vector);
    write_le_u64(w, x as u64)
}

/// A `Primitive` holds one value of a primitive type. It is the format in
/// which `Encodable` and `Decodable` types exchange data with an `Encoder` or a
/// `Decoder`.
///
/// The two floating-point variants hold the IEEE-754 bit pattern of the
/// number, which is what travels on the wire.
#[derive(Clone, Debug, PartialEq, Eq)]
pub enum Primitive {
    UInt8(u8),
    UInt16(u16),
    UInt32(u32),
    UInt64(u64),
    Int8(i8),
    Int16(i16),
    Int32(i32),
    Int64(i64),
    Fixed32(u32),
    Fixed64(u64),
    /// The bits of a binary32 number.
    Float32(u32),
    /// The bits of a binary64 number.
    Float64(u64),
    Bool(bool),
    Bytes(Vec<u8>),
    String(String),
    Enum(i64),
}

/// What a `Primitive` holds, as a mathematical value: bytes as a sequence of
/// bytes, a string as a sequence of characters.
pub enum PrimitiveView {
    UInt8(u8),
    UInt16(u16),
    UInt32(u32),
    UInt64(u64),
    Int8(i8),
    Int16(i16),
    Int32(i32),
    Int64(i64),
    Fixed32(u32),
    Fixed64(u64),
    Float32(u32),
    Float64(u64),
    Bool(bool),
    Bytes(Seq<u8>),
    String(Seq<char>),
    Enum(i64),
}

impl View for Primitive {
    type V = PrimitiveView;

    open spec fn view(&self) -> PrimitiveView {
        match *self {
            Primitive::UInt8(x) => PrimitiveView::UInt8(x),
            Primitive::UInt16(x) => PrimitiveView::UInt16(x),
            Primitive::UInt32(x) => PrimitiveView::UInt32(x),
            Primitive::UInt64(x) => PrimitiveView::UInt64(x),
            Primitive::Int8(x) => PrimitiveView::Int8(x),
            Primitive::Int16(x) => PrimitiveView::Int16(x),
            Primitive::Int32(x) => PrimitiveView::Int32(x),
            Primitive::Int64(x) => PrimitiveView::Int64(x),
            Primitive::Fixed32(x) => PrimitiveView::Fixed32(x),
            Primitive::Fixed64(x) => PrimitiveView::Fixed64(x),
            Primitive::Float32(x) => PrimitiveView::Float32(x),
            Primitive::Float64(x) => PrimitiveView::Float64(x),
            Primitive::Bool(x) => PrimitiveView::Bool(x),
            Primitive::Bytes(x) => PrimitiveView::Bytes(x@),
            Primitive::String(x) => PrimitiveView::String(x@),
            Primitive::Enum(x) => PrimitiveView::Enum(x),
        }
    }
}

impl PrimitiveView {
    /// The one type that this value has.
    pub open spec fn type_of(self) -> Type {
        match self {
            PrimitiveView::UInt8(_) => Type::UInt8,
            PrimitiveView::UInt16(_) => Type::UInt16,
            PrimitiveView::UInt32(_) => Type::UInt32,
            PrimitiveView::UInt64(_) => Type::UInt64,
            PrimitiveView::Int8(_) => Type::Int8,
            PrimitiveView::Int16(_) => Type::Int16,
            PrimitiveView::Int32(_) => Type::Int32,
            PrimitiveView::Int64(_) => Type::Int64,
            PrimitiveView::Fixed32(_) => Type::Fixed32,
            PrimitiveView::Fixed64(_) => Type::Fixed64,
            PrimitiveView::Float32(_) => Type::Float32,
            PrimitiveView::Float64(_) => Type::Float64,
            PrimitiveView::Bool(_) => Type::Bool,
            PrimitiveView::Bytes(_) => Type::Bytes,
            PrimitiveView::String(_) => Type::String,
            PrimitiveView::Enum(_) => Type::Enum,
        }
    }

    /// The bytes that stand for this value on the wire.
    ///
    /// One byte for the 8-bit integers and for a boolean (`0xFF` for true,
    /// `0x00` for false); little-endian words for the 16-bit integers, the
    /// fixed-width integers and the floating-point numbers; a varint for the
    /// unsigned 32- and 64-bit integers; a zig-zag varint for the signed ones
    /// and for an enum; for bytes and for a string, the length as a varint and
    /// then the bytes themselves, a string's being its UTF-8 form.
    pub open spec fn wire_bytes(self) -> Seq<u8> {
        match self {
            PrimitiveView::UInt8(x) => seq![x],
            PrimitiveView::UInt16(x) => u16_le_bytes(x),
            PrimitiveView::UInt32(x) => uvarint_bytes(x as u64),
            PrimitiveView::UInt64(x) => uvarint_bytes(x),
            PrimitiveView::Int8(x) => seq![i8_bits(x)],
            PrimitiveView::Int16(x) => u16_le_bytes(i16_bits(x)),
            PrimitiveView::Int32(x) => varint_bytes(x as i64),
            PrimitiveView::Int64(x) => varint_bytes(x),
            PrimitiveView::Fixed32(x) => u32_le_bytes(x),
            PrimitiveView::Fixed64(x) => u64_le_bytes(x),
            PrimitiveView::Float32(x) => u32_le_bytes(x),
            PrimitiveView::Float64(x) => u64_le_bytes(x),
            PrimitiveView::Bool(x) => seq![bool_byte(x)],
            PrimitiveView::Bytes(x) => uvarint_bytes(x.len() as u64) + x,
            PrimitiveView::String(x) => uvarint_bytes(encode_utf8(x).len() as u64) + encode_utf8(
                x,
            ),
            PrimitiveView::Enum(x) => varint_bytes(x),
        }
    }
}

/// The byte that stands for a boolean.
pub open spec fn bool_byte(b: bool) -> u8 {
    if b {
        0xFF
    } else {
        0x00
    }
}

impl Primitive {
    /// `has_type` tells whether the type of `self` is `t`. Each variant has
    /// exactly one type, and no primitive has a record type.
    pub fn has_type(&self, t: Type) -> (b: bool)
        ensures
            b == (self@.type_of() == t),
    {
        match (self, t) {
            (Primitive::UInt8(..), Type::UInt8) => true,
            (Primitive::UInt16(..), Type::UInt16) => true,
            (Primitive::UInt32(..), Type::UInt32) => true,
            (Primitive::UInt64(..), Type::UInt64) => true,
            (Primitive::Int8(..), Type::Int8) => true,
            (Primitive::Int16(..), Type::Int16) => true,
            (Primitive::Int32(..), Type::Int32) => true,
            (Primitive::Int64(..), Type::Int64) => true,
            (Primitive::Fixed32(..), Type::Fixed32) => true,
            (Primitive::Fixed64(..), Type::Fixed64) => true,
            (Primitive::Float32(..), Type::Float32) => true,
            (Primitive::Float64(..), Type::Float64) => true,
            (Primitive::Bool(..), Type::Bool) => true,
            (Primitive::Bytes(..), Type::Bytes) => true,
            (Primitive::String(..), Type::String) => true,
            (Primitive::Enum(..), Type::Enum) => true,
            _ => false,
        }
    }
}

} // verus!
