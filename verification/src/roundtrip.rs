//! The laws that tie the writers to the readers: what is written is read back
//! unchanged.

use crate::decoder::{
    decoded_array, decoded_arrays, decoded_block, decoded_blocks, decoded_element,
    decoded_record, decoded_required, decoded_run, has_bytes, i16_of_bits, i32_of_bits,
    i64_of_bits, i8_of_bits, low_u32, parse_bytes, parse_primitive, parse_uvarint, parse_varint,
    u16_le_at, u32_le_at, u64_le_at, uvarint_at, Decodable, Decoded, ErrorKind,
};
use crate::encoder::{
    encoded_array, encoded_arrays, encoded_block, encoded_blocks, encoded_element,
    encoded_record, encoded_required, encoded_required_field, encoded_run, tagged, Encodable,
};
use crate::encoding::{
    strictly_ascending, FieldEncoding, FieldID, Quantifier, RecordEncoding, Type,
};
use crate::framing::{
    block_body, emitted, framed, lemma_blocks_are_framed, lemma_emitted_follow_the_encoding,
    present,
};
use crate::primitive::{
    i16_bits, i32_bits, i64_bits, i8_bits, u16_le_bytes, u32_le_bytes, u64_le_bytes,
    uvarint_bytes, varint_bytes, zigzag, PrimitiveView,
};
use vstd::prelude::*;
use vstd::utf8::{encode_utf8, encode_utf8_decode_utf8, encode_utf8_valid_utf8};

verus! {

/// The bytes `b` stand in `s` from `pos` on.
pub open spec fn holds_at(s: Seq<u8>, pos: int, b: Seq<u8>) -> bool {
    &&& 0 <= pos
    &&& pos + b.len() <= s.len()
    &&& s.subrange(pos, pos + b.len()) == b
}

/// Where bytes stand, each of them stands.
pub proof fn lemma_holds_at_index(s: Seq<u8>, pos: int, b: Seq<u8>, i: int)
    requires
        holds_at(s, pos, b),
        0 <= i < b.len(),
    ensures
        s[pos + i] == b[i],
{
    assert(s.subrange(pos, pos + b.len())[i] == s[pos + i]);
}

/// Where two runs of bytes stand one after the other, each stands by itself.
pub proof fn lemma_holds_at_split(s: Seq<u8>, pos: int, a: Seq<u8>, b: Seq<u8>)
    requires
        holds_at(s, pos, a + b),
    ensures
        holds_at(s, pos, a),
        holds_at(s, pos + a.len(), b),
{
    let both = a + b;
    assert(s.subrange(pos, pos + a.len()) =~= both.subrange(0, a.len() as int));
    assert(both.subrange(0, a.len() as int) =~= a);
    assert(s.subrange(pos + a.len(), pos + a.len() + b.len()) =~= both.subrange(
        a.len() as int,
        both.len() as int,
    ));
    assert(both.subrange(a.len() as int, both.len() as int) =~= b);
}

/// Reading the varint of `x` with its groups placed from bit `shift` on gives
/// `x` shifted left by that much.
proof fn lemma_uvarint_at(x: u64, s: Seq<u8>, pos: int, shift: u64)
    requires
        holds_at(s, pos, uvarint_bytes(x)),
    ensures
        uvarint_at(s, pos, shift) == Some(
            (
                if shift < 64 {
                    x << shift
                } else {
                    0u64
                },
                pos + uvarint_bytes(x).len(),
            ),
        ),
    decreases x,
{
    let bytes = uvarint_bytes(x);
    lemma_holds_at_index(s, pos, bytes, 0);
    let low: u64 = (s[pos] % 0x80) as u64;
    if x < 0x80 {
        assert(low == x);
    } else {
        let rest = uvarint_bytes(x / 0x80);
        assert(bytes == seq![(0x80 + x % 0x80) as u8] + rest);
        lemma_holds_at_split(s, pos, seq![(0x80 + x % 0x80) as u8], rest);
        let next_shift: u64 = if shift < 64 {
            (shift + 7) as u64
        } else {
            shift
        };
        lemma_uvarint_at((x / 0x80) as u64, s, pos + 1, next_shift);
        assert(low == x % 0x80);
        let hi: u64 = (x / 0x80) as u64;
        assert(shift < 57 ==> (low << shift) | (hi << ((shift + 7) as u64)) == x << shift)
            by (bit_vector)
            requires
                low == x % 0x80,
                hi == x / 0x80,
        ;
        assert(57 <= shift < 64 ==> (low << shift) | 0u64 == x << shift) by (bit_vector)
            requires
                low == x % 0x80,
        ;
        assert(0u64 | 0u64 == 0u64) by (bit_vector);
    }
}

/// Reading back an unsigned varint gives the number that was written, and
/// stops right behind its bytes.
pub proof fn lemma_uvarint_round_trip(x: u64, s: Seq<u8>, pos: int)
    requires
        holds_at(s, pos, uvarint_bytes(x)),
    ensures
        parse_uvarint(s, pos) == Some((x, pos + uvarint_bytes(x).len())),
{
    lemma_uvarint_at(x, s, pos, 0);
    assert(x << 0u64 == x) by (bit_vector);
}

/// Reading back a zig-zag varint gives the number that was written, and stops
/// right behind its bytes.
pub proof fn lemma_varint_round_trip(x: i64, s: Seq<u8>, pos: int)
    requires
        holds_at(s, pos, varint_bytes(x)),
    ensures
        parse_varint(s, pos) == Some((x, pos + varint_bytes(x).len())),
{
    lemma_uvarint_round_trip(zigzag(x), s, pos);
}

/// Reading back a little-endian 16-bit word gives the number that was written.
pub proof fn lemma_u16_le_round_trip(x: u16, s: Seq<u8>, pos: int)
    requires
        holds_at(s, pos, u16_le_bytes(x)),
    ensures
        has_bytes(s, pos, 2),
        u16_le_at(s, pos) == x,
{
    let w = u16_le_bytes(x);
    lemma_holds_at_index(s, pos, w, 0);
    lemma_holds_at_index(s, pos, w, 1);
    let v: u64 = x as u64;
    let b0: u64 = s[pos] as u64;
    let b1: u64 = s[pos + 1] as u64;
    assert(v == b0 + 0x100 * b1) by (bit_vector)
        requires
            b0 == v % 0x100,
            b1 == v / 0x100,
    ;
}

/// Reading back a little-endian 32-bit word gives the number that was written.
pub proof fn lemma_u32_le_round_trip(x: u32, s: Seq<u8>, pos: int)
    requires
        holds_at(s, pos, u32_le_bytes(x)),
    ensures
        has_bytes(s, pos, 4),
        u32_le_at(s, pos) == x,
{
    let w = u32_le_bytes(x);
    lemma_holds_at_index(s, pos, w, 0);
    lemma_holds_at_index(s, pos, w, 1);
    lemma_holds_at_index(s, pos, w, 2);
    lemma_holds_at_index(s, pos, w, 3);
    let v: u64 = x as u64;
    let b0: u64 = s[pos] as u64;
    let b1: u64 = s[pos + 1] as u64;
    let b2: u64 = s[pos + 2] as u64;
    let b3: u64 = s[pos + 3] as u64;
    assert(v == b0 + 0x100 * b1 + 0x1_0000 * b2 + 0x100_0000 * b3) by (bit_vector)
        requires
            b0 == v % 0x100,
            b1 == v / 0x100 % 0x100,
            b2 == v / 0x1_0000 % 0x100,
            b3 == v / 0x100_0000,
            v < 0x1_0000_0000,
    ;
}

/// Reading back a little-endian 64-bit word gives the number that was written.
pub proof fn lemma_u64_le_round_trip(x: u64, s: Seq<u8>, pos: int)
    requires
        holds_at(s, pos, u64_le_bytes(x)),
    ensures
        has_bytes(s, pos, 8),
        u64_le_at(s, pos) == x,
{
    let w = u64_le_bytes(x);
    lemma_holds_at_index(s, pos, w, 0);
    lemma_holds_at_index(s, pos, w, 1);
    lemma_holds_at_index(s, pos, w, 2);
    lemma_holds_at_index(s, pos, w, 3);
    lemma_holds_at_index(s, pos, w, 4);
    lemma_holds_at_index(s, pos, w, 5);
    lemma_holds_at_index(s, pos, w, 6);
    lemma_holds_at_index(s, pos, w, 7);
    let b0: u64 = s[pos] as u64;
    let b1: u64 = s[pos + 1] as u64;
    let b2: u64 = s[pos + 2] as u64;
    let b3: u64 = s[pos + 3] as u64;
    let b4: u64 = s[pos + 4] as u64;
    let b5: u64 = s[pos + 5] as u64;
    let b6: u64 = s[pos + 6] as u64;
    let b7: u64 = s[pos + 7] as u64;
    assert(x == b0 + 0x100 * b1 + 0x1_0000 * b2 + 0x100_0000 * b3 + 0x1_0000_0000 * b4
        + 0x100_0000_0000 * b5 + 0x1_0000_0000_0000 * b6 + 0x100_0000_0000_0000 * b7)
        by (bit_vector)
        requires
            b0 == x % 0x100,
            b1 == x / 0x100 % 0x100,
            b2 == x / 0x1_0000 % 0x100,
            b3 == x / 0x100_0000 % 0x100,
            b4 == x / 0x1_0000_0000 % 0x100,
            b5 == x / 0x100_0000_0000 % 0x100,
            b6 == x / 0x1_0000_0000_0000 % 0x100,
            b7 == x / 0x100_0000_0000_0000,
    ;
}

/// Two's complement loses nothing: the number that a word holds is the number
/// that was put into it.
pub proof fn lemma_bits_round_trip(a: i8, b: i16, c: i32, d: i64)
    ensures
        i8_of_bits(i8_bits(a)) == a,
        i16_of_bits(i16_bits(b)) == b,
        i32_of_bits(i32_bits(c)) == c,
        i64_of_bits(i64_bits(d)) == d,
{
}

/// A value whose bytes, if it has any of its own, are few enough for their
/// number to be written in front of them. Every value in memory is such a
/// value.
pub open spec fn sendable(p: PrimitiveView) -> bool {
    match p {
        PrimitiveView::Bytes(b) => b.len() <= u64::MAX,
        PrimitiveView::String(t) => encode_utf8(t).len() <= u64::MAX,
        _ => true,
    }
}

/// Reading back length-prefixed bytes gives the bytes that were written.
pub proof fn lemma_bytes_round_trip(b: Seq<u8>, s: Seq<u8>, pos: int)
    requires
        b.len() <= u64::MAX,
        holds_at(s, pos, uvarint_bytes(b.len() as u64) + b),
    ensures
        parse_bytes(s, pos) == Some((b, pos + uvarint_bytes(b.len() as u64).len() + b.len())),
{
    let prefix = uvarint_bytes(b.len() as u64);
    lemma_holds_at_split(s, pos, prefix, b);
    lemma_uvarint_round_trip(b.len() as u64, s, pos);
}

proof fn lemma_fixed_round_trip(p: PrimitiveView, s: Seq<u8>, pos: int)
    requires
        holds_at(s, pos, p.wire_bytes()),
        p is UInt8 || p is UInt16 || p is Int8 || p is Int16 || p is Fixed32 || p is Fixed64
            || p is Float32 || p is Float64 || p is Bool,
    ensures
        parse_primitive(p.type_of(), s, pos) == Ok::<(PrimitiveView, int), ErrorKind>(
            (p, pos + p.wire_bytes().len()),
        ),
{
    match p {
        PrimitiveView::UInt8(x) => {
            lemma_holds_at_index(s, pos, p.wire_bytes(), 0);
        },
        PrimitiveView::UInt16(x) => {
            lemma_u16_le_round_trip(x, s, pos);
        },
        PrimitiveView::Int8(x) => {
            lemma_holds_at_index(s, pos, p.wire_bytes(), 0);
        },
        PrimitiveView::Int16(x) => {
            lemma_u16_le_round_trip(i16_bits(x), s, pos);
        },
        PrimitiveView::Fixed32(x) => {
            lemma_u32_le_round_trip(x, s, pos);
        },
        PrimitiveView::Fixed64(x) => {
            lemma_u64_le_round_trip(x, s, pos);
        },
        PrimitiveView::Float32(x) => {
            lemma_u32_le_round_trip(x, s, pos);
        },
        PrimitiveView::Float64(x) => {
            lemma_u64_le_round_trip(x, s, pos);
        },
        _ => {
            lemma_holds_at_index(s, pos, p.wire_bytes(), 0);
        },
    }
}

proof fn lemma_varint_primitive_round_trip(p: PrimitiveView, s: Seq<u8>, pos: int)
    requires
        holds_at(s, pos, p.wire_bytes()),
        p is UInt32 || p is UInt64 || p is Int32 || p is Int64 || p is Enum,
    ensures
        parse_primitive(p.type_of(), s, pos) == Ok::<(PrimitiveView, int), ErrorKind>(
            (p, pos + p.wire_bytes().len()),
        ),
{
    match p {
        PrimitiveView::UInt32(x) => {
            lemma_uvarint_round_trip(x as u64, s, pos);
        },
        PrimitiveView::UInt64(x) => {
            lemma_uvarint_round_trip(x, s, pos);
        },
        PrimitiveView::Int32(x) => {
            lemma_varint_round_trip(x as i64, s, pos);
            let wide: i64 = x as i64;
            let bits: u64 = i64_bits(wide);
            let low: u32 = low_u32(bits);
            assert(low == i32_bits(x)) by {
                if x < 0 {
                    assert(bits == x + 0x1_0000_0000_0000_0000);
                    assert(bits == (x + 0x1_0000_0000) + 0x1_0000_0000 * 0xFFFF_FFFF);
                }
            }
        },
        PrimitiveView::Int64(x) => {
            lemma_varint_round_trip(x, s, pos);
        },
        PrimitiveView::Enum(x) => {
            lemma_varint_round_trip(x, s, pos);
        },
        _ => {},
    }
}

/// Reading back a primitive as the type that it has gives the value that was
/// written, and stops right behind its bytes.
pub proof fn lemma_primitive_round_trip(p: PrimitiveView, s: Seq<u8>, pos: int)
    requires
        sendable(p),
        holds_at(s, pos, p.wire_bytes()),
    ensures
        parse_primitive(p.type_of(), s, pos) == Ok::<(PrimitiveView, int), ErrorKind>(
            (p, pos + p.wire_bytes().len()),
        ),
{
    match p {
        PrimitiveView::Bytes(b) => {
            lemma_bytes_round_trip(b, s, pos);
        },
        PrimitiveView::String(t) => {
            lemma_bytes_round_trip(encode_utf8(t), s, pos);
            encode_utf8_valid_utf8(t);
            encode_utf8_decode_utf8(t);
        },
        PrimitiveView::UInt32(_) | PrimitiveView::UInt64(_) | PrimitiveView::Int32(_)
        | PrimitiveView::Int64(_) | PrimitiveView::Enum(_) => {
            lemma_varint_primitive_round_trip(p, s, pos);
        },
        _ => {
            lemma_fixed_round_trip(p, s, pos);
        },
    }
}

/// Every primitive that `e` gives can be written: it is a value as memory
/// holds it.
pub open spec fn gives_sendable<E: Encodable>(e: &E) -> bool {
    forall|id: FieldID, idx: usize| #[trigger]
        e.primitive(id, idx) matches Ok(p) ==> sendable(p)
}

/// Whenever `D` decodes a record of `e` from the bytes that `e` wrote for it,
/// and succeeds, it has read these bytes and no more. This is what
/// `decode_record` owes: to call `decode` on the decoder that it is handed.
pub open spec fn reads_records_whole<E: Encodable, D: Decodable>(
    e: &E,
    deps: Seq<RecordEncoding>,
    s: Seq<u8>,
) -> bool {
    forall|m: D::Model, k: int, id: FieldID, idx: usize, pos: int|
        0 <= k < deps.len() && (e.record(deps[k], deps, id, idx) matches Ok(b) && holds_at(
            s,
            pos,
            b,
        )) ==> (#[trigger] D::on_record(m, deps[k], deps, s, pos, id, idx) matches Ok(
            (_, end),
        ) ==> end == pos + e.record(deps[k], deps, id, idx)->Ok_0.len())
}

/// `D` takes whatever it is handed: `set_primitive` and `alloc_field` never
/// return an error, and neither does `decode_record` where it is handed a
/// record of `e` at the place where `e` wrote it.
pub open spec fn takes_all<E: Encodable, D: Decodable>(
    e: &E,
    deps: Seq<RecordEncoding>,
    s: Seq<u8>,
) -> bool {
    &&& forall|m: D::Model, id: FieldID, idx: usize, p: PrimitiveView| #[trigger]
        D::on_primitive(m, id, idx, p) is Ok
    &&& forall|m: D::Model, id: FieldID, count: usize| #[trigger] D::on_alloc(m, id, count) is Ok
    &&& forall|m: D::Model, k: int, id: FieldID, idx: usize, pos: int|
        0 <= k < deps.len() && (e.record(deps[k], deps, id, idx) matches Ok(b) && holds_at(
            s,
            pos,
            b,
        )) ==> #[trigger] D::on_record(m, deps[k], deps, s, pos, id, idx) is Ok
}

/// What a `Decodable` is handed for element `idx` of field `f` when it is
/// handed what `e` holds there: a record goes to `decode_record` with the
/// reader at `pos`, a primitive goes to `set_primitive` as `get_primitive`
/// gives it, and the reader then stands behind its bytes.
pub open spec fn delivered_element<E: Encodable, D: Decodable>(
    e: &E,
    f: FieldEncoding,
    deps: Seq<RecordEncoding>,
    s: Seq<u8>,
    pos: int,
    m: D::Model,
    idx: usize,
) -> Decoded<D::Model> {
    match f.typ {
        Type::Record { index } => match D::on_record(
            m,
            deps[index as int],
            deps,
            s,
            pos,
            f.id,
            idx,
        ) {
            Ok((m_next, end)) => Decoded::Done(m_next, end),
            Err(err) => Decoded::Failed(err),
        },
        _ => {
            let p = e.primitive(f.id, idx)->Ok_0;
            match D::on_primitive(m, f.id, idx, p) {
                Ok(m_next) => Decoded::Done(m_next, pos + p.wire_bytes().len()),
                Err(err) => Decoded::Failed(err),
            }
        },
    }
}

/// The elements `j` to `n - 1` of an array, handed over in their order.
pub open spec fn delivered_run<E: Encodable, D: Decodable>(
    e: &E,
    f: FieldEncoding,
    deps: Seq<RecordEncoding>,
    s: Seq<u8>,
    pos: int,
    m: D::Model,
    base: int,
    j: int,
    n: int,
) -> Decoded<D::Model>
    decreases n - j,
{
    if j >= n {
        Decoded::Done(m, pos)
    } else {
        match delivered_element::<E, D>(e, f, deps, s, pos, m, (base + j) as usize) {
            Decoded::Done(m_next, p_next) => delivered_run::<E, D>(
                e,
                f,
                deps,
                s,
                p_next,
                m_next,
                base,
                j + 1,
                n,
            ),
            other => other,
        }
    }
}

/// Occurrence `idx` of field `f`, handed over: one element, or the elements
/// of one array.
pub open spec fn delivered_array<E: Encodable, D: Decodable>(
    e: &E,
    f: FieldEncoding,
    deps: Seq<RecordEncoding>,
    s: Seq<u8>,
    pos: int,
    m: D::Model,
    idx: usize,
) -> Decoded<D::Model> {
    match f.bounds {
        Some(n) => delivered_run::<E, D>(e, f, deps, s, pos, m, idx * n, 0, n as int),
        None => delivered_element::<E, D>(e, f, deps, s, pos, m, idx),
    }
}

/// The occurrences `idx` to `count - 1` of a repeated field, handed over in
/// their order.
pub open spec fn delivered_arrays<E: Encodable, D: Decodable>(
    e: &E,
    f: FieldEncoding,
    deps: Seq<RecordEncoding>,
    s: Seq<u8>,
    pos: int,
    m: D::Model,
    idx: int,
    count: int,
) -> Decoded<D::Model>
    decreases count - idx,
{
    if idx >= count || idx < 0 {
        Decoded::Done(m, pos)
    } else {
        match delivered_array::<E, D>(e, f, deps, s, pos, m, idx as usize) {
            Decoded::Done(m_next, p_next) => delivered_arrays::<E, D>(
                e,
                f,
                deps,
                s,
                p_next,
                m_next,
                idx + 1,
                count,
            ),
            other => other,
        }
    }
}

/// Decoding an element that `e` wrote hands the `Decodable` what `e` holds,
/// and where it succeeds the reader stands right behind the element's bytes.
pub proof fn lemma_element_round_trip<E: Encodable, D: Decodable>(
    e: &E,
    f: FieldEncoding,
    deps: Seq<RecordEncoding>,
    s: Seq<u8>,
    pos: int,
    m: D::Model,
    idx: usize,
)
    requires
        gives_sendable(e),
        reads_records_whole::<E, D>(e, deps, s),
        encoded_element(e, f, deps, idx) matches Ok(b) && holds_at(s, pos, b),
    ensures
        decoded_element::<D>(f, deps, s, pos, m, idx) == delivered_element::<E, D>(
            e,
            f,
            deps,
            s,
            pos,
            m,
            idx,
        ),
        takes_all::<E, D>(e, deps, s) ==> decoded_element::<D>(f, deps, s, pos, m, idx) is Done,
        decoded_element::<D>(f, deps, s, pos, m, idx) matches Decoded::Done(_, end)
            ==> end == pos
            + encoded_element(e, f, deps, idx)->Ok_0.len(),
{
    match f.typ {
        Type::Record { index } => {
            assert(index < deps.len());
        },
        _ => {
            let p = e.primitive(f.id, idx)->Ok_0;
            assert(e.primitive(f.id, idx) is Ok);
            assert(sendable(p));
            lemma_primitive_round_trip(p, s, pos);
        },
    }
}

/// Decoding the elements of an array that `e` wrote hands them over in their
/// order, and where it succeeds the reader stands right behind their bytes.
pub proof fn lemma_run_round_trip<E: Encodable, D: Decodable>(
    e: &E,
    f: FieldEncoding,
    deps: Seq<RecordEncoding>,
    s: Seq<u8>,
    pos: int,
    m: D::Model,
    base: int,
    j: int,
    n: int,
)
    requires
        gives_sendable(e),
        reads_records_whole::<E, D>(e, deps, s),
        0 <= base,
        0 <= j,
        encoded_run(e, f, deps, base, j, n) matches Ok(b) && holds_at(s, pos, b),
    ensures
        decoded_run::<D>(f, deps, s, pos, m, base, j, n) == delivered_run::<E, D>(
            e,
            f,
            deps,
            s,
            pos,
            m,
            base,
            j,
            n,
        ),
        takes_all::<E, D>(e, deps, s) ==> decoded_run::<D>(f, deps, s, pos, m, base, j, n) is Done,
        decoded_run::<D>(f, deps, s, pos, m, base, j, n) matches Decoded::Done(_, end)
            ==> end == pos
            + encoded_run(e, f, deps, base, j, n)->Ok_0.len(),
    decreases n - j,
{
    if j < n {
        let idx = (base + j) as usize;
        let head = encoded_element(e, f, deps, idx)->Ok_0;
        let tail = encoded_run(e, f, deps, base, j + 1, n)->Ok_0;
        lemma_holds_at_split(s, pos, head, tail);
        lemma_element_round_trip::<E, D>(e, f, deps, s, pos, m, idx);
        match decoded_element::<D>(f, deps, s, pos, m, idx) {
            Decoded::Done(m_next, p_next) => {
                lemma_run_round_trip::<E, D>(e, f, deps, s, p_next, m_next, base, j + 1, n);
            },
            _ => {},
        }
    }
}

/// Decoding an occurrence that `e` wrote hands it over, and where it succeeds
/// the reader stands right behind its bytes.
pub proof fn lemma_array_round_trip<E: Encodable, D: Decodable>(
    e: &E,
    f: FieldEncoding,
    deps: Seq<RecordEncoding>,
    s: Seq<u8>,
    pos: int,
    m: D::Model,
    idx: usize,
)
    requires
        gives_sendable(e),
        reads_records_whole::<E, D>(e, deps, s),
        encoded_array(e, f, deps, idx) matches Ok(b) && holds_at(s, pos, b),
    ensures
        decoded_array::<D>(f, deps, s, pos, m, idx) == delivered_array::<E, D>(
            e,
            f,
            deps,
            s,
            pos,
            m,
            idx,
        ),
        takes_all::<E, D>(e, deps, s) ==> decoded_array::<D>(f, deps, s, pos, m, idx) is Done,
        decoded_array::<D>(f, deps, s, pos, m, idx) matches Decoded::Done(_, end)
            ==> end == pos
            + encoded_array(e, f, deps, idx)->Ok_0.len(),
{
    match f.bounds {
        Some(n) => {
            assert(idx * n >= 0) by (nonlinear_arith)
                requires
                    idx >= 0,
                    n >= 0,
            ;
            lemma_run_round_trip::<E, D>(e, f, deps, s, pos, m, idx * n, 0, n as int);
        },
        None => {
            lemma_element_round_trip::<E, D>(e, f, deps, s, pos, m, idx);
        },
    }
}

/// Decoding the occurrences of a repeated field that `e` wrote hands them over
/// in their order, and where it succeeds the reader stands right behind their
/// bytes.
pub proof fn lemma_arrays_round_trip<E: Encodable, D: Decodable>(
    e: &E,
    f: FieldEncoding,
    deps: Seq<RecordEncoding>,
    s: Seq<u8>,
    pos: int,
    m: D::Model,
    idx: int,
    count: int,
)
    requires
        gives_sendable(e),
        reads_records_whole::<E, D>(e, deps, s),
        0 <= idx,
        count <= usize::MAX,
        encoded_arrays(e, f, deps, idx, count) matches Ok(b) && holds_at(s, pos, b),
    ensures
        decoded_arrays::<D>(f, deps, s, pos, m, idx, count) == delivered_arrays::<E, D>(
            e,
            f,
            deps,
            s,
            pos,
            m,
            idx,
            count,
        ),
        takes_all::<E, D>(e, deps, s) ==>
            decoded_arrays::<D>(f, deps, s, pos, m, idx, count) is Done,
        decoded_arrays::<D>(f, deps, s, pos, m, idx, count) matches Decoded::Done(_, end)
            ==> end == pos
            + encoded_arrays(e, f, deps, idx, count)->Ok_0.len(),
    decreases count - idx,
{
    if idx < count {
        let head = encoded_array(e, f, deps, idx as usize)->Ok_0;
        let tail = encoded_arrays(e, f, deps, idx + 1, count)->Ok_0;
        lemma_holds_at_split(s, pos, head, tail);
        lemma_array_round_trip::<E, D>(e, f, deps, s, pos, m, idx as usize);
        match decoded_array::<D>(f, deps, s, pos, m, idx as usize) {
            Decoded::Done(m_next, p_next) => {
                lemma_arrays_round_trip::<E, D>(e, f, deps, s, p_next, m_next, idx + 1, count);
            },
            _ => {},
        }
    }
}

/// What a `Decodable` is handed for the tagged field `f` of `e`, which is
/// present, when the reader stands at `pos` behind the id of the field: it is
/// asked whether it wants the field, and then it is handed the occurrences, or
/// the reader goes to the end of the field.
pub open spec fn delivered_block<E: Encodable, D: Decodable>(
    e: &E,
    f: FieldEncoding,
    deps: Seq<RecordEncoding>,
    s: Seq<u8>,
    pos: int,
    m: D::Model,
) -> Decoded<D::Model> {
    let body = block_body(e, f, deps);
    let start = pos + uvarint_bytes(body.len() as u64).len();
    let count = e.count(f.id)->Ok_0;
    match f.quant {
        Quantifier::Repeated => match D::on_alloc(m, f.id, count) {
            Ok((m_next, wanted)) => if wanted {
                delivered_arrays::<E, D>(
                    e,
                    f,
                    deps,
                    s,
                    start + uvarint_bytes(count as u64).len(),
                    m_next,
                    0,
                    count as int,
                )
            } else {
                Decoded::Done(m_next, start + body.len())
            },
            Err(err) => Decoded::Failed(err),
        },
        _ => match D::on_alloc(m, f.id, 1) {
            Ok((m_next, wanted)) => if wanted {
                delivered_array::<E, D>(e, f, deps, s, start, m_next, 0)
            } else {
                Decoded::Done(m_next, start + body.len())
            },
            Err(err) => Decoded::Failed(err),
        },
    }
}

/// What a `Decodable` is handed for the tagged fields of `e` from `fields[k]`
/// on: the fields that are present, in the order of the encoding. At the end
/// the reader stands behind the id zero.
pub open spec fn delivered_blocks<E: Encodable, D: Decodable>(
    e: &E,
    fields: Seq<FieldEncoding>,
    k: int,
    deps: Seq<RecordEncoding>,
    s: Seq<u8>,
    pos: int,
    m: D::Model,
) -> Decoded<D::Model>
    decreases fields.len() - k,
{
    if k < 0 || k >= fields.len() {
        Decoded::Done(m, pos + 1)
    } else if present(e, fields[k]) {
        match delivered_block::<E, D>(
            e,
            fields[k],
            deps,
            s,
            pos + uvarint_bytes(fields[k].id.0).len(),
            m,
        ) {
            Decoded::Done(m_next, p_next) => delivered_blocks::<E, D>(
                e,
                fields,
                k + 1,
                deps,
                s,
                p_next,
                m_next,
            ),
            other => other,
        }
    } else {
        delivered_blocks::<E, D>(e, fields, k + 1, deps, s, pos, m)
    }
}

/// What a `Decodable` is handed for the required fields of `e` from
/// `fields[i]` on: one occurrence of each, in the order of the encoding.
pub open spec fn delivered_required<E: Encodable, D: Decodable>(
    e: &E,
    fields: Seq<FieldEncoding>,
    i: int,
    deps: Seq<RecordEncoding>,
    s: Seq<u8>,
    pos: int,
    m: D::Model,
) -> Decoded<D::Model>
    decreases fields.len() - i,
{
    if i < 0 || i >= fields.len() {
        Decoded::Done(m, pos)
    } else {
        match delivered_array::<E, D>(e, fields[i], deps, s, pos, m, 0) {
            Decoded::Done(m_next, p_next) => delivered_required::<E, D>(
                e,
                fields,
                i + 1,
                deps,
                s,
                p_next,
                m_next,
            ),
            other => other,
        }
    }
}

/// What a `Decodable` is handed when it is handed the record that `e` holds:
/// element by element what `e` gives, the required fields first and then the
/// tagged fields that are present, each announced by `alloc_field`.
pub open spec fn delivered_record<E: Encodable, D: Decodable>(
    e: &E,
    rec: RecordEncoding,
    deps: Seq<RecordEncoding>,
    s: Seq<u8>,
    pos: int,
    m: D::Model,
) -> Decoded<D::Model> {
    match delivered_required::<E, D>(e, rec.req_fields@, 0, deps, s, pos, m) {
        Decoded::Done(m_next, p_next) => delivered_blocks::<E, D>(
            e,
            rec.opt_rep_fields@,
            0,
            deps,
            s,
            p_next,
            m_next,
        ),
        other => other,
    }
}

/// Decoding a tagged field that `e` wrote, from behind its id, hands the
/// `Decodable` what `e` holds, and where it succeeds the reader stands right
/// behind the field.
pub proof fn lemma_block_round_trip<E: Encodable, D: Decodable>(
    e: &E,
    f: FieldEncoding,
    deps: Seq<RecordEncoding>,
    s: Seq<u8>,
    pos: int,
    m: D::Model,
)
    requires
        gives_sendable(e),
        reads_records_whole::<E, D>(e, deps, s),
        s.len() <= u64::MAX,
        present(e, f),
        encoded_block(e, f, deps) is Ok,
        holds_at(
            s,
            pos,
            uvarint_bytes(block_body(e, f, deps).len() as u64) + block_body(e, f, deps),
        ),
    ensures
        decoded_block::<D>(f, deps, s, pos, m) == delivered_block::<E, D>(e, f, deps, s, pos, m),
        takes_all::<E, D>(e, deps, s) ==> decoded_block::<D>(f, deps, s, pos, m) is Done,
        decoded_block::<D>(f, deps, s, pos, m) matches Decoded::Done(_, end)
            ==> end == pos
            + uvarint_bytes(block_body(e, f, deps).len() as u64).len() + block_body(
            e,
            f,
            deps,
        ).len(),
{
    let body = block_body(e, f, deps);
    let size = uvarint_bytes(body.len() as u64);
    lemma_holds_at_split(s, pos, size, body);
    lemma_uvarint_round_trip(body.len() as u64, s, pos);
    let start = pos + size.len();
    let count = e.count(f.id)->Ok_0;
    match f.quant {
        Quantifier::Required => {},
        Quantifier::Optional => {
            match D::on_alloc(m, f.id, 1) {
                Ok((m_next, wanted)) => {
                    if wanted {
                        lemma_array_round_trip::<E, D>(e, f, deps, s, start, m_next, 0);
                    }
                },
                Err(_) => {},
            }
        },
        Quantifier::Repeated => {
            let n = uvarint_bytes(count as u64);
            let items = encoded_arrays(e, f, deps, 0, count as int)->Ok_0;
            lemma_holds_at_split(s, start, n, items);
            lemma_uvarint_round_trip(count as u64, s, start);
            match D::on_alloc(m, f.id, count) {
                Ok((m_next, wanted)) => {
                    if wanted {
                        lemma_arrays_round_trip::<E, D>(
                            e,
                            f,
                            deps,
                            s,
                            start + n.len(),
                            m_next,
                            0,
                            count as int,
                        );
                    }
                },
                Err(_) => {},
            }
        },
    }
}

/// The tagged fields of an encoding are as they must be: none is required,
/// no id is zero, and the ids strictly ascend.
pub open spec fn tagged_fields_wf(fields: Seq<FieldEncoding>) -> bool {
    &&& strictly_ascending(fields)
    &&& forall|i: int|
        0 <= i < fields.len() ==> (#[trigger] fields[i]).quant != Quantifier::Required
            && fields[i].id.0 != 0
}

/// Where the next tagged field of `e` is absent, a decoder passes it by: what
/// stands on the wire is the id zero or the id of a later field.
proof fn lemma_absent_field_is_passed_by<E: Encodable, D: Decodable>(
    e: &E,
    fields: Seq<FieldEncoding>,
    k: int,
    deps: Seq<RecordEncoding>,
    s: Seq<u8>,
    pos: int,
    m: D::Model,
)
    requires
        tagged_fields_wf(fields),
        0 <= k < fields.len(),
        !present(e, fields[k]),
        encoded_blocks(e, fields, k + 1, deps) matches Ok(rest) && holds_at(
            s,
            pos,
            rest + seq![0u8],
        ),
    ensures
        decoded_blocks::<D>(fields, k, deps, s, pos, m) == decoded_blocks::<D>(
            fields,
            k + 1,
            deps,
            s,
            pos,
            m,
        ),
{
    let rest = encoded_blocks(e, fields, k + 1, deps)->Ok_0;
    let zero = seq![0u8];
    assert(uvarint_bytes(0) == zero);
    lemma_blocks_are_framed(e, fields, k + 1, deps);
    let coming = emitted(e, fields, k + 1, deps);
    if coming.len() == 0 {
        assert(rest + zero == zero);
        lemma_uvarint_round_trip(0, s, pos);
    } else {
        let next = uvarint_bytes(coming[0].0);
        let behind = uvarint_bytes(coming[0].1.len() as u64) + coming[0].1 + framed(
            coming.skip(1),
        ) + zero;
        assert(rest + zero == next + behind);
        lemma_holds_at_split(s, pos, next, behind);
        lemma_uvarint_round_trip(coming[0].0, s, pos);
        lemma_emitted_follow_the_encoding(e, fields, k + 1, deps, 0, 0);
        let j = choose|j: int| k + 1 <= j < fields.len() && fields[j].id.0 == coming[0].0;
        assert(fields[k].id.0 < fields[j].id.0);
    }
}

/// Where the next tagged field of `e` is present, a decoder finds its id on
/// the wire, decodes the field, and goes on behind it.
proof fn lemma_present_field_is_found<E: Encodable, D: Decodable>(
    e: &E,
    fields: Seq<FieldEncoding>,
    k: int,
    deps: Seq<RecordEncoding>,
    s: Seq<u8>,
    pos: int,
    m: D::Model,
)
    requires
        tagged_fields_wf(fields),
        0 <= k < fields.len(),
        present(e, fields[k]),
        encoded_blocks(e, fields, k, deps) matches Ok(b) && holds_at(s, pos, b + seq![0u8]),
    ensures
        holds_at(
            s,
            pos + uvarint_bytes(fields[k].id.0).len(),
            uvarint_bytes(block_body(e, fields[k], deps).len() as u64) + block_body(
                e,
                fields[k],
                deps,
            ),
        ),
        holds_at(
            s,
            pos + encoded_block(e, fields[k], deps)->Ok_0.len(),
            encoded_blocks(e, fields, k + 1, deps)->Ok_0 + seq![0u8],
        ),
        encoded_block(e, fields[k], deps)->Ok_0.len() == uvarint_bytes(fields[k].id.0).len()
            + uvarint_bytes(block_body(e, fields[k], deps).len() as u64).len() + block_body(
            e,
            fields[k],
            deps,
        ).len(),
        decoded_blocks::<D>(fields, k, deps, s, pos, m) == match decoded_block::<D>(
            fields[k],
            deps,
            s,
            pos + uvarint_bytes(fields[k].id.0).len(),
            m,
        ) {
            Decoded::Done(m_next, p_next) => decoded_blocks::<D>(
                fields,
                k + 1,
                deps,
                s,
                p_next,
                m_next,
            ),
            other => other,
        },
{
    let f = fields[k];
    let zero = seq![0u8];
    let b = encoded_blocks(e, fields, k, deps)->Ok_0;
    let block = encoded_block(e, f, deps)->Ok_0;
    let rest = encoded_blocks(e, fields, k + 1, deps)->Ok_0;
    let body = block_body(e, f, deps);
    let id = uvarint_bytes(f.id.0);
    let size = uvarint_bytes(body.len() as u64);
    assert(b == block + rest);
    assert(block == tagged(f.id.0, body));
    assert(block == id + (size + body));
    assert(b + zero == id + ((size + body) + (rest + zero)));
    lemma_holds_at_split(s, pos, id, (size + body) + (rest + zero));
    lemma_holds_at_split(s, pos + id.len(), size + body, rest + zero);
    lemma_uvarint_round_trip(f.id.0, s, pos);
}

/// Decoding the tagged fields that `e` wrote hands the `Decodable` the fields
/// that are present, in the order of the encoding, and where it succeeds the
/// reader stands right behind the id zero.
pub proof fn lemma_blocks_round_trip<E: Encodable, D: Decodable>(
    e: &E,
    fields: Seq<FieldEncoding>,
    k: int,
    deps: Seq<RecordEncoding>,
    s: Seq<u8>,
    pos: int,
    m: D::Model,
)
    requires
        gives_sendable(e),
        reads_records_whole::<E, D>(e, deps, s),
        s.len() <= u64::MAX,
        tagged_fields_wf(fields),
        0 <= k <= fields.len(),
        encoded_blocks(e, fields, k, deps) matches Ok(b) && holds_at(s, pos, b + seq![0u8]),
    ensures
        decoded_blocks::<D>(fields, k, deps, s, pos, m) == delivered_blocks::<E, D>(
            e,
            fields,
            k,
            deps,
            s,
            pos,
            m,
        ),
        takes_all::<E, D>(e, deps, s) ==> decoded_blocks::<D>(fields, k, deps, s, pos, m) is Done,
        decoded_blocks::<D>(fields, k, deps, s, pos, m) matches Decoded::Done(_, end)
            ==> end == pos
            + encoded_blocks(e, fields, k, deps)->Ok_0.len() + 1,
    decreases fields.len() - k,
{
    let b = encoded_blocks(e, fields, k, deps)->Ok_0;
    let zero = seq![0u8];
    if k == fields.len() {
        assert(uvarint_bytes(0) == zero);
        assert(b + zero == zero);
        lemma_uvarint_round_trip(0, s, pos);
    } else {
        let f = fields[k];
        let block = encoded_block(e, f, deps)->Ok_0;
        let rest = encoded_blocks(e, fields, k + 1, deps)->Ok_0;
        assert(b == block + rest);
        if present(e, f) {
            let start = pos + uvarint_bytes(f.id.0).len();
            lemma_present_field_is_found::<E, D>(e, fields, k, deps, s, pos, m);
            lemma_block_round_trip::<E, D>(e, f, deps, s, start, m);
            match decoded_block::<D>(f, deps, s, start, m) {
                Decoded::Done(m_next, p_next) => {
                    assert(p_next == pos + block.len());
                    lemma_blocks_round_trip::<E, D>(e, fields, k + 1, deps, s, p_next, m_next);
                },
                _ => {},
            }
        } else {
            assert(block == Seq::<u8>::empty());
            assert(b == rest);
            lemma_absent_field_is_passed_by::<E, D>(e, fields, k, deps, s, pos, m);
            lemma_blocks_round_trip::<E, D>(e, fields, k + 1, deps, s, pos, m);
        }
    }
}

/// Decoding the required fields that `e` wrote hands the `Decodable` one
/// occurrence of each, and where it succeeds the reader stands right behind
/// them.
pub proof fn lemma_required_round_trip<E: Encodable, D: Decodable>(
    e: &E,
    fields: Seq<FieldEncoding>,
    i: int,
    deps: Seq<RecordEncoding>,
    s: Seq<u8>,
    pos: int,
    m: D::Model,
)
    requires
        gives_sendable(e),
        reads_records_whole::<E, D>(e, deps, s),
        0 <= i <= fields.len(),
        encoded_required(e, fields, i, deps) matches Ok(b) && holds_at(s, pos, b),
    ensures
        decoded_required::<D>(fields, i, deps, s, pos, m) == delivered_required::<E, D>(
            e,
            fields,
            i,
            deps,
            s,
            pos,
            m,
        ),
        takes_all::<E, D>(e, deps, s) ==> decoded_required::<D>(fields, i, deps, s, pos, m) is Done,
        decoded_required::<D>(fields, i, deps, s, pos, m) matches Decoded::Done(_, end)
            ==> end == pos
            + encoded_required(e, fields, i, deps)->Ok_0.len(),
    decreases fields.len() - i,
{
    if i < fields.len() {
        let head = encoded_required_field(e, fields[i], deps)->Ok_0;
        let tail = encoded_required(e, fields, i + 1, deps)->Ok_0;
        lemma_holds_at_split(s, pos, head, tail);
        lemma_array_round_trip::<E, D>(e, fields[i], deps, s, pos, m, 0);
        match decoded_array::<D>(fields[i], deps, s, pos, m, 0) {
            Decoded::Done(m_next, p_next) => {
                lemma_required_round_trip::<E, D>(e, fields, i + 1, deps, s, p_next, m_next);
            },
            _ => {},
        }
    }
}

/// The round trip of a record. Where `e` encodes to the bytes that stand in
/// `s` at `pos`, decoding there hands the `Decodable` exactly what `e` holds:
/// every element that `get_primitive` gave goes to `set_primitive` with the
/// same field, index and value, in the same order, every present tagged field
/// is announced with its count, and every record field is decoded from the
/// bytes that were written for it. No error arises but those that the
/// `Decodable` itself returns, and after success the reader stands right
/// behind the record. Where the `Decodable` takes whatever it is handed,
/// decoding succeeds.
///
/// The law asks of the encoding that its tagged fields are in order, of `e`
/// that its primitives are values as memory holds them, of `s` that it is no
/// longer than memory can be, and of `D` that it reads each record field to
/// its end.
pub proof fn lemma_round_trip<E: Encodable, D: Decodable>(
    e: &E,
    rec: RecordEncoding,
    deps: Seq<RecordEncoding>,
    s: Seq<u8>,
    pos: int,
    m: D::Model,
)
    requires
        tagged_fields_wf(rec.opt_rep_fields@),
        gives_sendable(e),
        reads_records_whole::<E, D>(e, deps, s),
        s.len() <= u64::MAX,
        encoded_record(e, rec, deps) matches Ok(b) && holds_at(s, pos, b),
    ensures
        decoded_record::<D>(rec, deps, s, pos, m) == delivered_record::<E, D>(
            e,
            rec,
            deps,
            s,
            pos,
            m,
        ),
        takes_all::<E, D>(e, deps, s) ==> decoded_record::<D>(rec, deps, s, pos, m) is Done,
        decoded_record::<D>(rec, deps, s, pos, m) matches Decoded::Done(_, end)
            ==> end == pos
            + encoded_record(e, rec, deps)->Ok_0.len(),
{
    let req = encoded_required(e, rec.req_fields@, 0, deps)->Ok_0;
    let opt = encoded_blocks(e, rec.opt_rep_fields@, 0, deps)->Ok_0;
    let zero = seq![0u8];
    assert(encoded_record(e, rec, deps)->Ok_0 == req + (opt + zero));
    lemma_holds_at_split(s, pos, req, opt + zero);
    lemma_required_round_trip::<E, D>(e, rec.req_fields@, 0, deps, s, pos, m);
    match decoded_required::<D>(rec.req_fields@, 0, deps, s, pos, m) {
        Decoded::Done(m_next, p_next) => {
            lemma_blocks_round_trip::<E, D>(e, rec.opt_rep_fields@, 0, deps, s, p_next, m_next);
        },
        _ => {},
    }
}

} // verus!
