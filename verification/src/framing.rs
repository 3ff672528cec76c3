//! Laws on the frame of a record: the id zero that ends it, the order of its
//! tagged fields, and the skipping of fields that an encoding does not know.

use crate::decoder::{
    decoded_array, decoded_arrays, decoded_blocks, decoded_element, decoded_run, parse_uvarint,
    skipped, Decodable, Decoded, ErrorKind,
};
use crate::encoder::{
    encoded_array, encoded_arrays, encoded_block, encoded_blocks, encoded_element,
    encoded_record, encoded_required, encoded_run, tagged, Encodable,
};
use crate::encoding::{strictly_ascending, FieldEncoding, Quantifier, RecordEncoding, Type};
use crate::primitive::uvarint_bytes;
use vstd::prelude::*;

verus! {

/// Every encoded record ends with the byte zero.
pub proof fn lemma_record_ends_with_zero<E: Encodable>(
    e: &E,
    rec: RecordEncoding,
    deps: Seq<RecordEncoding>,
)
    ensures
        encoded_record(e, rec, deps) matches Ok(bytes) ==> bytes.len() >= 1 && bytes.last() == 0,
{
}

/// Decoding the tagged fields stops at once where the id zero is read: the
/// `Decodable` is not touched, and the reader stands right behind the zero.
pub proof fn lemma_zero_id_ends_record<D: Decodable>(
    fields: Seq<FieldEncoding>,
    k: int,
    deps: Seq<RecordEncoding>,
    s: Seq<u8>,
    pos: int,
    m: D::Model,
)
    ensures
        parse_uvarint(s, pos) matches Some((id, end)) ==> id == 0 ==> decoded_blocks::<D>(
            fields,
            k,
            deps,
            s,
            pos,
            m,
        ) == Decoded::Done(m, end),
{
}

/// The first field from `fields[k]` on whose id is not below `id`: the place
/// in the encoding at which a decoder stands once it has passed by the fields
/// that come before `id`.
pub open spec fn passed_by(fields: Seq<FieldEncoding>, k: int, id: u64) -> int
    decreases fields.len() - k,
{
    if 0 <= k < fields.len() && fields[k].id.0 < id {
        passed_by(fields, k + 1, id)
    } else {
        k
    }
}

/// A field on the wire whose id the encoding does not have from `fields[k]` on
/// is skipped: exactly the bytes that its size prefix counts are passed over,
/// the `Decodable` is not touched, and decoding goes on behind them. Where the
/// bytes end before that, the error is `EOF`.
pub proof fn lemma_unknown_field_is_skipped<D: Decodable>(
    fields: Seq<FieldEncoding>,
    k: int,
    deps: Seq<RecordEncoding>,
    s: Seq<u8>,
    pos: int,
    m: D::Model,
)
    requires
        0 <= k,
        parse_uvarint(s, pos) matches Some((id, start)) && id != 0 && forall|j: int|
            k <= j < fields.len() ==> (#[trigger] fields[j]).id.0 != id,
    ensures
        decoded_blocks::<D>(fields, k, deps, s, pos, m) == match skipped(
            s,
            parse_uvarint(s, pos)->Some_0.1,
        ) {
            Some(end) => decoded_blocks::<D>(
                fields,
                passed_by(fields, k, parse_uvarint(s, pos)->Some_0.0),
                deps,
                s,
                end,
                m,
            ),
            None => Decoded::Refused(ErrorKind::EOF, m),
        },
    decreases fields.len() - k,
{
    let id = parse_uvarint(s, pos)->Some_0.0;
    if k < fields.len() && fields[k].id.0 < id {
        lemma_unknown_field_is_skipped::<D>(fields, k + 1, deps, s, pos, m);
    } else if k < fields.len() {
        assert(fields[k].id.0 != id);
    }
}

/// Whether the tagged field `f` of `e` is on the wire: `count_field` gives a
/// count, and the count is not zero.
pub open spec fn present<E: Encodable>(e: &E, f: FieldEncoding) -> bool {
    e.count(f.id) matches Ok(count) && count != 0
}

/// What the size prefix of the tagged field `f` counts: for an optional field
/// its one occurrence, for a repeated field the count and its occurrences.
pub open spec fn block_body<E: Encodable>(e: &E, f: FieldEncoding, deps: Seq<RecordEncoding>)
    -> Seq<u8> {
    match f.quant {
        Quantifier::Repeated => uvarint_bytes(e.count(f.id)->Ok_0 as u64) + encoded_arrays(
            e,
            f,
            deps,
            0,
            e.count(f.id)->Ok_0 as int,
        )->Ok_0,
        _ => encoded_array(e, f, deps, 0)->Ok_0,
    }
}

/// The blocks that go on the wire for the tagged fields from `fields[k]` on:
/// for each field that is present its id and what its size prefix counts, in
/// the order of the encoding.
pub open spec fn emitted<E: Encodable>(
    e: &E,
    fields: Seq<FieldEncoding>,
    k: int,
    deps: Seq<RecordEncoding>,
) -> Seq<(u64, Seq<u8>)>
    decreases fields.len() - k,
{
    if k < 0 || k >= fields.len() {
        Seq::empty()
    } else if present(e, fields[k]) {
        seq![(fields[k].id.0, block_body(e, fields[k], deps))] + emitted(e, fields, k + 1, deps)
    } else {
        emitted(e, fields, k + 1, deps)
    }
}

/// The bytes of a run of blocks: each behind its id and its length.
pub open spec fn framed(blocks: Seq<(u64, Seq<u8>)>) -> Seq<u8>
    decreases blocks.len(),
{
    if blocks.len() == 0 {
        Seq::empty()
    } else {
        tagged(blocks[0].0, blocks[0].1) + framed(blocks.skip(1))
    }
}

/// The tagged part of an encoded record is the run of the blocks of the fields
/// that are present, and nothing else.
pub proof fn lemma_blocks_are_framed<E: Encodable>(
    e: &E,
    fields: Seq<FieldEncoding>,
    k: int,
    deps: Seq<RecordEncoding>,
)
    requires
        0 <= k,
    ensures
        encoded_blocks(e, fields, k, deps) matches Ok(bytes) ==> bytes == framed(
            emitted(e, fields, k, deps),
        ),
    decreases fields.len() - k,
{
    if k < fields.len() {
        lemma_blocks_are_framed(e, fields, k + 1, deps);
        if encoded_blocks(e, fields, k, deps) is Ok {
            let rest = emitted(e, fields, k + 1, deps);
            let f = fields[k];
            let block = encoded_block(e, f, deps)->Ok_0;
            if present(e, f) {
                let all = seq![(f.id.0, block_body(e, f, deps))] + rest;
                assert(all.skip(1) == rest);
                assert(block == tagged(f.id.0, block_body(e, f, deps)));
            } else {
                assert(block == Seq::<u8>::empty());
                assert(block + framed(rest) == framed(rest));
            }
        }
    }
}

/// Every block on the wire carries the id of a field of the encoding, and a
/// later block that of a later field.
pub proof fn lemma_emitted_follow_the_encoding<E: Encodable>(
    e: &E,
    fields: Seq<FieldEncoding>,
    k: int,
    deps: Seq<RecordEncoding>,
    a: int,
    b: int,
)
    requires
        0 <= k,
        0 <= a <= b < emitted(e, fields, k, deps).len(),
    ensures
        exists|i: int, j: int|
            k <= i <= j < fields.len() && (a < b ==> i < j) && #[trigger] fields[i].id.0
                == emitted(e, fields, k, deps)[a].0 && #[trigger] fields[j].id.0 == emitted(
                e,
                fields,
                k,
                deps,
            )[b].0,
    decreases fields.len() - k,
{
    let all = emitted(e, fields, k, deps);
    let rest = emitted(e, fields, k + 1, deps);
    if present(e, fields[k]) {
        if a == 0 && b == 0 {
            assert(fields[k].id.0 == all[0].0);
        } else if a == 0 {
            assert(all[b] == rest[b - 1]);
            lemma_emitted_follow_the_encoding(e, fields, k + 1, deps, b - 1, b - 1);
            let (i, j) = choose|i: int, j: int|
                k + 1 <= i <= j < fields.len() && #[trigger] fields[i].id.0 == rest[b - 1].0
                    && #[trigger] fields[j].id.0 == rest[b - 1].0;
            assert(fields[k].id.0 == all[0].0 && fields[j].id.0 == all[b].0);
        } else {
            assert(all[a] == rest[a - 1]);
            assert(all[b] == rest[b - 1]);
            lemma_emitted_follow_the_encoding(e, fields, k + 1, deps, a - 1, b - 1);
        }
    } else {
        lemma_emitted_follow_the_encoding(e, fields, k + 1, deps, a, b);
    }
}

/// The tagged fields on the wire strictly ascend in id, where the fields of
/// the encoding do: the encoder never emits them out of order.
pub proof fn lemma_emitted_ids_ascend<E: Encodable>(
    e: &E,
    fields: Seq<FieldEncoding>,
    deps: Seq<RecordEncoding>,
)
    requires
        strictly_ascending(fields),
    ensures
        forall|a: int, b: int|
            0 <= a < b < emitted(e, fields, 0, deps).len() ==> emitted(e, fields, 0, deps)[a].0
                < emitted(e, fields, 0, deps)[b].0,
{
    let all = emitted(e, fields, 0, deps);
    assert forall|a: int, b: int| 0 <= a < b < all.len() implies all[a].0 < all[b].0 by {
        lemma_emitted_follow_the_encoding(e, fields, 0, deps, a, b);
    }
}

/// `e` has element `idx` of field `f` to give: a primitive of the type of the
/// field, or a record whose encoding exists and which it can encode.
pub open spec fn element_given<E: Encodable>(
    e: &E,
    f: FieldEncoding,
    deps: Seq<RecordEncoding>,
    idx: usize,
) -> bool {
    match f.typ {
        Type::Record { index } => index < deps.len() && e.record(
            deps[index as int],
            deps,
            f.id,
            idx,
        ) is Ok,
        _ => e.primitive(f.id, idx) matches Ok(p) && p.type_of() == f.typ,
    }
}

/// The index `base + j` exists, and `e` has the element there to give.
pub open spec fn slot_given<E: Encodable>(
    e: &E,
    f: FieldEncoding,
    deps: Seq<RecordEncoding>,
    base: int,
    j: int,
) -> bool {
    base + j <= usize::MAX && element_given(e, f, deps, (base + j) as usize)
}

/// `e` has occurrence `idx` of field `f` to give: its one element, or every
/// element of the array.
pub open spec fn array_given<E: Encodable>(
    e: &E,
    f: FieldEncoding,
    deps: Seq<RecordEncoding>,
    idx: int,
) -> bool {
    0 <= idx <= usize::MAX && match f.bounds {
        Some(n) => forall|j: int| 0 <= j < n ==> #[trigger] slot_given(e, f, deps, idx * n, j),
        None => element_given(e, f, deps, idx as usize),
    }
}

/// `e` answers for the tagged field `f`: it gives a count, and as many
/// occurrences as are sent for that count.
pub open spec fn field_given<E: Encodable>(e: &E, f: FieldEncoding, deps: Seq<RecordEncoding>)
    -> bool {
    e.count(f.id) matches Ok(count) && (count != 0 ==> match f.quant {
        Quantifier::Repeated => forall|i: int|
            0 <= i < count ==> #[trigger] array_given(e, f, deps, i),
        _ => array_given(e, f, deps, 0),
    })
}

/// The encoding has each field in the list where it belongs, and `e` answers
/// every question that the encoder puts to it for a record of this encoding.
pub open spec fn record_given<E: Encodable>(e: &E, rec: RecordEncoding, deps: Seq<RecordEncoding>)
    -> bool {
    &&& forall|i: int|
        0 <= i < rec.req_fields@.len() ==> (#[trigger] rec.req_fields@[i]).quant
            == Quantifier::Required && array_given(e, rec.req_fields@[i], deps, 0)
    &&& forall|k: int|
        0 <= k < rec.opt_rep_fields@.len() ==> (#[trigger] rec.opt_rep_fields@[k]).quant
            != Quantifier::Required && field_given(e, rec.opt_rep_fields@[k], deps)
}

proof fn lemma_run_is_encoded<E: Encodable>(
    e: &E,
    f: FieldEncoding,
    deps: Seq<RecordEncoding>,
    base: int,
    j: int,
    n: int,
)
    requires
        0 <= j,
        forall|i: int| j <= i < n ==> #[trigger] slot_given(e, f, deps, base, i),
    ensures
        encoded_run(e, f, deps, base, j, n) is Ok,
    decreases n - j,
{
    if j < n {
        assert(slot_given(e, f, deps, base, j));
        lemma_run_is_encoded(e, f, deps, base, j + 1, n);
    }
}

proof fn lemma_array_is_encoded<E: Encodable>(
    e: &E,
    f: FieldEncoding,
    deps: Seq<RecordEncoding>,
    idx: usize,
)
    requires
        array_given(e, f, deps, idx as int),
    ensures
        encoded_array(e, f, deps, idx) is Ok,
{
    match f.bounds {
        Some(n) => {
            lemma_run_is_encoded(e, f, deps, idx * n, 0, n as int);
        },
        None => {},
    }
}

proof fn lemma_arrays_are_encoded<E: Encodable>(
    e: &E,
    f: FieldEncoding,
    deps: Seq<RecordEncoding>,
    idx: int,
    count: int,
)
    requires
        0 <= idx,
        forall|i: int| idx <= i < count ==> #[trigger] array_given(e, f, deps, i),
    ensures
        encoded_arrays(e, f, deps, idx, count) is Ok,
    decreases count - idx,
{
    if idx < count {
        assert(array_given(e, f, deps, idx));
        lemma_array_is_encoded(e, f, deps, idx as usize);
        lemma_arrays_are_encoded(e, f, deps, idx + 1, count);
    }
}

proof fn lemma_blocks_are_encoded<E: Encodable>(
    e: &E,
    fields: Seq<FieldEncoding>,
    k: int,
    deps: Seq<RecordEncoding>,
)
    requires
        0 <= k,
        forall|i: int|
            k <= i < fields.len() ==> (#[trigger] fields[i]).quant != Quantifier::Required
                && field_given(e, fields[i], deps),
    ensures
        encoded_blocks(e, fields, k, deps) is Ok,
    decreases fields.len() - k,
{
    if k < fields.len() {
        let f = fields[k];
        assert(f.quant != Quantifier::Required && field_given(e, f, deps));
        let count = e.count(f.id)->Ok_0;
        if count != 0 {
            match f.quant {
                Quantifier::Repeated => {
                    lemma_arrays_are_encoded(e, f, deps, 0, count as int);
                },
                _ => {
                    lemma_array_is_encoded(e, f, deps, 0);
                },
            }
        }
        lemma_blocks_are_encoded(e, fields, k + 1, deps);
    }
}

proof fn lemma_required_are_encoded<E: Encodable>(
    e: &E,
    fields: Seq<FieldEncoding>,
    i: int,
    deps: Seq<RecordEncoding>,
)
    requires
        0 <= i,
        forall|k: int|
            i <= k < fields.len() ==> (#[trigger] fields[k]).quant == Quantifier::Required
                && array_given(e, fields[k], deps, 0),
    ensures
        encoded_required(e, fields, i, deps) is Ok,
    decreases fields.len() - i,
{
    if i < fields.len() {
        assert(fields[i].quant == Quantifier::Required && array_given(e, fields[i], deps, 0));
        lemma_array_is_encoded(e, fields[i], deps, 0);
        lemma_required_are_encoded(e, fields, i + 1, deps);
    }
}

/// Encoding succeeds where the encoding has its fields in the right lists and
/// `e` answers every question with what the encoding asks for, and the record
/// then ends with the byte zero.
pub proof fn lemma_encoding_succeeds<E: Encodable>(
    e: &E,
    rec: RecordEncoding,
    deps: Seq<RecordEncoding>,
)
    requires
        record_given(e, rec, deps),
    ensures
        encoded_record(e, rec, deps) is Ok,
        encoded_record(e, rec, deps)->Ok_0.len() >= 1,
        encoded_record(e, rec, deps)->Ok_0.last() == 0,
{
    lemma_required_are_encoded(e, rec.req_fields@, 0, deps);
    lemma_blocks_are_encoded(e, rec.opt_rep_fields@, 0, deps);
}

/// What a run of elements hands over depends on the indices of the elements
/// alone, not on where the count of them starts.
proof fn lemma_run_shift<D: Decodable>(
    f: FieldEncoding,
    deps: Seq<RecordEncoding>,
    s: Seq<u8>,
    pos: int,
    m: D::Model,
    base: int,
    j: int,
    n: int,
    by: int,
)
    ensures
        decoded_run::<D>(f, deps, s, pos, m, base, j, n) == decoded_run::<D>(
            f,
            deps,
            s,
            pos,
            m,
            base - by,
            j + by,
            n + by,
        ),
    decreases n - j,
{
    if j < n && base + j <= usize::MAX {
        match decoded_element::<D>(f, deps, s, pos, m, (base + j) as usize) {
            Decoded::Done(m_next, p_next) => {
                lemma_run_shift::<D>(f, deps, s, p_next, m_next, base, j + 1, n, by);
            },
            _ => {},
        }
    }
}

/// A run of elements is its first part and then the rest.
proof fn lemma_run_split<D: Decodable>(
    f: FieldEncoding,
    deps: Seq<RecordEncoding>,
    s: Seq<u8>,
    pos: int,
    m: D::Model,
    base: int,
    j: int,
    mid: int,
    n: int,
)
    requires
        j <= mid <= n,
    ensures
        decoded_run::<D>(f, deps, s, pos, m, base, j, n) == match decoded_run::<D>(
            f,
            deps,
            s,
            pos,
            m,
            base,
            j,
            mid,
        ) {
            Decoded::Done(m_next, p_next) => decoded_run::<D>(
                f,
                deps,
                s,
                p_next,
                m_next,
                base,
                mid,
                n,
            ),
            other => other,
        },
    decreases mid - j,
{
    if j < mid && base + j <= usize::MAX {
        match decoded_element::<D>(f, deps, s, pos, m, (base + j) as usize) {
            Decoded::Done(m_next, p_next) => {
                lemma_run_split::<D>(f, deps, s, p_next, m_next, base, j + 1, mid, n);
            },
            _ => {},
        }
    }
}

/// Bounded array flattening. The occurrences `idx` to `count - 1` of a field
/// whose arrays have `n` elements are handed over as one run of elements with
/// the indices `idx * n` to `count * n - 1`, in this order: occurrence `i`
/// fills the indices `i * n` to `i * n + n - 1`, and nothing comes between.
pub proof fn lemma_arrays_flatten<D: Decodable>(
    f: FieldEncoding,
    deps: Seq<RecordEncoding>,
    s: Seq<u8>,
    pos: int,
    m: D::Model,
    idx: int,
    count: int,
    n: usize,
)
    requires
        f.bounds == Some(n),
        0 <= idx <= count <= usize::MAX,
    ensures
        decoded_arrays::<D>(f, deps, s, pos, m, idx, count) == decoded_run::<D>(
            f,
            deps,
            s,
            pos,
            m,
            0,
            idx * n,
            count * n,
        ),
    decreases count - idx,
{
    if idx < count {
        let from = idx * n;
        let mid = (idx + 1) * n;
        let to = count * n;
        assert(mid == from + n && from <= mid <= to) by (nonlinear_arith)
            requires
                from == idx * n,
                mid == (idx + 1) * n,
                to == count * n,
                0 <= idx < count,
                0 <= n,
        ;
        lemma_run_shift::<D>(f, deps, s, pos, m, from, 0, n as int, from);
        lemma_run_split::<D>(f, deps, s, pos, m, 0, from, mid, to);
        match decoded_array::<D>(f, deps, s, pos, m, idx as usize) {
            Decoded::Done(m_next, p_next) => {
                lemma_arrays_flatten::<D>(f, deps, s, p_next, m_next, idx + 1, count, n);
            },
            _ => {},
        }
    } else {
        assert(idx * n == count * n);
    }
}

} // verus!
