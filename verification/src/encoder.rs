//! The `Encoder` and the `Encodable` trait that it questions.

use crate::encoding::{CompleteEncoding, FieldEncoding, FieldID, Quantifier, RecordEncoding, Type};
use crate::primitive::{
    uvarint_bytes, write_i8, write_le_i16, write_le_u16, write_le_u32, write_le_u64, write_u8,
    write_uvarint, write_varint, Primitive, PrimitiveView,
};
use vstd::prelude::*;

verus! {

/// `Error` is used to report errors that occur during the encoding process.
#[derive(Clone, Copy, Debug, PartialEq, Eq, Structural)]
pub enum Error {
    /// `EncodingInvalid` indicates that there is an inconsistency in the
    /// `CompleteEncoding` being used.
    EncodingInvalid,
    /// `FieldTypeMismatch` indicates a disagreement between the `Encoder` and
    /// the `Encodable` about what the type of a field is. Either the wrong
    /// `CompleteEncoding` is in use, or the `Encodable` is not consistent with
    /// the record definition.
    FieldTypeMismatch,
    /// `IoError` indicates a failure of the sink that the bytes go to. The
    /// encoder itself never gives it; an `Encodable` may.
    IoError,
}

/// The `Encodable` trait allows an object to be encoded as a rex record.
///
/// What an implementation answers is named by three spec functions, so that
/// the bytes of a record are a function of the value that is encoded. An
/// implementation that is verified defines all three.
pub trait Encodable {
    /// What `get_primitive` returns for element `idx` of field `id`.
    open spec fn primitive(&self, id: FieldID, idx: usize) -> Result<PrimitiveView, Error> {
        arbitrary()
    }

    /// What `encode_record` does for element `idx` of field `id` when it is
    /// handed an encoder for `rec` and `deps`: the bytes that it appends, or
    /// the error that it returns.
    open spec fn record(
        &self,
        rec: RecordEncoding,
        deps: Seq<RecordEncoding>,
        id: FieldID,
        idx: usize,
    ) -> Result<Seq<u8>, Error> {
        arbitrary()
    }

    /// What `count_field` returns for field `id`.
    open spec fn count(&self, id: FieldID) -> Result<usize, Error> {
        arbitrary()
    }

    /// `get_primitive` should return the value of a single element of a field
    /// with primitive type.
    fn get_primitive(&self, id: FieldID, idx: usize) -> (res: Result<Primitive, Error>)
        ensures
            match self.primitive(id, idx) {
                Ok(p) => res matches Ok(prim) && prim@ == p,
                Err(e) => res matches Err(err) && err == e,
            },
    ;

    /// `encode_record` is a request to call `e.encode` on a record field, and
    /// to return what that call returns: the number of bytes of the record.
    fn encode_record(&self, e: Encoder<'_>, id: FieldID, idx: usize) -> (res: Result<usize, Error>)
        ensures
            wrote(res, old(e.data)@, final(e.data)@, self.record(*e.rec, e.deps@, id, idx)),
    ;

    /// `count_field` should return the number of members of an optional or
    /// repeated field.
    fn count_field(&self, id: FieldID) -> (res: Result<usize, Error>)
        ensures
            res == self.count(id),
    ;
}

/// Whether an encoding step that found the buffer holding `before`, left it
/// holding `after` and returned `res` did what `goal` asks for: it appended
/// the bytes and returned their number, or returned the error. After an
/// error, what the buffer holds is not specified.
pub open spec fn wrote(
    res: Result<usize, Error>,
    before: Seq<u8>,
    after: Seq<u8>,
    goal: Result<Seq<u8>, Error>,
) -> bool {
    match goal {
        Ok(bytes) => res == Ok::<usize, Error>(bytes.len() as usize) && after == before + bytes,
        Err(e) => res == Err::<usize, Error>(e),
    }
}

/// `first` and then `rest`, or the error of the first of them that is one.
pub open spec fn in_turn(first: Result<Seq<u8>, Error>, rest: Result<Seq<u8>, Error>) -> Result<
    Seq<u8>,
    Error,
> {
    match first {
        Ok(a) => match rest {
            Ok(b) => Ok(a + b),
            Err(e) => Err(e),
        },
        Err(e) => Err(e),
    }
}

/// The bytes of one element of field `f` at index `idx`: those of the record
/// that `encode_record` writes with the encoding that the type names, which
/// must exist, or those of the primitive that `get_primitive` gives, which
/// must have the type of the field.
pub open spec fn encoded_element<E: Encodable>(
    e: &E,
    f: FieldEncoding,
    deps: Seq<RecordEncoding>,
    idx: usize,
) -> Result<Seq<u8>, Error> {
    match f.typ {
        Type::Record { index } => if index < deps.len() {
            e.record(deps[index as int], deps, f.id, idx)
        } else {
            Err(Error::EncodingInvalid)
        },
        _ => match e.primitive(f.id, idx) {
            Ok(p) => if p.type_of() == f.typ {
                Ok(p.wire_bytes())
            } else {
                Err(Error::FieldTypeMismatch)
            },
            Err(err) => Err(err),
        },
    }
}

/// The bytes of the elements `j` to `n - 1` of an array whose first element
/// has the index `base`. An index that does not fit in `usize` is an
/// `EncodingInvalid` error.
pub open spec fn encoded_run<E: Encodable>(
    e: &E,
    f: FieldEncoding,
    deps: Seq<RecordEncoding>,
    base: int,
    j: int,
    n: int,
) -> Result<Seq<u8>, Error>
    decreases n - j,
{
    if j >= n {
        Ok(Seq::empty())
    } else if base + j > usize::MAX {
        Err(Error::EncodingInvalid)
    } else {
        match encoded_element(e, f, deps, (base + j) as usize) {
            Ok(a) => match encoded_run(e, f, deps, base, j + 1, n) {
                Ok(b) => Ok(a + b),
                Err(err) => Err(err),
            },
            Err(err) => Err(err),
        }
    }
}

/// The bytes of occurrence `idx` of field `f`: one element at `idx`, or for an
/// array of `n` elements those at `idx * n` to `idx * n + n - 1`.
pub open spec fn encoded_array<E: Encodable>(
    e: &E,
    f: FieldEncoding,
    deps: Seq<RecordEncoding>,
    idx: usize,
) -> Result<Seq<u8>, Error> {
    match f.bounds {
        Some(n) => encoded_run(e, f, deps, idx * n, 0, n as int),
        None => encoded_element(e, f, deps, idx),
    }
}

/// The bytes of the occurrences `idx` to `count - 1` of a repeated field.
pub open spec fn encoded_arrays<E: Encodable>(
    e: &E,
    f: FieldEncoding,
    deps: Seq<RecordEncoding>,
    idx: int,
    count: int,
) -> Result<Seq<u8>, Error>
    decreases count - idx,
{
    if idx >= count || idx < 0 {
        Ok(Seq::empty())
    } else {
        match encoded_array(e, f, deps, idx as usize) {
            Ok(a) => match encoded_arrays(e, f, deps, idx + 1, count) {
                Ok(b) => Ok(a + b),
                Err(err) => Err(err),
            },
            Err(err) => Err(err),
        }
    }
}

/// `body` behind the id of its field and its own length.
pub open spec fn tagged(id: u64, body: Seq<u8>) -> Seq<u8> {
    uvarint_bytes(id) + uvarint_bytes(body.len() as u64) + body
}

/// The bytes of the tagged field `f`. Nothing where `count_field` gives zero.
/// Else the id, the size prefix, and what the size prefix counts: for an
/// optional field its one occurrence, for a repeated field the count and then
/// that many occurrences. A required field has no place among the tagged
/// fields.
pub open spec fn encoded_block<E: Encodable>(e: &E, f: FieldEncoding, deps: Seq<RecordEncoding>)
    -> Result<Seq<u8>, Error> {
    match f.quant {
        Quantifier::Required => Err(Error::EncodingInvalid),
        Quantifier::Optional => match e.count(f.id) {
            Ok(count) => if count == 0 {
                Ok(Seq::empty())
            } else {
                match encoded_array(e, f, deps, 0) {
                    Ok(body) => Ok(tagged(f.id.0, body)),
                    Err(err) => Err(err),
                }
            },
            Err(err) => Err(err),
        },
        Quantifier::Repeated => match e.count(f.id) {
            Ok(count) => if count == 0 {
                Ok(Seq::empty())
            } else {
                match encoded_arrays(e, f, deps, 0, count as int) {
                    Ok(items) => Ok(tagged(f.id.0, uvarint_bytes(count as u64) + items)),
                    Err(err) => Err(err),
                }
            },
            Err(err) => Err(err),
        },
    }
}

/// The bytes of the tagged fields from `fields[k]` on, in the order of the
/// encoding.
pub open spec fn encoded_blocks<E: Encodable>(
    e: &E,
    fields: Seq<FieldEncoding>,
    k: int,
    deps: Seq<RecordEncoding>,
) -> Result<Seq<u8>, Error>
    decreases fields.len() - k,
{
    if k < 0 || k >= fields.len() {
        Ok(Seq::empty())
    } else {
        in_turn(encoded_block(e, fields[k], deps), encoded_blocks(e, fields, k + 1, deps))
    }
}

/// The bytes of one required field: its one occurrence, with no tag. A field
/// that is not required has no place among the required fields.
pub open spec fn encoded_required_field<E: Encodable>(
    e: &E,
    f: FieldEncoding,
    deps: Seq<RecordEncoding>,
) -> Result<Seq<u8>, Error> {
    match f.quant {
        Quantifier::Required => encoded_array(e, f, deps, 0),
        _ => Err(Error::EncodingInvalid),
    }
}

/// The bytes of the required fields from `fields[i]` on, in the order of the
/// encoding.
pub open spec fn encoded_required<E: Encodable>(
    e: &E,
    fields: Seq<FieldEncoding>,
    i: int,
    deps: Seq<RecordEncoding>,
) -> Result<Seq<u8>, Error>
    decreases fields.len() - i,
{
    if i < 0 || i >= fields.len() {
        Ok(Seq::empty())
    } else {
        in_turn(
            encoded_required_field(e, fields[i], deps),
            encoded_required(e, fields, i + 1, deps),
        )
    }
}

/// The bytes of one record of encoding `rec`: the required fields, the tagged
/// fields that are present, and the id zero that ends the record; or the first
/// error.
pub open spec fn encoded_record<E: Encodable>(
    e: &E,
    rec: RecordEncoding,
    deps: Seq<RecordEncoding>,
) -> Result<Seq<u8>, Error> {
    in_turn(
        in_turn(
            encoded_required(e, rec.req_fields@, 0, deps),
            encoded_blocks(e, rec.opt_rep_fields@, 0, deps),
        ),
        Ok(seq![0u8]),
    )
}

/// An `Encoder` is a struct that knows how to encode a particular record
/// field. `Encoder`s are handed to the `encode_record` method of an
/// `Encodable`.
pub struct Encoder<'x> {
    /// The encoding for the record type that this `Encoder` knows how to
    /// encode.
    pub rec: &'x RecordEncoding,
    /// The `depends` field of the `CompleteEncoding` that `rec` is a member of.
    pub deps: &'x [RecordEncoding],
    /// The buffer to which the encoded record is appended. All encoders of one
    /// encoding share it.
    pub data: &'x mut Vec<u8>,
}

/// Puts the size prefix of a tagged field in front of what has been written
/// after `start`: the bytes from `start` on move up to make room for their own
/// length as a varint.
fn insert_size_prefix(data: &mut Vec<u8>, start: usize)
    requires
        start <= old(data)@.len(),
    ensures
        final(data)@ == old(data)@.subrange(0, start as int) + uvarint_bytes(
            (old(data)@.len() - start) as u64,
        ) + old(data)@.subrange(start as int, old(data)@.len() as int),
{
    let mut body: Vec<u8> = data.split_off(start);
    write_uvarint(data, body.len() as u64);
    data.append(&mut body);
}

/// Encodes one record of the target type of `enc` from `e`, appends it to `w`
/// and returns its length in bytes.
pub fn encode_to<E: Encodable>(enc: &CompleteEncoding, w: &mut Vec<u8>, e: &E) -> (res: Result<
    usize,
    Error,
>)
    ensures
        wrote(res, old(w)@, final(w)@, encoded_record(e, enc.target, enc.depends@)),
{
    let mut encoder = Encoder { rec: &enc.target, deps: enc.depends.as_slice(), data: &mut *w };
    let res = encoder.encode(e);
    res
}

impl<'x> Encoder<'x> {
    /// This encoder is `before` but for what its buffer holds.
    pub open spec fn follows(&self, before: &Self) -> bool {
        &&& self.rec == before.rec
        &&& self.deps == before.deps
    }

    /// The `encode` method should be called by implementations of the
    /// `encode_record` method of the `Encodable` trait.
    ///
    /// On success, `encode` returns the number of bytes that the record takes,
    /// size prefixes included, and has appended these bytes to the buffer. The
    /// caller should pass the return value through as the return value of
    /// `encode_record`.
    pub fn encode<E: Encodable>(&mut self, e: &E) -> (res: Result<usize, Error>)
        ensures
            final(self).follows(old(self)),
            *final(final(self).data) == *final(old(self).data),
            wrote(
                res,
                old(self).data@,
                final(self).data@,
                encoded_record(e, *old(self).rec, old(self).deps@),
            ),
    {
        let ghost before = self.data@;
        let ghost deps = self.deps@;
        let rec: &RecordEncoding = self.rec;
        let begin: usize = self.data.len();
        let ghost req = encoded_required(e, rec.req_fields@, 0, deps);
        let ghost mut done: Seq<u8> = Seq::empty();
        let n_req: usize = rec.req_fields.len();
        let mut i: usize = 0;
        assert(before + done == before);
        while i < n_req
            invariant
                i <= n_req,
                n_req == rec.req_fields@.len(),
                self.follows(old(self)),
                *final(self.data) == *final(old(self).data),
                rec == old(self).rec,
                deps == self.deps@,
                before == old(self).data@,
                begin == before.len(),
                self.data@ == before + done,
                req == encoded_required(e, rec.req_fields@, 0, deps),
                req == in_turn(Ok(done), encoded_required(e, rec.req_fields@, i as int, deps)),
            decreases n_req - i,
        {
            let f: &FieldEncoding = &rec.req_fields[i];
            let ghost item = encoded_required_field(e, *f, deps);
            let step: Result<usize, Error> = match f.quant {
                Quantifier::Required => self.encode_required(e, f),
                Quantifier::Repeated | Quantifier::Optional => Err(Error::EncodingInvalid),
            };
            match step {
                Ok(_) => {},
                Err(err) => {
                    return Err(err);
                },
            }
            proof {
                let rest = encoded_required(e, rec.req_fields@, i + 1, deps);
                if rest is Ok {
                    assert(done + (item->Ok_0 + rest->Ok_0) == (done + item->Ok_0) + rest->Ok_0);
                }
                assert(before + done + item->Ok_0 == before + (done + item->Ok_0));
                done = done + item->Ok_0;
            }
            i = i + 1;
        }
        assert(done + Seq::<u8>::empty() == done);
        let ghost required = done;
        let ghost blocks = encoded_blocks(e, rec.opt_rep_fields@, 0, deps);
        proof {
            done = Seq::empty();
        }
        assert(before + required + done == before + required);
        let n: usize = rec.opt_rep_fields.len();
        let mut k: usize = 0;
        while k < n
            invariant
                k <= n,
                n == rec.opt_rep_fields@.len(),
                self.follows(old(self)),
                *final(self.data) == *final(old(self).data),
                rec == old(self).rec,
                deps == self.deps@,
                before == old(self).data@,
                begin == before.len(),
                self.data@ == before + required + done,
                req == encoded_required(e, rec.req_fields@, 0, deps),
                req == Ok::<Seq<u8>, Error>(required),
                blocks == encoded_blocks(e, rec.opt_rep_fields@, 0, deps),
                blocks == in_turn(
                    Ok(done),
                    encoded_blocks(e, rec.opt_rep_fields@, k as int, deps),
                ),
            decreases n - k,
        {
            let f: &FieldEncoding = &rec.opt_rep_fields[k];
            let ghost item = encoded_block(e, *f, deps);
            let step: Result<usize, Error> = match f.quant {
                Quantifier::Optional => self.encode_optional(e, f),
                Quantifier::Repeated => self.encode_repeated(e, f),
                Quantifier::Required => Err(Error::EncodingInvalid),
            };
            match step {
                Ok(_) => {},
                Err(err) => {
                    return Err(err);
                },
            }
            proof {
                let rest = encoded_blocks(e, rec.opt_rep_fields@, k + 1, deps);
                if rest is Ok {
                    assert(done + (item->Ok_0 + rest->Ok_0) == (done + item->Ok_0) + rest->Ok_0);
                }
                assert(before + required + done + item->Ok_0 == before + required + (done
                    + item->Ok_0));
                done = done + item->Ok_0;
            }
            k = k + 1;
        }
        assert(done + Seq::<u8>::empty() == done);
        // Write the final 0-id, marking the end of the record.
        write_uvarint(self.data, 0);
        assert(uvarint_bytes(0) == seq![0u8]);
        assert(self.data@ == before + (required + done + seq![0u8]));
        Ok(self.data.len() - begin)
    }

    /// An encoder for the record type that dependency `index` describes, on
    /// the same buffer. A dependency that does not exist is an
    /// `EncodingInvalid` error.
    pub fn child(&mut self, index: usize) -> (res: Result<Encoder<'_>, Error>)
        ensures
            final(self).follows(old(self)),
            match res {
                Ok(c) => {
                    &&& index < old(self).deps@.len()
                    &&& *c.rec == old(self).deps@[index as int]
                    &&& c.deps@ == old(self).deps@
                    &&& *c.data == *old(self).data
                    &&& *final(self).data == *final(c.data)
                    &&& *final(final(self).data) == *final(old(self).data)
                },
                Err(e) => {
                    &&& index >= old(self).deps@.len()
                    &&& e == Error::EncodingInvalid
                    &&& *final(self).data == *old(self).data
                    &&& *final(final(self).data) == *final(old(self).data)
                },
            },
    {
        if index < self.deps.len() {
            Ok(Encoder { rec: &self.deps[index], deps: self.deps, data: &mut *self.data })
        } else {
            Err(Error::EncodingInvalid)
        }
    }

    fn encode_required<E: Encodable>(&mut self, e: &E, f: &FieldEncoding) -> (res: Result<
        usize,
        Error,
    >)
        ensures
            final(self).follows(old(self)),
            *final(final(self).data) == *final(old(self).data),
            wrote(
                res,
                old(self).data@,
                final(self).data@,
                encoded_array(e, *f, old(self).deps@, 0),
            ),
    {
        self.encode_array(e, f, 0)
    }

    fn encode_optional<E: Encodable>(&mut self, e: &E, f: &FieldEncoding) -> (res: Result<
        usize,
        Error,
    >)
        requires
            f.quant == Quantifier::Optional,
        ensures
            final(self).follows(old(self)),
            *final(final(self).data) == *final(old(self).data),
            wrote(
                res,
                old(self).data@,
                final(self).data@,
                encoded_block(e, *f, old(self).deps@),
            ),
    {
        let ghost before = self.data@;
        let count: usize = match e.count_field(f.id) {
            Ok(c) => c,
            Err(err) => {
                return Err(err);
            },
        };
        if count == 0 {
            assert(before + Seq::<u8>::empty() == before);
            return Ok(0);
        }
        let begin: usize = self.data.len();
        write_uvarint(self.data, f.id.0);
        let start: usize = self.data.len();
        match self.encode_array(e, f, 0) {
            Ok(_) => {},
            Err(err) => {
                return Err(err);
            },
        }
        let ghost body = encoded_array(e, *f, self.deps@, 0)->Ok_0;
        let ghost filled = self.data@;
        insert_size_prefix(self.data, start);
        proof {
            assert(filled == before + uvarint_bytes(f.id.0) + body);
            assert(filled.subrange(0, start as int) == before + uvarint_bytes(f.id.0));
            assert(filled.subrange(start as int, filled.len() as int) == body);
            assert(self.data@ == before + tagged(f.id.0, body));
        }
        Ok(self.data.len() - begin)
    }

    fn encode_repeated<E: Encodable>(&mut self, e: &E, f: &FieldEncoding) -> (res: Result<
        usize,
        Error,
    >)
        requires
            f.quant == Quantifier::Repeated,
        ensures
            final(self).follows(old(self)),
            *final(final(self).data) == *final(old(self).data),
            wrote(
                res,
                old(self).data@,
                final(self).data@,
                encoded_block(e, *f, old(self).deps@),
            ),
    {
        let ghost before = self.data@;
        let ghost deps = self.deps@;
        let count: usize = match e.count_field(f.id) {
            Ok(c) => c,
            Err(err) => {
                return Err(err);
            },
        };
        if count == 0 {
            assert(before + Seq::<u8>::empty() == before);
            return Ok(0);
        }
        let begin: usize = self.data.len();
        write_uvarint(self.data, f.id.0);
        let start: usize = self.data.len();
        write_uvarint(self.data, count as u64);
        let ghost head = self.data@;
        let ghost items = encoded_arrays(e, *f, deps, 0, count as int);
        let ghost mut done: Seq<u8> = Seq::empty();
        assert(head + done == head);
        let mut index: usize = 0;
        while index < count
            invariant
                index <= count,
                self.follows(old(self)),
                *final(self.data) == *final(old(self).data),
                deps == self.deps@,
                before == old(self).data@,
                self.data@ == head + done,
                items == encoded_arrays(e, *f, deps, 0, count as int),
                items == in_turn(
                    Ok(done),
                    encoded_arrays(e, *f, deps, index as int, count as int),
                ),
                old(self).data@ == before,
                encoded_block(e, *f, deps) == match items {
                    Ok(all) => Ok(tagged(f.id.0, uvarint_bytes(count as u64) + all)),
                    Err(err) => Err(err),
                },
            decreases count - index,
        {
            let ghost item = encoded_array(e, *f, deps, index);
            match self.encode_array(e, f, index) {
                Ok(_) => {},
                Err(err) => {
                    return Err(err);
                },
            }
            proof {
                let rest = encoded_arrays(e, *f, deps, index + 1, count as int);
                if rest is Ok {
                    assert(done + (item->Ok_0 + rest->Ok_0) == (done + item->Ok_0) + rest->Ok_0);
                }
                assert(head + done + item->Ok_0 == head + (done + item->Ok_0));
                done = done + item->Ok_0;
            }
            index = index + 1;
        }
        assert(done + Seq::<u8>::empty() == done);
        let ghost filled = self.data@;
        let ghost body = uvarint_bytes(count as u64) + done;
        insert_size_prefix(self.data, start);
        proof {
            assert(filled == before + uvarint_bytes(f.id.0) + body);
            assert(filled.subrange(0, start as int) == before + uvarint_bytes(f.id.0));
            assert(filled.subrange(start as int, filled.len() as int) == body);
            assert(self.data@ == before + tagged(f.id.0, body));
        }
        Ok(self.data.len() - begin)
    }

    fn encode_array<E: Encodable>(&mut self, e: &E, f: &FieldEncoding, index: usize) -> (res:
        Result<usize, Error>)
        ensures
            final(self).follows(old(self)),
            *final(final(self).data) == *final(old(self).data),
            wrote(
                res,
                old(self).data@,
                final(self).data@,
                encoded_array(e, *f, old(self).deps@, index),
            ),
    {
        let ghost before = self.data@;
        let ghost deps = self.deps@;
        match f.bounds {
            Some(max) => {
                let begin: usize = self.data.len();
                let base: Option<usize> = index.checked_mul(max);
                let ghost all = encoded_run(e, *f, deps, index * max, 0, max as int);
                let ghost mut done: Seq<u8> = Seq::empty();
                assert(before + done == before);
                let mut j: usize = 0;
                while j < max
                    invariant
                        j <= max,
                        self.follows(old(self)),
                        *final(self.data) == *final(old(self).data),
                        deps == self.deps@,
                        before == old(self).data@,
                        begin == before.len(),
                        self.data@ == before + done,
                        base == if index * max <= usize::MAX {
                            Some((index * max) as usize)
                        } else {
                            None
                        },
                        all == encoded_run(e, *f, deps, index * max, 0, max as int),
                        all == encoded_array(e, *f, old(self).deps@, index),
                        all == in_turn(
                            Ok(done),
                            encoded_run(e, *f, deps, index * max, j as int, max as int),
                        ),
                    decreases max - j,
                {
                    let at: usize = match base {
                        Some(b) => match b.checked_add(j) {
                            Some(a) => a,
                            None => {
                                return Err(Error::EncodingInvalid);
                            },
                        },
                        None => {
                            return Err(Error::EncodingInvalid);
                        },
                    };
                    let ghost item = encoded_element(e, *f, deps, at);
                    match self.encode_field(e, f, at) {
                        Ok(_) => {},
                        Err(err) => {
                            return Err(err);
                        },
                    }
                    proof {
                        let rest = encoded_run(e, *f, deps, index * max, j + 1, max as int);
                        if rest is Ok {
                            assert(done + (item->Ok_0 + rest->Ok_0) == (done + item->Ok_0)
                                + rest->Ok_0);
                        }
                        assert(before + done + item->Ok_0 == before + (done + item->Ok_0));
                        done = done + item->Ok_0;
                    }
                    j = j + 1;
                }
                assert(done + Seq::<u8>::empty() == done);
                Ok(self.data.len() - begin)
            },
            None => self.encode_field(e, f, index),
        }
    }

    fn encode_field<E: Encodable>(&mut self, e: &E, f: &FieldEncoding, index: usize) -> (res:
        Result<usize, Error>)
        ensures
            final(self).follows(old(self)),
            *final(final(self).data) == *final(old(self).data),
            wrote(
                res,
                old(self).data@,
                final(self).data@,
                encoded_element(e, *f, old(self).deps@, index),
            ),
            !(f.typ is Record) && res is Err ==> final(self).data@ == old(self).data@,
            (f.typ matches Type::Record { index: k } && k >= old(self).deps@.len())
                ==> final(self).data@ == old(self).data@,
    {
        match f.typ {
            Type::Record { index: child_index } => {
                match self.child(child_index) {
                    Ok(child) => e.encode_record(child, f.id, index),
                    Err(err) => Err(err),
                }
            },
            t => match e.get_primitive(f.id, index) {
                Ok(prim) => {
                    if !prim.has_type(t) {
                        return Err(Error::FieldTypeMismatch);
                    }
                    Ok(self.encode_primitive(prim))
                },
                Err(err) => Err(err),
            },
        }
    }

    /// Appends the bytes of `prim` to the buffer and returns their number.
    pub fn encode_primitive(&mut self, prim: Primitive) -> (n: usize)
        ensures
            final(self).follows(old(self)),
            *final(final(self).data) == *final(old(self).data),
            final(self).data@ == old(self).data@ + prim@.wire_bytes(),
            n == prim@.wire_bytes().len(),
    {
        let begin: usize = self.data.len();
        match prim {
            Primitive::UInt8(x) => {
                write_u8(self.data, x);
            },
            Primitive::UInt16(x) => {
                write_le_u16(self.data, x);
            },
            Primitive::UInt32(x) => {
                write_uvarint(self.data, x as u64);
            },
            Primitive::UInt64(x) => {
                write_uvarint(self.data, x);
            },
            Primitive::Int8(x) => {
                write_i8(self.data, x);
            },
            Primitive::Int16(x) => {
                write_le_i16(self.data, x);
            },
            Primitive::Int32(x) => {
                write_varint(self.data, x as i64);
            },
            Primitive::Int64(x) => {
                write_varint(self.data, x);
            },
            Primitive::Fixed32(x) => {
                write_le_u32(self.data, x);
            },
            Primitive::Fixed64(x) => {
                write_le_u64(self.data, x);
            },
            Primitive::Float32(x) => {
                write_le_u32(self.data, x);
            },
            Primitive::Float64(x) => {
                write_le_u64(self.data, x);
            },
            Primitive::Bool(x) => {
                write_u8(
                    self.data,
                    if x {
                        0xFF
                    } else {
                        0x00
                    },
                );
            },
            Primitive::Bytes(x) => {
                let mut bytes: Vec<u8> = x;
                write_uvarint(self.data, bytes.len() as u64);
                self.data.append(&mut bytes);
            },
            Primitive::String(x) => {
                let mut utf8: Vec<u8> = vstd::slice::slice_to_vec(x.as_str().as_bytes());
                write_uvarint(self.data, utf8.len() as u64);
                self.data.append(&mut utf8);
            },
            Primitive::Enum(x) => {
                write_varint(self.data, x);
            },
        }
        self.data.len() - begin
    }
}

} // verus!
