//! The data structures which describe record encodings. They drive `Encoder`s
//! and `Decoder`s.

use vstd::prelude::*;

verus! {

/// The type of one field element.
#[derive(Clone, Copy, Debug, PartialEq, Eq, Structural)]
pub enum Type {
    Int8,
    Int16,
    Int32,
    Int64,
    UInt8,
    UInt16,
    UInt32,
    UInt64,
    Fixed32,
    Fixed64,
    Float32,
    Float64,
    Bytes,
    String,
    Bool,
    Enum,
    /// A nested record. `index` selects its encoding in the `depends` list of
    /// the `CompleteEncoding` in use.
    Record { index: usize },
}

/// The first type code that denotes a record rather than a primitive.
pub const FIRST_RECORD_CODE: usize = 16;

/// The type that a numeric type code stands for: the sixteen primitive types
/// take the codes 0 to 15 in declaration order, and every larger code is a
/// record whose dependency index is the code minus sixteen.
pub open spec fn type_of_code(x: usize) -> Type {
    if x == 0 {
        Type::Int8
    } else if x == 1 {
        Type::Int16
    } else if x == 2 {
        Type::Int32
    } else if x == 3 {
        Type::Int64
    } else if x == 4 {
        Type::UInt8
    } else if x == 5 {
        Type::UInt16
    } else if x == 6 {
        Type::UInt32
    } else if x == 7 {
        Type::UInt64
    } else if x == 8 {
        Type::Fixed32
    } else if x == 9 {
        Type::Fixed64
    } else if x == 10 {
        Type::Float32
    } else if x == 11 {
        Type::Float64
    } else if x == 12 {
        Type::Bytes
    } else if x == 13 {
        Type::String
    } else if x == 14 {
        Type::Bool
    } else if x == 15 {
        Type::Enum
    } else {
        Type::Record { index: (x - FIRST_RECORD_CODE) as usize }
    }
}

impl Type {
    /// Decodes a numeric type code.
    pub fn from_usize(x: usize) -> (t: Type)
        ensures
            t == type_of_code(x),
    {
        match x {
            0 => Type::Int8,
            1 => Type::Int16,
            2 => Type::Int32,
            3 => Type::Int64,
            4 => Type::UInt8,
            5 => Type::UInt16,
            6 => Type::UInt32,
            7 => Type::UInt64,
            8 => Type::Fixed32,
            9 => Type::Fixed64,
            10 => Type::Float32,
            11 => Type::Float64,
            12 => Type::Bytes,
            13 => Type::String,
            14 => Type::Bool,
            15 => Type::Enum,
            xx => Type::Record { index: xx - FIRST_RECORD_CODE },
        }
    }
}

/// Identifies a field within its record. Zero is reserved: on the wire it ends
/// a record.
#[derive(Clone, Copy, Debug, PartialEq, Eq, PartialOrd, Ord, Hash, Structural)]
pub struct FieldID(pub u64);

/// The multiplicity of a field. A `Required` field has exactly one element, an
/// `Optional` field has none or one, and a `Repeated` field has any number.
#[derive(Clone, Copy, Debug, PartialEq, Eq, Structural)]
pub enum Quantifier {
    Required,
    Optional,
    Repeated,
}

/// The encoding of one field.
#[derive(Clone, Debug, PartialEq, Eq)]
pub struct FieldEncoding {
    /// Integer id of this field within its containing record.
    pub id: FieldID,
    /// Name of this field; it is not used in the encoding.
    pub name: String,
    /// Is this field required, optional or repeated?
    pub quant: Quantifier,
    /// Type of this field's elements.
    pub typ: Type,
    /// For an array field, the product of all its dimensions: a field declared
    /// as a 3 by 3 matrix has `Some(9)`. `None` for a field that is no array.
    pub bounds: Option<usize>,
}

/// Ids ascend from each field to the next (equal ids may be neighbours).
pub open spec fn ascending(fields: Seq<FieldEncoding>) -> bool {
    forall|i: int, j: int| 0 <= i < j < fields.len() ==> fields[i].id.0 <= fields[j].id.0
}

/// Ids strictly ascend from each field to the next, so none occurs twice.
pub open spec fn strictly_ascending(fields: Seq<FieldEncoding>) -> bool {
    forall|i: int, j: int| 0 <= i < j < fields.len() ==> fields[i].id.0 < fields[j].id.0
}

/// The fields of `fields` whose id is `id`, in the order in which they stand.
pub open spec fn with_id(fields: Seq<FieldEncoding>, id: u64) -> Seq<FieldEncoding> {
    fields.filter(|f: FieldEncoding| f.id.0 == id)
}

/// The encoding of one record type.
#[derive(Clone, Debug, PartialEq, Eq)]
pub struct RecordEncoding {
    /// Name of the record type; it is not used in the encoding.
    pub name: String,
    /// Required fields of this record type, sorted by id.
    pub req_fields: Vec<FieldEncoding>,
    /// Optional and repeated fields of this record type, sorted by id.
    pub opt_rep_fields: Vec<FieldEncoding>,
}

impl RecordEncoding {
    /// The invariants of a record encoding: required fields are all
    /// `Required`, the others are all `Optional` or `Repeated`, both lists
    /// strictly ascend by id, no id is zero, and no id stands in both lists.
    pub open spec fn wf(&self) -> bool {
        &&& forall|i: int|
            0 <= i < self.req_fields@.len() ==> {
                &&& (#[trigger] self.req_fields@[i]).quant == Quantifier::Required
                &&& self.req_fields@[i].id.0 != 0
            }
        &&& forall|i: int|
            0 <= i < self.opt_rep_fields@.len() ==> {
                &&& (#[trigger] self.opt_rep_fields@[i]).quant != Quantifier::Required
                &&& self.opt_rep_fields@[i].id.0 != 0
            }
        &&& strictly_ascending(self.req_fields@)
        &&& strictly_ascending(self.opt_rep_fields@)
        &&& forall|i: int, j: int|
            0 <= i < self.req_fields@.len() && 0 <= j < self.opt_rep_fields@.len() ==> (
            #[trigger] self.req_fields@[i]).id != (#[trigger] self.opt_rep_fields@[j]).id
    }

    /// Every record-typed field names a dependency below `n_deps`.
    pub open spec fn deps_in_range(&self, n_deps: int) -> bool {
        &&& forall|i: int|
            0 <= i < self.req_fields@.len() ==> (
            (#[trigger] self.req_fields@[i]).typ matches Type::Record { index } ==> index < n_deps)
        &&& forall|i: int|
            0 <= i < self.opt_rep_fields@.len() ==> (
            (#[trigger] self.opt_rep_fields@[i]).typ matches Type::Record { index } ==> index
                < n_deps)
    }

    /// Sorts both field lists by id. Fields with equal ids keep their order.
    pub fn sort_fields(&mut self)
        ensures
            ascending(final(self).req_fields@),
            ascending(final(self).opt_rep_fields@),
            forall|id: u64| #[trigger]
                with_id(final(self).req_fields@, id) == with_id(old(self).req_fields@, id),
            forall|id: u64| #[trigger]
                with_id(final(self).opt_rep_fields@, id) == with_id(
                    old(self).opt_rep_fields@,
                    id,
                ),
            final(self).name == old(self).name,
    {
        sort_by_id(&mut self.req_fields);
        sort_by_id(&mut self.opt_rep_fields);
    }
}

/// Sorts `fields` by id with `slice::sort_by` of the standard library. That
/// sort is stable: the result ascends by id, and for each id the fields that
/// carry it are the same as before and stand in the same order.
#[verifier::external_body]
fn sort_by_id(fields: &mut Vec<FieldEncoding>)
    ensures
        ascending(final(fields)@),
        forall|id: u64| #[trigger] with_id(final(fields)@, id) == with_id(old(fields)@, id),
{
    fields.sort_by(|a, b| a.id.0.cmp(&b.id.0));
}

/// Everything needed to encode or decode one record type: its own encoding
/// and that of every record type that it can contain.
#[derive(Clone, Debug, PartialEq, Eq)]
pub struct CompleteEncoding {
    /// The record type that this `CompleteEncoding` describes.
    pub target: RecordEncoding,
    /// Encodings of all dependencies of `target`. A field of type
    /// `Record { index }` is encoded by `depends[index]`.
    pub depends: Vec<RecordEncoding>,
}

impl CompleteEncoding {
    /// The target and every dependency are well formed, and every record-typed
    /// field names a dependency that exists.
    pub open spec fn wf(&self) -> bool {
        &&& self.target.wf()
        &&& self.target.deps_in_range(self.depends@.len() as int)
        &&& forall|k: int|
            0 <= k < self.depends@.len() ==> {
                &&& (#[trigger] self.depends@[k]).wf()
                &&& self.depends@[k].deps_in_range(self.depends@.len() as int)
            }
    }

    /// Sorts the field lists of the target and of every dependency by id.
    /// Fields with equal ids keep their order.
    pub fn sort_fields(&mut self)
        ensures
            sorted_from(old(self).target, final(self).target),
            final(self).depends@.len() == old(self).depends@.len(),
            forall|k: int|
                0 <= k < old(self).depends@.len() ==> sorted_from(
                    old(self).depends@[k],
                    #[trigger] final(self).depends@[k],
                ),
    {
        self.target.sort_fields();
        let n: usize = self.depends.len();
        let mut k: usize = 0;
        while k < n
            invariant
                k <= n,
                n == self.depends@.len(),
                n == old(self).depends@.len(),
                sorted_from(old(self).target, self.target),
                forall|j: int|
                    0 <= j < k ==> sorted_from(old(self).depends@[j], #[trigger] self.depends@[j]),
                forall|j: int| k <= j < n ==> self.depends@[j] == old(self).depends@[j],
            decreases n - k,
        {
            self.depends[k].sort_fields();
            k += 1;
        }
    }
}

/// `after` is `before` with both field lists sorted by id, equal ids in their
/// old order.
pub open spec fn sorted_from(before: RecordEncoding, after: RecordEncoding) -> bool {
    &&& after.name == before.name
    &&& ascending(after.req_fields@)
    &&& ascending(after.opt_rep_fields@)
    &&& forall|id: u64| #[trigger]
        with_id(after.req_fields@, id) == with_id(before.req_fields@, id)
    &&& forall|id: u64| #[trigger]
        with_id(after.opt_rep_fields@, id) == with_id(before.opt_rep_fields@, id)
}

/// The field `f` has this id, name, quantifier and type, and is no array.
pub open spec fn field_is(f: FieldEncoding, id: u64, name: Seq<char>, quant: Quantifier, typ: Type)
    -> bool {
    &&& f.id.0 == id
    &&& f.name@ == name
    &&& f.quant == quant
    &&& f.typ == typ
    &&& f.bounds is None
}

/// `enc` is the encoding of encodings: its target is the record type
/// `CompleteEncoding`, and its dependencies are `FieldEncoding` (index 0) and
/// `RecordEncoding` (index 1), field for field as this module declares them.
/// In it a quantifier and a type travel as enums, and an id and the array
/// bounds as unsigned 64-bit integers.
pub open spec fn describes_encodings(enc: CompleteEncoding) -> bool {
    let field = Type::Record { index: 0 };
    let record = Type::Record { index: 1 };
    let t = enc.target;
    let fe = enc.depends@[0];
    let re = enc.depends@[1];
    &&& enc.depends@.len() == 2
    &&& t.name@ == "CompleteEncoding"@
    &&& t.req_fields@.len() == 1
    &&& field_is(t.req_fields@[0], 1, "target"@, Quantifier::Required, record)
    &&& t.opt_rep_fields@.len() == 1
    &&& field_is(t.opt_rep_fields@[0], 2, "depends"@, Quantifier::Repeated, record)
    &&& fe.name@ == "FieldEncoding"@
    &&& fe.req_fields@.len() == 5
    &&& field_is(fe.req_fields@[0], 1, "id"@, Quantifier::Required, Type::UInt64)
    &&& field_is(fe.req_fields@[1], 2, "name"@, Quantifier::Required, Type::String)
    &&& field_is(fe.req_fields@[2], 3, "quant"@, Quantifier::Required, Type::Enum)
    &&& field_is(fe.req_fields@[3], 4, "typ"@, Quantifier::Required, Type::Enum)
    &&& field_is(fe.req_fields@[4], 5, "bounds"@, Quantifier::Required, Type::UInt64)
    &&& fe.opt_rep_fields@.len() == 0
    &&& re.name@ == "RecordEncoding"@
    &&& re.req_fields@.len() == 1
    &&& field_is(re.req_fields@[0], 1, "name"@, Quantifier::Required, Type::String)
    &&& re.opt_rep_fields@.len() == 2
    &&& field_is(re.opt_rep_fields@[0], 2, "req_fields"@, Quantifier::Repeated, field)
    &&& field_is(re.opt_rep_fields@[1], 3, "opt_rep_fields"@, Quantifier::Repeated, field)
}

/// A field that is no array.
fn scalar_field(id: u64, name: &str, quant: Quantifier, typ: Type) -> (f: FieldEncoding)
    ensures
        field_is(f, id, name@, quant, typ),
{
    FieldEncoding { id: FieldID(id), name: name.to_owned(), quant, typ, bounds: None }
}

/// Encodings of records are themselves records, so something has to say how
/// an encoding is encoded before the first one can be read. This is that
/// encoding, ready made.
pub fn complete_enc() -> (enc: CompleteEncoding)
    ensures
        describes_encodings(enc),
        enc.wf(),
{
    let field_encoding_typ = Type::Record { index: 0 };
    let record_encoding_typ = Type::Record { index: 1 };
    let mut target_req: Vec<FieldEncoding> = Vec::new();
    target_req.push(scalar_field(1, "target", Quantifier::Required, record_encoding_typ));
    let mut target_opt_rep: Vec<FieldEncoding> = Vec::new();
    target_opt_rep.push(scalar_field(2, "depends", Quantifier::Repeated, record_encoding_typ));
    let target = RecordEncoding {
        name: "CompleteEncoding".to_owned(),
        req_fields: target_req,
        opt_rep_fields: target_opt_rep,
    };
    let mut field_req: Vec<FieldEncoding> = Vec::new();
    field_req.push(scalar_field(1, "id", Quantifier::Required, Type::UInt64));
    field_req.push(scalar_field(2, "name", Quantifier::Required, Type::String));
    field_req.push(scalar_field(3, "quant", Quantifier::Required, Type::Enum));
    field_req.push(scalar_field(4, "typ", Quantifier::Required, Type::Enum));
    field_req.push(scalar_field(5, "bounds", Quantifier::Required, Type::UInt64));
    let field = RecordEncoding {
        name: "FieldEncoding".to_owned(),
        req_fields: field_req,
        opt_rep_fields: Vec::new(),
    };
    let mut record_req: Vec<FieldEncoding> = Vec::new();
    record_req.push(scalar_field(1, "name", Quantifier::Required, Type::String));
    let mut record_opt_rep: Vec<FieldEncoding> = Vec::new();
    record_opt_rep.push(scalar_field(2, "req_fields", Quantifier::Repeated, field_encoding_typ));
    record_opt_rep.push(
        scalar_field(3, "opt_rep_fields", Quantifier::Repeated, field_encoding_typ),
    );
    let record = RecordEncoding {
        name: "RecordEncoding".to_owned(),
        req_fields: record_req,
        opt_rep_fields: record_opt_rep,
    };
    let mut depends: Vec<RecordEncoding> = Vec::new();
    depends.push(field);
    depends.push(record);
    CompleteEncoding { target, depends }
}

} // verus!
