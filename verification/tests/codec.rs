use rex::decoder::{self, decode_from, Decodable, Decoder, Reader};
use rex::encoder::{self, encode_to, Encodable, Encoder};
use rex::encoding::{
    complete_enc, CompleteEncoding, FieldEncoding, FieldID, Quantifier, RecordEncoding, Type,
};
use rex::primitive::Primitive;

#[derive(Clone, Debug, PartialEq)]
enum Item {
    P(Primitive),
    R(Obj),
}

/// A record held as a list of fields, each a list of elements.
#[derive(Clone, Debug, PartialEq, Default)]
struct Obj {
    fields: Vec<(u64, Vec<Item>)>,
}

impl Obj {
    fn with(mut self, id: u64, items: Vec<Item>) -> Obj {
        self.fields.push((id, items));
        self
    }

    fn items(&self, id: u64) -> Option<&Vec<Item>> {
        self.fields.iter().find(|f| f.0 == id).map(|f| &f.1)
    }

    fn slot(&mut self, id: u64, idx: usize) -> &mut Item {
        if self.items(id).is_none() {
            self.fields.push((id, Vec::new()));
        }
        let items = &mut self.fields.iter_mut().find(|f| f.0 == id).unwrap().1;
        while items.len() <= idx {
            items.push(Item::P(Primitive::Bool(false)));
        }
        &mut items[idx]
    }
}

impl Encodable for Obj {
    fn get_primitive(&self, id: FieldID, idx: usize) -> Result<Primitive, encoder::Error> {
        match self.items(id.0).and_then(|v| v.get(idx)) {
            Some(Item::P(p)) => Ok(p.clone()),
            _ => Err(encoder::Error::IoError),
        }
    }

    fn encode_record(&self, e: Encoder, id: FieldID, idx: usize) -> Result<usize, encoder::Error> {
        match self.items(id.0).and_then(|v| v.get(idx)) {
            Some(Item::R(o)) => {
                let mut e = e;
                e.encode(o)
            }
            _ => Err(encoder::Error::IoError),
        }
    }

    fn count_field(&self, id: FieldID) -> Result<usize, encoder::Error> {
        if id.0 == 666 {
            return Err(encoder::Error::IoError);
        }
        Ok(self.items(id.0).map(|v| v.len()).unwrap_or(0))
    }
}

#[derive(Clone, Debug, PartialEq)]
enum Call {
    Put(u64, usize, Primitive),
    Alloc(u64, usize),
    Record(u64, usize),
}

/// Takes what a decoder hands over, and keeps a log of the calls.
#[derive(Default)]
struct Sink {
    obj: Obj,
    log: Vec<Call>,
    unwanted: Vec<u64>,
    refuse_set: bool,
    ignore_records: bool,
}

impl Decodable for Sink {
    type Model = ();

    fn set_primitive(
        &mut self,
        id: FieldID,
        idx: usize,
        prim: Primitive,
    ) -> Result<(), decoder::Error> {
        if self.refuse_set {
            return Err(decoder::Error::FieldTypeMismatch);
        }
        self.log.push(Call::Put(id.0, idx, prim.clone()));
        *self.obj.slot(id.0, idx) = Item::P(prim);
        Ok(())
    }

    fn decode_record(&mut self, d: Decoder, id: FieldID, idx: usize) -> Result<(), decoder::Error> {
        self.log.push(Call::Record(id.0, idx));
        if self.ignore_records {
            return Ok(());
        }
        let mut child = Sink::default();
        let mut d = d;
        d.decode(&mut child)?;
        self.log.extend(child.log);
        *self.obj.slot(id.0, idx) = Item::R(child.obj);
        Ok(())
    }

    fn alloc_field(&mut self, id: FieldID, count: usize) -> Result<bool, decoder::Error> {
        if id.0 == 666 {
            return Err(decoder::Error::IoError);
        }
        self.log.push(Call::Alloc(id.0, count));
        Ok(!self.unwanted.contains(&id.0))
    }
}

fn field(id: u64, quant: Quantifier, typ: Type, bounds: Option<usize>) -> FieldEncoding {
    FieldEncoding { id: FieldID(id), name: format!("f{}", id), quant, typ, bounds }
}

fn req(id: u64, typ: Type) -> FieldEncoding {
    field(id, Quantifier::Required, typ, None)
}

fn opt(id: u64, typ: Type) -> FieldEncoding {
    field(id, Quantifier::Optional, typ, None)
}

fn rep(id: u64, typ: Type) -> FieldEncoding {
    field(id, Quantifier::Repeated, typ, None)
}

fn record(req: Vec<FieldEncoding>, opt_rep: Vec<FieldEncoding>) -> RecordEncoding {
    RecordEncoding { name: String::from("rec"), req_fields: req, opt_rep_fields: opt_rep }
}

fn schema(req: Vec<FieldEncoding>, opt_rep: Vec<FieldEncoding>) -> CompleteEncoding {
    CompleteEncoding { target: record(req, opt_rep), depends: Vec::new() }
}

fn encode(enc: &CompleteEncoding, obj: &Obj) -> Result<Vec<u8>, encoder::Error> {
    let mut w = Vec::new();
    let n = encode_to(enc, &mut w, obj)?;
    assert_eq!(n, w.len());
    Ok(w)
}

fn decode(enc: &CompleteEncoding, bytes: &[u8]) -> Result<(Sink, usize), decoder::Error> {
    let mut sink = Sink::default();
    let mut r = Reader::new(bytes);
    decode_from(enc, &mut r, &mut sink)?;
    Ok((sink, r.pos))
}

fn u32s(xs: &[u32]) -> Vec<Item> {
    xs.iter().map(|x| Item::P(Primitive::UInt32(*x))).collect()
}

#[test]
fn empty_record() {
    let enc = schema(vec![], vec![]);
    assert_eq!(encode(&enc, &Obj::default()), Ok(vec![0x00]));
    let any = Obj::default().with(3, u32s(&[1, 2]));
    assert_eq!(encode(&enc, &any), Ok(vec![0x00]));
    let (sink, pos) = decode(&enc, &[0x00]).unwrap();
    assert_eq!(pos, 1);
    assert!(sink.log.is_empty());
}

#[test]
fn single_required_uint32() {
    let enc = schema(vec![field(1, Quantifier::Required, Type::UInt32, None)], vec![]);
    let obj = Obj::default().with(1, u32s(&[300]));
    assert_eq!(encode(&enc, &obj), Ok(vec![0xAC, 0x02, 0x00]));
    let (sink, pos) = decode(&enc, &[0xAC, 0x02, 0x00]).unwrap();
    assert_eq!(pos, 3);
    assert_eq!(sink.log, vec![Call::Put(1, 0, Primitive::UInt32(300))]);
    assert_eq!(sink.obj, obj);
}

#[test]
fn optional_string_present() {
    let enc = schema(vec![], vec![field(5, Quantifier::Optional, Type::String, None)]);
    let obj = Obj::default().with(5, vec![Item::P(Primitive::String(String::from("hi")))]);
    let wire = vec![0x05, 0x03, 0x02, 0x68, 0x69, 0x00];
    assert_eq!(encode(&enc, &obj), Ok(wire.clone()));
    let (sink, pos) = decode(&enc, &wire).unwrap();
    assert_eq!(pos, 6);
    assert_eq!(
        sink.log,
        vec![Call::Alloc(5, 1), Call::Put(5, 0, Primitive::String(String::from("hi")))]
    );
}

#[test]
fn optional_absent_emits_nothing() {
    let enc = schema(vec![], vec![field(5, Quantifier::Optional, Type::String, None)]);
    assert_eq!(encode(&enc, &Obj::default()), Ok(vec![0x00]));
}

#[test]
fn optional_with_more_than_one_element_sends_the_first() {
    let enc = schema(vec![], vec![field(5, Quantifier::Optional, Type::UInt32, None)]);
    let obj = Obj::default().with(5, u32s(&[7, 8]));
    assert_eq!(encode(&enc, &obj), Ok(vec![0x05, 0x01, 0x07, 0x00]));
}

#[test]
fn repeated_int32() {
    let enc = schema(vec![], vec![field(7, Quantifier::Repeated, Type::Int32, None)]);
    let obj = Obj::default().with(
        7,
        vec![
            Item::P(Primitive::Int32(-1)),
            Item::P(Primitive::Int32(0)),
            Item::P(Primitive::Int32(1)),
        ],
    );
    let wire = vec![0x07, 0x04, 0x03, 0x01, 0x00, 0x02, 0x00];
    assert_eq!(encode(&enc, &obj), Ok(wire.clone()));
    let (sink, pos) = decode(&enc, &wire).unwrap();
    assert_eq!(pos, 7);
    assert_eq!(
        sink.log,
        vec![
            Call::Alloc(7, 3),
            Call::Put(7, 0, Primitive::Int32(-1)),
            Call::Put(7, 1, Primitive::Int32(0)),
            Call::Put(7, 2, Primitive::Int32(1)),
        ]
    );
    assert_eq!(sink.obj, obj);
}

#[test]
fn unknown_optional_skipped() {
    let enc = schema(vec![], vec![]);
    let wire = vec![0x05, 0x03, 0x02, 0x68, 0x69, 0x00];
    let (sink, pos) = decode(&enc, &wire).unwrap();
    assert_eq!(pos, 6);
    assert!(sink.log.is_empty());
}

#[test]
fn bool_round_trip() {
    let enc = schema(vec![field(1, Quantifier::Required, Type::Bool, None)], vec![]);
    let yes = Obj::default().with(1, vec![Item::P(Primitive::Bool(true))]);
    let no = Obj::default().with(1, vec![Item::P(Primitive::Bool(false))]);
    assert_eq!(encode(&enc, &yes), Ok(vec![0xFF, 0x00]));
    assert_eq!(encode(&enc, &no), Ok(vec![0x00, 0x00]));
    assert_eq!(decode(&enc, &[0xFF, 0x00]).unwrap().0.obj, yes);
    assert_eq!(decode(&enc, &[0x00, 0x00]).unwrap().0.obj, no);
    for b in 1u8..0xFF {
        assert!(matches!(decode(&enc, &[b, 0x00]), Err(decoder::Error::BadBool)));
    }
}

#[test]
fn skip_unknown_consumes_exactly_the_size_prefix() {
    let enc = schema(
        vec![],
        vec![
            opt(2, Type::UInt8),
            opt(9, Type::UInt8),
        ],
    );
    // field 2, unknown field 4 with five bytes, field 9, unknown field 12, end, then a tail
    let wire = vec![
        0x02, 0x01, 0x11, 0x04, 0x05, 0xFF, 0xFF, 0x00, 0x80, 0x01, 0x09, 0x01, 0x22, 0x0C, 0x00,
        0x00, 0x77,
    ];
    let (sink, pos) = decode(&enc, &wire).unwrap();
    assert_eq!(pos, 16);
    assert_eq!(
        sink.log,
        vec![
            Call::Alloc(2, 1),
            Call::Put(2, 0, Primitive::UInt8(0x11)),
            Call::Alloc(9, 1),
            Call::Put(9, 0, Primitive::UInt8(0x22)),
        ]
    );
}

#[test]
fn skip_with_too_few_bytes_is_eof() {
    let enc = schema(vec![], vec![]);
    assert!(matches!(decode(&enc, &[0x04, 0x05, 1, 2, 0x00]), Err(decoder::Error::EOF)));
    assert!(matches!(decode(&enc, &[0x04]), Err(decoder::Error::EOF)));
    assert!(matches!(decode(&enc, &[]), Err(decoder::Error::EOF)));
}

#[test]
fn decoding_stops_at_the_terminator() {
    let enc = schema(vec![], vec![opt(2, Type::UInt8)]);
    let wire = vec![0x00, 0x02, 0x01, 0x11, 0x00];
    let (sink, pos) = decode(&enc, &wire).unwrap();
    assert_eq!(pos, 1);
    assert!(sink.log.is_empty());
}

#[test]
fn every_record_ends_with_zero() {
    let enc = schema(
        vec![field(1, Quantifier::Required, Type::UInt32, None)],
        vec![field(2, Quantifier::Repeated, Type::UInt32, None)],
    );
    let obj = Obj::default().with(1, u32s(&[5])).with(2, u32s(&[1, 2, 3]));
    let wire = encode(&enc, &obj).unwrap();
    assert_eq!(wire.last(), Some(&0x00));
    assert_eq!(wire, vec![0x05, 0x02, 0x04, 0x03, 0x01, 0x02, 0x03, 0x00]);
}

#[test]
fn tagged_fields_go_out_in_ascending_order() {
    let enc = schema(
        vec![],
        vec![
            opt(2, Type::UInt8),
            rep(3, Type::UInt8),
            opt(200, Type::UInt8),
        ],
    );
    // the object holds its fields in another order
    let obj = Obj::default()
        .with(200, vec![Item::P(Primitive::UInt8(3))])
        .with(3, vec![Item::P(Primitive::UInt8(2))])
        .with(2, vec![Item::P(Primitive::UInt8(1))]);
    let wire = encode(&enc, &obj).unwrap();
    assert_eq!(
        wire,
        vec![0x02, 0x01, 0x01, 0x03, 0x02, 0x01, 0x02, 0xC8, 0x01, 0x01, 0x03, 0x00]
    );
    let (sink, _) = decode(&enc, &wire).unwrap();
    assert_eq!(
        sink.log,
        vec![
            Call::Alloc(2, 1),
            Call::Put(2, 0, Primitive::UInt8(1)),
            Call::Alloc(3, 1),
            Call::Put(3, 0, Primitive::UInt8(2)),
            Call::Alloc(200, 1),
            Call::Put(200, 0, Primitive::UInt8(3)),
        ]
    );
}

#[test]
fn bounded_array_flattening() {
    let enc = schema(
        vec![],
        vec![
            field(4, Quantifier::Repeated, Type::UInt8, Some(9)),
            opt(6, Type::UInt8),
        ],
    );
    let cells: Vec<Item> = (0u8..18).map(|x| Item::P(Primitive::UInt8(x))).collect();
    let obj = Obj { fields: vec![(4, cells), (6, vec![Item::P(Primitive::UInt8(0xAA))])] };
    // count_field counts the elements; the field holds two arrays of nine
    struct Two(Obj);
    impl Encodable for Two {
        fn get_primitive(&self, id: FieldID, idx: usize) -> Result<Primitive, encoder::Error> {
            self.0.get_primitive(id, idx)
        }
        fn encode_record(
            &self,
            e: Encoder,
            id: FieldID,
            idx: usize,
        ) -> Result<usize, encoder::Error> {
            self.0.encode_record(e, id, idx)
        }
        fn count_field(&self, id: FieldID) -> Result<usize, encoder::Error> {
            if id.0 == 4 {
                Ok(2)
            } else {
                self.0.count_field(id)
            }
        }
    }
    let mut wire = Vec::new();
    let n = encode_to(&enc, &mut wire, &Two(obj.clone())).unwrap();
    assert_eq!(n, wire.len());
    let mut want = vec![0x04, 19, 0x02];
    want.extend(0u8..18);
    want.extend([0x06, 0x01, 0xAA, 0x00]);
    assert_eq!(wire, want);
    let (sink, pos) = decode(&enc, &wire).unwrap();
    assert_eq!(pos, wire.len());
    assert_eq!(sink.log.len(), 1 + 18 + 2);
    assert_eq!(sink.log[0], Call::Alloc(4, 2));
    for i in 0..18usize {
        assert_eq!(sink.log[1 + i], Call::Put(4, i, Primitive::UInt8(i as u8)));
    }
    assert_eq!(sink.log[19], Call::Alloc(6, 1));
    assert_eq!(sink.log[20], Call::Put(6, 0, Primitive::UInt8(0xAA)));
    assert_eq!(sink.obj, obj);
}

#[test]
fn required_bounded_array() {
    let enc = schema(vec![field(1, Quantifier::Required, Type::UInt8, Some(3))], vec![]);
    let obj = Obj::default().with(
        1,
        vec![
            Item::P(Primitive::UInt8(7)),
            Item::P(Primitive::UInt8(8)),
            Item::P(Primitive::UInt8(9)),
        ],
    );
    assert_eq!(encode(&enc, &obj), Ok(vec![7, 8, 9, 0x00]));
    let (sink, _) = decode(&enc, &[7, 8, 9, 0x00]).unwrap();
    assert_eq!(sink.obj, obj);
    let none = schema(vec![field(1, Quantifier::Required, Type::UInt8, Some(0))], vec![]);
    assert_eq!(encode(&none, &Obj::default()), Ok(vec![0x00]));
    assert!(decode(&none, &[0x00]).unwrap().0.log.is_empty());
}

#[test]
fn huge_bounds_and_counts_run_out_of_bytes() {
    let enc = schema(
        vec![],
        vec![field(4, Quantifier::Repeated, Type::UInt8, Some(usize::MAX))],
    );
    // two arrays are announced, but the bytes end in the first
    assert!(matches!(decode(&enc, &[0x04, 0x02, 0x02]), Err(decoder::Error::EOF)));
    let mut wire = vec![0x04, 0x7F, 0x02];
    wire.extend([1u8; 200]);
    assert!(matches!(decode(&enc, &wire), Err(decoder::Error::EOF)));
    // a count of 2^64 - 1 arrays of two elements
    let small = schema(vec![], vec![field(4, Quantifier::Repeated, Type::UInt8, Some(2))]);
    let mut wire = vec![0x04, 0x0B];
    wire.extend([0xFF, 0xFF, 0xFF, 0xFF, 0xFF, 0xFF, 0xFF, 0xFF, 0xFF, 0x01]);
    wire.extend([1u8; 64]);
    assert!(matches!(decode(&small, &wire), Err(decoder::Error::EOF)));
}

#[test]
fn nested_records_round_trip() {
    let inner = record(
        vec![field(1, Quantifier::Required, Type::Int64, None)],
        vec![field(2, Quantifier::Repeated, Type::Record { index: 0 }, None)],
    );
    let enc = CompleteEncoding {
        target: record(
            vec![req(1, Type::Record { index: 0 })],
            vec![field(3, Quantifier::Optional, Type::String, None)],
        ),
        depends: vec![inner],
    };
    let leaf = |x: i64| Obj::default().with(1, vec![Item::P(Primitive::Int64(x))]);
    let tree = Obj::default()
        .with(1, vec![Item::P(Primitive::Int64(-5))])
        .with(2, vec![Item::R(leaf(1)), Item::R(leaf(2).with(2, vec![Item::R(leaf(3))]))]);
    let obj = Obj::default()
        .with(1, vec![Item::R(tree)])
        .with(3, vec![Item::P(Primitive::String(String::from("x")))]);
    let wire = encode(&enc, &obj).unwrap();
    assert_eq!(
        wire,
        vec![
            0x09, // -5
            0x02, 0x0A, 0x02, // field 2, size, count
            0x02, 0x00, // leaf 1
            0x04, 0x02, 0x03, 0x01, 0x06, 0x00, 0x00, // leaf 2 holding leaf 3
            0x00, // end of the tree
            0x03, 0x02, 0x01, 0x78, // field 3
            0x00,
        ]
    );
    let (sink, pos) = decode(&enc, &wire).unwrap();
    assert_eq!(pos, wire.len());
    assert_eq!(sink.obj, obj);
}

#[test]
fn round_trip_of_every_primitive_type() {
    let prims = vec![
        (Type::UInt8, Primitive::UInt8(0xFE)),
        (Type::UInt16, Primitive::UInt16(0xFFFE)),
        (Type::UInt32, Primitive::UInt32(u32::MAX)),
        (Type::UInt64, Primitive::UInt64(u64::MAX)),
        (Type::Int8, Primitive::Int8(i8::MIN)),
        (Type::Int16, Primitive::Int16(i16::MIN)),
        (Type::Int32, Primitive::Int32(i32::MIN)),
        (Type::Int64, Primitive::Int64(i64::MIN)),
        (Type::Fixed32, Primitive::Fixed32(0xDEAD_BEEF)),
        (Type::Fixed64, Primitive::Fixed64(0xDEAD_BEEF_0BAD_F00D)),
        (Type::Float32, Primitive::Float32(3.5f32.to_bits())),
        (Type::Float64, Primitive::Float64(f64::NAN.to_bits())),
        (Type::Bool, Primitive::Bool(true)),
        (Type::Bytes, Primitive::Bytes(vec![0, 1, 2, 0xFF])),
        (Type::String, Primitive::String(String::from("gr\u{FC}\u{DF}e \u{1F600}"))),
        (Type::Enum, Primitive::Enum(-7)),
    ];
    let mut req = Vec::new();
    let mut opt = Vec::new();
    let mut obj = Obj::default();
    for (i, (t, p)) in prims.iter().enumerate() {
        let id = 1 + i as u64;
        req.push(field(id, Quantifier::Required, *t, None));
        opt.push(field(100 + id, Quantifier::Repeated, *t, None));
        obj = obj.with(id, vec![Item::P(p.clone())]);
        obj = obj.with(100 + id, vec![Item::P(p.clone()), Item::P(p.clone())]);
    }
    let enc = schema(req, opt);
    let wire = encode(&enc, &obj).unwrap();
    let (sink, pos) = decode(&enc, &wire).unwrap();
    assert_eq!(pos, wire.len());
    let mut got = sink.obj.clone();
    got.fields.sort_by_key(|f| f.0);
    let mut want = obj.clone();
    want.fields.sort_by_key(|f| f.0);
    assert_eq!(got, want);
}

#[test]
fn unwanted_fields_are_passed_over() {
    let enc = schema(
        vec![],
        vec![
            field(2, Quantifier::Optional, Type::String, None),
            field(3, Quantifier::Repeated, Type::UInt32, None),
            opt(4, Type::UInt8),
        ],
    );
    let obj = Obj::default()
        .with(2, vec![Item::P(Primitive::String(String::from("skip me")))])
        .with(3, u32s(&[300, 1, 70000]))
        .with(4, vec![Item::P(Primitive::UInt8(9))]);
    let wire = encode(&enc, &obj).unwrap();
    let mut sink = Sink { unwanted: vec![2, 3], ..Sink::default() };
    let mut r = Reader::new(&wire);
    decode_from(&enc, &mut r, &mut sink).unwrap();
    assert_eq!(r.pos, wire.len());
    assert_eq!(
        sink.log,
        vec![
            Call::Alloc(2, 1),
            Call::Alloc(3, 3),
            Call::Alloc(4, 1),
            Call::Put(4, 0, Primitive::UInt8(9)),
        ]
    );
}

#[test]
fn unwanted_field_with_a_lying_size_prefix_is_eof() {
    let enc = schema(vec![], vec![field(3, Quantifier::Repeated, Type::UInt32, None)]);
    // the size prefix says 0, but the count alone takes a byte
    let mut sink = Sink { unwanted: vec![3], ..Sink::default() };
    let wire = [0x03u8, 0x00, 0x01, 0x05, 0x00];
    let mut r = Reader::new(&wire);
    assert_eq!(decode_from(&enc, &mut r, &mut sink), Err(decoder::Error::EOF));
    // the size prefix reaches past the end
    let mut sink = Sink { unwanted: vec![3], ..Sink::default() };
    let wire = [0x03u8, 0x09, 0x01, 0x05, 0x00];
    let mut r = Reader::new(&wire);
    assert_eq!(decode_from(&enc, &mut r, &mut sink), Err(decoder::Error::EOF));
}

#[test]
fn encoder_errors() {
    let wrong = schema(vec![req(1, Type::UInt8)], vec![]);
    let obj = Obj::default().with(1, u32s(&[1]));
    assert_eq!(encode(&wrong, &obj), Err(encoder::Error::FieldTypeMismatch));
    let opt_in_req = schema(vec![field(1, Quantifier::Optional, Type::UInt32, None)], vec![]);
    assert_eq!(encode(&opt_in_req, &obj), Err(encoder::Error::EncodingInvalid));
    let rep_in_req = schema(vec![field(1, Quantifier::Repeated, Type::UInt32, None)], vec![]);
    assert_eq!(encode(&rep_in_req, &obj), Err(encoder::Error::EncodingInvalid));
    let req_in_opt = schema(vec![], vec![field(1, Quantifier::Required, Type::UInt32, None)]);
    assert_eq!(encode(&req_in_opt, &obj), Err(encoder::Error::EncodingInvalid));
    let no_dep = schema(vec![req(1, Type::Record { index: 0 })], vec![]);
    assert_eq!(encode(&no_dep, &obj), Err(encoder::Error::EncodingInvalid));
    let missing = schema(vec![field(2, Quantifier::Required, Type::UInt32, None)], vec![]);
    assert_eq!(encode(&missing, &obj), Err(encoder::Error::IoError));
    let count_fails = schema(vec![], vec![field(666, Quantifier::Optional, Type::UInt32, None)]);
    assert_eq!(encode(&count_fails, &obj), Err(encoder::Error::IoError));
    let huge = schema(vec![], vec![field(1, Quantifier::Repeated, Type::UInt32, Some(usize::MAX))]);
    let two = Obj::default().with(1, u32s(&[1, 2]));
    assert_eq!(encode(&huge, &two), Err(encoder::Error::IoError));
}

#[test]
fn decoder_errors() {
    let req_in_opt = schema(vec![], vec![req(1, Type::UInt8)]);
    let got = decode(&req_in_opt, &[0x01, 0x01, 0x07, 0x00]);
    assert!(matches!(got, Err(decoder::Error::EncodingInvalid)));
    let no_dep = schema(vec![req(1, Type::Record { index: 3 })], vec![]);
    assert!(matches!(decode(&no_dep, &[0x00, 0x00]), Err(decoder::Error::EncodingInvalid)));
    let text = schema(vec![field(1, Quantifier::Required, Type::String, None)], vec![]);
    assert!(matches!(decode(&text, &[0x01, 0xFF, 0x00]), Err(decoder::Error::Utf8Error(_))));
    assert!(matches!(decode(&text, &[0x04, 0x61]), Err(decoder::Error::EOF)));
    let byte = schema(vec![req(1, Type::UInt8)], vec![]);
    assert!(matches!(decode(&byte, &[0x07]), Err(decoder::Error::EOF)));
    let mut sink = Sink { refuse_set: true, ..Sink::default() };
    let mut r = Reader::new(&[0x07, 0x00]);
    assert_eq!(decode_from(&byte, &mut r, &mut sink), Err(decoder::Error::FieldTypeMismatch));
    let alloc_fails = schema(vec![], vec![opt(666, Type::UInt8)]);
    let got = decode(&alloc_fails, &[0x9A, 0x05, 0x01, 0x07, 0x00]);
    assert!(matches!(got, Err(decoder::Error::IoError)));
}

#[test]
fn decoder_frame_decodes_at_the_reader_position() {
    let enc = schema(vec![field(1, Quantifier::Required, Type::UInt32, None)], vec![]);
    let wire = [0xEE, 0xAC, 0x02, 0x00, 0x05, 0x00];
    let mut r = Reader { buf: &wire, pos: 1 };
    let mut first = Sink::default();
    {
        let mut d = Decoder { r: &mut r, rec: &enc.target, deps: &enc.depends };
        assert_eq!(d.decode(&mut first), Ok(()));
    }
    assert_eq!(r.pos, 4);
    assert_eq!(first.log, vec![Call::Put(1, 0, Primitive::UInt32(300))]);
    let mut second = Sink::default();
    assert_eq!(decode_from(&enc, &mut r, &mut second), Ok(()));
    assert_eq!(r.pos, 6);
    assert_eq!(second.log, vec![Call::Put(1, 0, Primitive::UInt32(5))]);
    let block = [0x02u8, 0xAA, 0xBB, 0x05, 0x01];
    let mut r = Reader::new(&block);
    {
        let mut d = Decoder { r: &mut r, rec: &enc.target, deps: &enc.depends };
        assert_eq!(d.skip_field(), Ok(()));
        assert_eq!(d.r.pos, 3);
        assert_eq!(d.skip_field(), Err(decoder::Error::EOF));
    }
}

#[test]
fn encoder_frame_appends_to_the_buffer() {
    let enc = schema(vec![field(1, Quantifier::Required, Type::UInt32, None)], vec![]);
    let obj = Obj::default().with(1, u32s(&[300]));
    let mut data = vec![0xEE];
    {
        let mut e = Encoder { rec: &enc.target, deps: &enc.depends, data: &mut data };
        assert_eq!(e.encode(&obj), Ok(3));
        assert_eq!(e.encode_primitive(Primitive::String(String::from("hi"))), 3);
        assert_eq!(e.encode_primitive(Primitive::Bytes(vec![1, 2, 3])), 4);
    }
    assert_eq!(data, vec![0xEE, 0xAC, 0x02, 0x00, 0x02, 0x68, 0x69, 0x03, 1, 2, 3]);
}

#[test]
fn size_prefix_of_a_long_payload() {
    let enc = schema(vec![], vec![field(1, Quantifier::Optional, Type::Bytes, None)]);
    let payload = vec![0x5Au8; 300];
    let obj = Obj::default().with(1, vec![Item::P(Primitive::Bytes(payload.clone()))]);
    let wire = encode(&enc, &obj).unwrap();
    // id, size prefix of 302 (two bytes), length of 300 (two bytes), payload, end
    assert_eq!(wire.len(), 1 + 2 + 2 + 300 + 1);
    assert_eq!(&wire[0..5], &[0x01, 0xAE, 0x02, 0xAC, 0x02]);
    let (sink, _) = decode(&enc, &wire).unwrap();
    assert_eq!(sink.obj, obj);
}

fn type_code(t: Type) -> i64 {
    match t {
        Type::Int8 => 0,
        Type::Int16 => 1,
        Type::Int32 => 2,
        Type::Int64 => 3,
        Type::UInt8 => 4,
        Type::UInt16 => 5,
        Type::UInt32 => 6,
        Type::UInt64 => 7,
        Type::Fixed32 => 8,
        Type::Fixed64 => 9,
        Type::Float32 => 10,
        Type::Float64 => 11,
        Type::Bytes => 12,
        Type::String => 13,
        Type::Bool => 14,
        Type::Enum => 15,
        Type::Record { index } => 16 + index as i64,
    }
}

fn field_to_obj(f: &FieldEncoding) -> Obj {
    let quant = match f.quant {
        Quantifier::Required => 0,
        Quantifier::Optional => 1,
        Quantifier::Repeated => 2,
    };
    Obj::default()
        .with(1, vec![Item::P(Primitive::UInt64(f.id.0))])
        .with(2, vec![Item::P(Primitive::String(f.name.clone()))])
        .with(3, vec![Item::P(Primitive::Enum(quant))])
        .with(4, vec![Item::P(Primitive::Enum(type_code(f.typ)))])
        .with(5, vec![Item::P(Primitive::UInt64(f.bounds.map(|b| b as u64 + 1).unwrap_or(0)))])
}

fn record_to_obj(r: &RecordEncoding) -> Obj {
    let mut o = Obj::default().with(1, vec![Item::P(Primitive::String(r.name.clone()))]);
    if !r.req_fields.is_empty() {
        o = o.with(2, r.req_fields.iter().map(|f| Item::R(field_to_obj(f))).collect());
    }
    if !r.opt_rep_fields.is_empty() {
        o = o.with(3, r.opt_rep_fields.iter().map(|f| Item::R(field_to_obj(f))).collect());
    }
    o
}

fn complete_to_obj(c: &CompleteEncoding) -> Obj {
    let mut o = Obj::default().with(1, vec![Item::R(record_to_obj(&c.target))]);
    if !c.depends.is_empty() {
        o = o.with(2, c.depends.iter().map(|r| Item::R(record_to_obj(r))).collect());
    }
    o
}

fn prim_of(o: &Obj, id: u64) -> Primitive {
    match &o.items(id).unwrap()[0] {
        Item::P(p) => p.clone(),
        Item::R(_) => panic!("record where a primitive should be"),
    }
}

fn obj_to_field(o: &Obj) -> FieldEncoding {
    let id = match prim_of(o, 1) {
        Primitive::UInt64(x) => x,
        _ => panic!("id"),
    };
    let name = match prim_of(o, 2) {
        Primitive::String(x) => x,
        _ => panic!("name"),
    };
    let quant = match prim_of(o, 3) {
        Primitive::Enum(0) => Quantifier::Required,
        Primitive::Enum(1) => Quantifier::Optional,
        Primitive::Enum(2) => Quantifier::Repeated,
        _ => panic!("quant"),
    };
    let typ = match prim_of(o, 4) {
        Primitive::Enum(x) => Type::from_usize(x as usize),
        _ => panic!("typ"),
    };
    let bounds = match prim_of(o, 5) {
        Primitive::UInt64(0) => None,
        Primitive::UInt64(x) => Some((x - 1) as usize),
        _ => panic!("bounds"),
    };
    FieldEncoding { id: FieldID(id), name, quant, typ, bounds }
}

fn records_of(o: &Obj, id: u64) -> Vec<Obj> {
    match o.items(id) {
        None => Vec::new(),
        Some(items) => items
            .iter()
            .map(|i| match i {
                Item::R(r) => r.clone(),
                Item::P(_) => panic!("primitive where a record should be"),
            })
            .collect(),
    }
}

fn obj_to_record(o: &Obj) -> RecordEncoding {
    let name = match prim_of(o, 1) {
        Primitive::String(x) => x,
        _ => panic!("name"),
    };
    RecordEncoding {
        name,
        req_fields: records_of(o, 2).iter().map(obj_to_field).collect(),
        opt_rep_fields: records_of(o, 3).iter().map(obj_to_field).collect(),
    }
}

fn obj_to_complete(o: &Obj) -> CompleteEncoding {
    CompleteEncoding {
        target: obj_to_record(&records_of(o, 1)[0]),
        depends: records_of(o, 2).iter().map(obj_to_record).collect(),
    }
}

#[test]
fn schema_self_describing() {
    let enc = complete_enc();
    let wire = encode(&enc, &complete_to_obj(&enc)).unwrap();
    let (sink, pos) = decode(&enc, &wire).unwrap();
    assert_eq!(pos, wire.len());
    assert_eq!(obj_to_complete(&sink.obj), enc);
    // and another encoding travels the same way
    let other = CompleteEncoding {
        target: record(
            vec![field(1, Quantifier::Required, Type::Record { index: 0 }, Some(4))],
            vec![field(9, Quantifier::Optional, Type::Float64, None)],
        ),
        depends: vec![record(vec![], vec![])],
    };
    let wire = encode(&enc, &complete_to_obj(&other)).unwrap();
    let (sink, _) = decode(&enc, &wire).unwrap();
    assert_eq!(obj_to_complete(&sink.obj), other);
}

#[test]
fn bootstrap_encoding_has_the_declared_shape() {
    let enc = complete_enc();
    assert_eq!(enc.target.name, "CompleteEncoding");
    assert_eq!(enc.depends.len(), 2);
    assert_eq!(enc.depends[0].name, "FieldEncoding");
    assert_eq!(enc.depends[1].name, "RecordEncoding");
    let record_typ = Type::Record { index: 1 };
    assert_eq!(
        enc.target.req_fields,
        vec![field_named(1, "target", Quantifier::Required, record_typ)]
    );
    assert_eq!(
        enc.target.opt_rep_fields,
        vec![field_named(2, "depends", Quantifier::Repeated, record_typ)]
    );
    let names: Vec<&str> = enc.depends[0].req_fields.iter().map(|f| f.name.as_str()).collect();
    assert_eq!(names, vec!["id", "name", "quant", "typ", "bounds"]);
    let types: Vec<Type> = enc.depends[0].req_fields.iter().map(|f| f.typ).collect();
    assert_eq!(types, vec![Type::UInt64, Type::String, Type::Enum, Type::Enum, Type::UInt64]);
    assert!(enc.depends[0].opt_rep_fields.is_empty());
    assert_eq!(
        enc.depends[1].req_fields,
        vec![field_named(1, "name", Quantifier::Required, Type::String)]
    );
    assert_eq!(
        enc.depends[1].opt_rep_fields,
        vec![
            field_named(2, "req_fields", Quantifier::Repeated, Type::Record { index: 0 }),
            field_named(3, "opt_rep_fields", Quantifier::Repeated, Type::Record { index: 0 }),
        ]
    );
}

fn field_named(id: u64, name: &str, quant: Quantifier, typ: Type) -> FieldEncoding {
    FieldEncoding { id: FieldID(id), name: String::from(name), quant, typ, bounds: None }
}

#[test]
fn type_codes() {
    for code in 0usize..16 {
        assert_eq!(type_code(Type::from_usize(code)), code as i64);
    }
    assert_eq!(Type::from_usize(0), Type::Int8);
    assert_eq!(Type::from_usize(7), Type::UInt64);
    assert_eq!(Type::from_usize(15), Type::Enum);
    assert_eq!(Type::from_usize(16), Type::Record { index: 0 });
    assert_eq!(Type::from_usize(21), Type::Record { index: 5 });
    assert_eq!(Type::from_usize(usize::MAX), Type::Record { index: usize::MAX - 16 });
}

#[test]
fn sort_fields_sorts_by_id_and_keeps_equal_ids_in_order() {
    let mut a = opt(3, Type::UInt8);
    a.name = String::from("first three");
    let mut b = opt(3, Type::UInt8);
    b.name = String::from("second three");
    let mut enc = CompleteEncoding {
        target: record(
            vec![
                req(5, Type::UInt8),
                req(1, Type::UInt8),
            ],
            vec![a.clone(), rep(9, Type::UInt8), b.clone(), opt(2, Type::UInt8)],
        ),
        depends: vec![
            record(vec![], vec![opt(8, Type::UInt8), opt(7, Type::UInt8)]),
            record(vec![req(2, Type::UInt8), req(1, Type::UInt8)], vec![]),
        ],
    };
    enc.sort_fields();
    let ids = |fs: &Vec<FieldEncoding>| fs.iter().map(|f| f.id.0).collect::<Vec<u64>>();
    assert_eq!(ids(&enc.target.req_fields), vec![1, 5]);
    assert_eq!(ids(&enc.target.opt_rep_fields), vec![2, 3, 3, 9]);
    assert_eq!(enc.target.opt_rep_fields[1], a);
    assert_eq!(enc.target.opt_rep_fields[2], b);
    assert_eq!(ids(&enc.depends[0].opt_rep_fields), vec![7, 8]);
    assert_eq!(ids(&enc.depends[1].req_fields), vec![1, 2]);
    let mut rec = record(vec![], vec![opt(4, Type::UInt8), opt(1, Type::UInt8)]);
    rec.sort_fields();
    assert_eq!(ids(&rec.opt_rep_fields), vec![1, 4]);
}

#[test]
fn decodable_that_ignores_a_record_leaves_the_reader_mid_stream() {
    let enc = CompleteEncoding {
        target: record(vec![req(1, Type::Record { index: 0 })], vec![]),
        depends: vec![record(vec![req(1, Type::UInt8)], vec![])],
    };
    let wire = [0x00u8, 0x00, 0x00];
    let mut sink = Sink { ignore_records: true, ..Sink::default() };
    let mut r = Reader::new(&wire);
    assert_eq!(decode_from(&enc, &mut r, &mut sink), Ok(()));
    assert_eq!(r.pos, 1);
    assert_eq!(sink.log, vec![Call::Record(1, 0)]);
}

fn decode_into(enc: &CompleteEncoding, bytes: &[u8]) -> (Result<(), decoder::Error>, Sink, usize) {
    let mut sink = Sink::default();
    let mut r = Reader::new(bytes);
    let res = decode_from(enc, &mut r, &mut sink);
    (res, sink, r.pos)
}

#[test]
fn nothing_is_handed_over_for_what_cannot_be_read() {
    let flag = schema(vec![req(1, Type::Bool)], vec![]);
    let (res, sink, _) = decode_into(&flag, &[0x01]);
    assert_eq!(res, Err(decoder::Error::BadBool));
    assert!(sink.log.is_empty());
    let text = schema(vec![req(1, Type::String)], vec![]);
    let (res, sink, _) = decode_into(&text, &[0x01, 0xFF]);
    assert!(matches!(res, Err(decoder::Error::Utf8Error(_))));
    assert!(sink.log.is_empty());
    let bytes = schema(vec![req(1, Type::Bytes)], vec![]);
    let (res, sink, _) = decode_into(&bytes, &[0x03, 0x61]);
    assert_eq!(res, Err(decoder::Error::EOF));
    assert!(sink.log.is_empty());
}

#[test]
fn what_was_handed_over_before_an_error_stays() {
    let two = schema(vec![req(1, Type::UInt8), req(2, Type::Bool)], vec![]);
    let (res, sink, _) = decode_into(&two, &[0x07, 0x01]);
    assert_eq!(res, Err(decoder::Error::BadBool));
    assert_eq!(sink.log, vec![Call::Put(1, 0, Primitive::UInt8(7))]);
}

#[test]
fn missing_dependency_touches_neither_decodable_nor_reader() {
    let enc = schema(vec![req(1, Type::Record { index: 0 })], vec![]);
    let (res, sink, pos) = decode_into(&enc, &[0x00, 0x00]);
    assert_eq!(res, Err(decoder::Error::EncodingInvalid));
    assert!(sink.log.is_empty());
    assert_eq!(pos, 0);
}

#[test]
fn required_field_among_the_tagged_calls_nothing() {
    let enc = schema(vec![], vec![req(5, Type::Bool)]);
    let (res, sink, _) = decode_into(&enc, &[0x05, 0x01, 0xFF, 0x00]);
    assert_eq!(res, Err(decoder::Error::EncodingInvalid));
    assert!(sink.log.is_empty());
}

#[test]
fn type_mismatch_writes_nothing() {
    let enc = schema(vec![req(1, Type::UInt8)], vec![]);
    let obj = Obj::default().with(1, u32s(&[1]));
    let mut data = vec![0xEE];
    {
        let mut e = Encoder { rec: &enc.target, deps: &enc.depends, data: &mut data };
        assert_eq!(e.encode(&obj), Err(encoder::Error::FieldTypeMismatch));
    }
    assert_eq!(data, vec![0xEE]);
}
