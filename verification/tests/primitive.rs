use rex::decoder::{
    read_i8, read_le_i16, read_le_i32, read_le_i64, read_le_u16, read_le_u32, read_le_u64,
    read_primitive, read_u8, read_uvarint, read_varint, skip_bytes, Error, ErrorKind, Reader,
};
use rex::encoding::Type;
use rex::primitive::{
    uvarint_size, varint_size, write_i8, write_le_i16, write_le_i32, write_le_i64, write_le_u16,
    write_le_u32, write_le_u64, write_u8, write_uvarint, write_varint, zigzag_encode, Primitive,
};

fn uvarint(x: u64) -> Vec<u8> {
    let mut w = Vec::new();
    let n = write_uvarint(&mut w, x);
    assert_eq!(n, w.len());
    w
}

fn varint(x: i64) -> Vec<u8> {
    let mut w = Vec::new();
    let n = write_varint(&mut w, x);
    assert_eq!(n, w.len());
    w
}

#[test]
fn uvarint_known_bytes() {
    assert_eq!(uvarint(0), vec![0x00]);
    assert_eq!(uvarint(1), vec![0x01]);
    assert_eq!(uvarint(0x7F), vec![0x7F]);
    assert_eq!(uvarint(0x80), vec![0x80, 0x01]);
    assert_eq!(uvarint(300), vec![0xAC, 0x02]);
    assert_eq!(
        uvarint(u64::MAX),
        vec![0xFF, 0xFF, 0xFF, 0xFF, 0xFF, 0xFF, 0xFF, 0xFF, 0xFF, 0x01]
    );
}

#[test]
fn uvarint_appends_to_what_is_there() {
    let mut w = vec![9u8, 8];
    let n = write_uvarint(&mut w, 300);
    assert_eq!(n, 2);
    assert_eq!(w, vec![9, 8, 0xAC, 0x02]);
}

#[test]
fn uvarint_round_trip_and_size() {
    let samples: Vec<u64> = vec![
        0,
        1,
        0x7F,
        0x80,
        300,
        0x3FFF,
        0x4000,
        0x1F_FFFF,
        0x20_0000,
        0xFFF_FFFF,
        0x1000_0000,
        0xDEAD_BEEF,
        0x7_FFFF_FFFF,
        0x8_0000_0000,
        0x3FF_FFFF_FFFF,
        0x400_0000_0000,
        0x1_FFFF_FFFF_FFFF,
        0x2_0000_0000_0000,
        0xFF_FFFF_FFFF_FFFF,
        0x100_0000_0000_0000,
        0x7FFF_FFFF_FFFF_FFFF,
        0x8000_0000_0000_0000,
        u64::MAX,
    ];
    for x in samples {
        let bytes = uvarint(x);
        assert_eq!(bytes.len(), uvarint_size(x));
        let mut r = Reader::new(&bytes);
        assert_eq!(read_uvarint(&mut r), Ok(x));
        assert_eq!(r.pos, bytes.len());
    }
}

#[test]
fn uvarint_size_at_the_edges() {
    assert_eq!(uvarint_size(0), 1);
    assert_eq!(uvarint_size(0x7F), 1);
    assert_eq!(uvarint_size(0x80), 2);
    assert_eq!(uvarint_size(0x3FFF), 2);
    assert_eq!(uvarint_size(0x4000), 3);
    assert_eq!(uvarint_size((0x80u64 << 56) - 1), 9);
    assert_eq!(uvarint_size(0x80u64 << 56), 10);
    assert_eq!(uvarint_size(u64::MAX), 10);
}

#[test]
fn uvarint_short_read_is_eof_and_keeps_position() {
    let bytes = [0x80u8, 0x80];
    let mut r = Reader::new(&bytes);
    assert_eq!(read_uvarint(&mut r), Err(Error::EOF));
    assert_eq!(r.pos, 0);
    let empty: [u8; 0] = [];
    let mut r = Reader::new(&empty);
    assert_eq!(read_uvarint(&mut r), Err(Error::EOF));
}

#[test]
fn uvarint_reads_only_its_own_bytes() {
    let bytes = [0xAC, 0x02, 0x05];
    let mut r = Reader::new(&bytes);
    assert_eq!(read_uvarint(&mut r), Ok(300));
    assert_eq!(r.pos, 2);
    assert_eq!(read_uvarint(&mut r), Ok(5));
    assert_eq!(r.pos, 3);
}

#[test]
fn uvarint_overlong_drops_high_bits() {
    // eleven groups: the last lands beyond bit 63 and is lost
    let bytes = [0x81, 0x80, 0x80, 0x80, 0x80, 0x80, 0x80, 0x80, 0x80, 0x80, 0x7F];
    let mut r = Reader::new(&bytes);
    assert_eq!(read_uvarint(&mut r), Ok(1));
    assert_eq!(r.pos, 11);
    // the tenth group keeps its lowest bit only
    let bytes = [0x80, 0x80, 0x80, 0x80, 0x80, 0x80, 0x80, 0x80, 0x80, 0x03];
    let mut r = Reader::new(&bytes);
    assert_eq!(read_uvarint(&mut r), Ok(0x8000_0000_0000_0000));
}

#[test]
fn varint_known_bytes() {
    assert_eq!(varint(0), vec![0x00]);
    assert_eq!(varint(-1), vec![0x01]);
    assert_eq!(varint(1), vec![0x02]);
    assert_eq!(varint(-2), vec![0x03]);
    assert_eq!(varint(2), vec![0x04]);
    assert_eq!(varint(-64), vec![0x7F]);
    assert_eq!(varint(64), vec![0x80, 0x01]);
}

#[test]
fn zigzag_codes() {
    assert_eq!(zigzag_encode(0), 0);
    assert_eq!(zigzag_encode(-1), 1);
    assert_eq!(zigzag_encode(1), 2);
    assert_eq!(zigzag_encode(i64::MAX), u64::MAX - 1);
    assert_eq!(zigzag_encode(i64::MIN), u64::MAX);
}

#[test]
fn varint_round_trip_and_size() {
    let samples: Vec<i64> =
        vec![0, 1, -1, 2, -2, 63, -64, 64, -65, 300, -300, i64::MAX, i64::MIN, i64::MIN + 1];
    for x in samples {
        let bytes = varint(x);
        assert_eq!(bytes.len(), varint_size(x));
        let mut r = Reader::new(&bytes);
        assert_eq!(read_varint(&mut r), Ok(x));
        assert_eq!(r.pos, bytes.len());
    }
}

#[test]
fn fixed_width_parity() {
    let mut w = Vec::new();
    assert_eq!(write_le_u32(&mut w, 0xDEAD_BEEF), 4);
    assert_eq!(w, vec![0xEF, 0xBE, 0xAD, 0xDE]);
    let mut r = Reader::new(&w);
    assert_eq!(read_le_u32(&mut r), Ok(0xDEAD_BEEF));
    assert_eq!(r.pos, 4);
}

#[test]
fn fixed_width_bytes() {
    let mut w = Vec::new();
    assert_eq!(write_u8(&mut w, 0xAB), 1);
    assert_eq!(write_le_u16(&mut w, 0x1234), 2);
    assert_eq!(write_le_u64(&mut w, 0x0102_0304_0506_0708), 8);
    assert_eq!(w, vec![0xAB, 0x34, 0x12, 0x08, 0x07, 0x06, 0x05, 0x04, 0x03, 0x02, 0x01]);
    let mut r = Reader::new(&w);
    assert_eq!(read_u8(&mut r), Ok(0xAB));
    assert_eq!(read_le_u16(&mut r), Ok(0x1234));
    assert_eq!(read_le_u64(&mut r), Ok(0x0102_0304_0506_0708));
    assert_eq!(r.remaining(), 0);
}

#[test]
fn signed_fixed_width_round_trip() {
    let mut w = Vec::new();
    assert_eq!(write_i8(&mut w, -1), 1);
    assert_eq!(write_i8(&mut w, i8::MIN), 1);
    assert_eq!(write_le_i16(&mut w, -2), 2);
    assert_eq!(write_le_i16(&mut w, i16::MAX), 2);
    assert_eq!(write_le_i32(&mut w, -3), 4);
    assert_eq!(write_le_i32(&mut w, i32::MIN), 4);
    assert_eq!(write_le_i64(&mut w, -4), 8);
    assert_eq!(write_le_i64(&mut w, i64::MIN), 8);
    assert_eq!(&w[0..4], &[0xFF, 0x80, 0xFE, 0xFF]);
    let mut r = Reader::new(&w);
    assert_eq!(read_i8(&mut r), Ok(-1));
    assert_eq!(read_i8(&mut r), Ok(i8::MIN));
    assert_eq!(read_le_i16(&mut r), Ok(-2));
    assert_eq!(read_le_i16(&mut r), Ok(i16::MAX));
    assert_eq!(read_le_i32(&mut r), Ok(-3));
    assert_eq!(read_le_i32(&mut r), Ok(i32::MIN));
    assert_eq!(read_le_i64(&mut r), Ok(-4));
    assert_eq!(read_le_i64(&mut r), Ok(i64::MIN));
    assert_eq!(r.remaining(), 0);
}

#[test]
fn fixed_width_short_reads_are_eof() {
    let bytes = [1u8, 2, 3];
    let mut r = Reader::new(&bytes);
    assert_eq!(read_le_u32(&mut r), Err(Error::EOF));
    assert_eq!(r.pos, 0);
    assert_eq!(read_le_u64(&mut r), Err(Error::EOF));
    assert_eq!(read_le_i32(&mut r), Err(Error::EOF));
    assert_eq!(read_le_u16(&mut r), Ok(0x0201));
    assert_eq!(read_le_u16(&mut r), Err(Error::EOF));
    assert_eq!(read_le_i16(&mut r), Err(Error::EOF));
    assert_eq!(read_u8(&mut r), Ok(3));
    assert_eq!(read_u8(&mut r), Err(Error::EOF));
    assert_eq!(read_i8(&mut r), Err(Error::EOF));
    assert_eq!(read_le_i64(&mut r), Err(Error::EOF));
}

#[test]
fn reader_beyond_the_end_is_exhausted() {
    let bytes = [1u8, 2];
    let mut r = Reader { buf: &bytes, pos: 7 };
    assert_eq!(r.remaining(), 0);
    assert_eq!(read_u8(&mut r), Err(Error::EOF));
    assert_eq!(read_uvarint(&mut r), Err(Error::EOF));
    assert_eq!(skip_bytes(&mut r, 0), Err(Error::EOF));
}

#[test]
fn skip_bytes_moves_or_fails() {
    let bytes = [1u8, 2, 3, 4];
    let mut r = Reader::new(&bytes);
    assert_eq!(skip_bytes(&mut r, 3), Ok(()));
    assert_eq!(r.pos, 3);
    assert_eq!(skip_bytes(&mut r, 2), Err(Error::EOF));
    assert_eq!(r.pos, 3);
    assert_eq!(skip_bytes(&mut r, 1), Ok(()));
    assert_eq!(skip_bytes(&mut r, 0), Ok(()));
    assert_eq!(skip_bytes(&mut r, u64::MAX), Err(Error::EOF));
}

#[test]
fn bool_strictness() {
    let bytes = [0x01u8];
    let mut r = Reader::new(&bytes);
    assert_eq!(read_primitive(&mut r, Type::Bool), Err(Error::BadBool));
}

#[test]
fn bool_bytes() {
    let bytes = [0xFFu8, 0x00, 0x7F];
    let mut r = Reader::new(&bytes);
    assert_eq!(read_primitive(&mut r, Type::Bool), Ok(Primitive::Bool(true)));
    assert_eq!(read_primitive(&mut r, Type::Bool), Ok(Primitive::Bool(false)));
    assert_eq!(read_primitive(&mut r, Type::Bool), Err(Error::BadBool));
    let empty: [u8; 0] = [];
    let mut r = Reader::new(&empty);
    assert_eq!(read_primitive(&mut r, Type::Bool), Err(Error::EOF));
}

#[test]
fn read_primitive_of_each_type() {
    let cases: Vec<(Type, Vec<u8>, Primitive)> = vec![
        (Type::UInt8, vec![0xFE], Primitive::UInt8(0xFE)),
        (Type::UInt16, vec![0x34, 0x12], Primitive::UInt16(0x1234)),
        (Type::UInt32, vec![0xAC, 0x02], Primitive::UInt32(300)),
        (Type::UInt64, vec![0xAC, 0x02], Primitive::UInt64(300)),
        (Type::Int8, vec![0xFF], Primitive::Int8(-1)),
        (Type::Int16, vec![0xFE, 0xFF], Primitive::Int16(-2)),
        (Type::Int32, vec![0x01], Primitive::Int32(-1)),
        (Type::Int64, vec![0x02], Primitive::Int64(1)),
        (Type::Fixed32, vec![0xEF, 0xBE, 0xAD, 0xDE], Primitive::Fixed32(0xDEAD_BEEF)),
        (Type::Fixed64, vec![1, 0, 0, 0, 0, 0, 0, 0x80], Primitive::Fixed64(0x8000_0000_0000_0001)),
        (Type::Float32, vec![0, 0, 0x80, 0x3F], Primitive::Float32(1.0f32.to_bits())),
        (
            Type::Float64,
            vec![0, 0, 0, 0, 0, 0, 0xF0, 0xBF],
            Primitive::Float64((-1.0f64).to_bits()),
        ),
        (Type::Bytes, vec![0x03, 7, 8, 9], Primitive::Bytes(vec![7, 8, 9])),
        (Type::Bytes, vec![0x00], Primitive::Bytes(vec![])),
        (Type::String, vec![0x02, 0x68, 0x69], Primitive::String(String::from("hi"))),
        (
            Type::String,
            vec![0x03, 0xE2, 0x82, 0xAC],
            Primitive::String(String::from("\u{20AC}")),
        ),
        (Type::Enum, vec![0x03], Primitive::Enum(-2)),
    ];
    for (t, bytes, want) in cases {
        let mut with_tail = bytes.clone();
        with_tail.push(0x55);
        let mut r = Reader::new(&with_tail);
        assert_eq!(read_primitive(&mut r, t), Ok(want));
        assert_eq!(r.pos, bytes.len());
    }
}

#[test]
fn read_primitive_keeps_the_low_32_bits() {
    let bytes = uvarint(0x1_0000_0001);
    let mut r = Reader::new(&bytes);
    assert_eq!(read_primitive(&mut r, Type::UInt32), Ok(Primitive::UInt32(1)));
    let bytes = varint(0x1_0000_0000 - 1);
    let mut r = Reader::new(&bytes);
    assert_eq!(read_primitive(&mut r, Type::Int32), Ok(Primitive::Int32(-1)));
}

#[test]
fn read_primitive_errors() {
    let bytes = [0x02u8, 0xC3, 0x28];
    let mut r = Reader::new(&bytes);
    match read_primitive(&mut r, Type::String) {
        Err(Error::Utf8Error(fault)) => {
            assert_eq!(fault.utf8_error().valid_up_to(), 0);
            assert_eq!(fault.into_bytes(), vec![0xC3, 0x28]);
        }
        other => panic!("expected a UTF-8 error, got {:?}", other),
    }
    let bytes = [0x05u8, 1, 2];
    let mut r = Reader::new(&bytes);
    assert_eq!(read_primitive(&mut r, Type::Bytes), Err(Error::EOF));
    let mut r = Reader::new(&bytes);
    assert_eq!(read_primitive(&mut r, Type::String), Err(Error::EOF));
    let mut r = Reader::new(&bytes);
    assert_eq!(read_primitive(&mut r, Type::Record { index: 0 }), Err(Error::EncodingInvalid));
    let bytes = [0x80u8];
    for t in [Type::UInt32, Type::UInt64, Type::Int32, Type::Int64, Type::Enum, Type::Bytes] {
        let mut r = Reader::new(&bytes);
        assert_eq!(read_primitive(&mut r, t), Err(Error::EOF));
    }
    let words =
        [Type::UInt16, Type::Int16, Type::Fixed32, Type::Fixed64, Type::Float32, Type::Float64];
    for t in words {
        let mut r = Reader::new(&bytes);
        assert_eq!(read_primitive(&mut r, t), Err(Error::EOF));
    }
}

#[test]
fn has_type_is_one_to_one() {
    let all: Vec<(Primitive, Type)> = vec![
        (Primitive::UInt8(1), Type::UInt8),
        (Primitive::UInt16(1), Type::UInt16),
        (Primitive::UInt32(1), Type::UInt32),
        (Primitive::UInt64(1), Type::UInt64),
        (Primitive::Int8(1), Type::Int8),
        (Primitive::Int16(1), Type::Int16),
        (Primitive::Int32(1), Type::Int32),
        (Primitive::Int64(1), Type::Int64),
        (Primitive::Fixed32(1), Type::Fixed32),
        (Primitive::Fixed64(1), Type::Fixed64),
        (Primitive::Float32(1), Type::Float32),
        (Primitive::Float64(1), Type::Float64),
        (Primitive::Bool(true), Type::Bool),
        (Primitive::Bytes(vec![1]), Type::Bytes),
        (Primitive::String(String::from("a")), Type::String),
        (Primitive::Enum(1), Type::Enum),
    ];
    for (i, (p, _)) in all.iter().enumerate() {
        for (j, (_, t)) in all.iter().enumerate() {
            assert_eq!(p.has_type(*t), i == j);
        }
        assert!(!p.has_type(Type::Record { index: 0 }));
    }
    assert!(!Primitive::UInt16(1).has_type(Type::UInt8));
    assert!(!Primitive::Int16(1).has_type(Type::Int8));
}

#[test]
fn error_kinds() {
    assert_eq!(Error::EOF.kind(), ErrorKind::EOF);
    assert_eq!(Error::FieldTypeMismatch.kind(), ErrorKind::FieldTypeMismatch);
    assert_eq!(Error::EncodingInvalid.kind(), ErrorKind::EncodingInvalid);
    assert_eq!(Error::BadBool.kind(), ErrorKind::BadBool);
    assert_eq!(Error::IoError.kind(), ErrorKind::IoError);
    let bytes = [0x01u8, 0xFF];
    let mut r = Reader::new(&bytes);
    let fault = read_primitive(&mut r, Type::String).unwrap_err();
    assert_eq!(fault.kind(), ErrorKind::Utf8Error);
}
