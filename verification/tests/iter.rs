use rex::decoder::{Error, Reader};
use rex::iter::{Bytes, ResultIterExt, RexIterExt, Stream};

fn drain<S: Stream>(mut s: S) -> Vec<S::Item> {
    let mut out = Vec::new();
    while let Some(x) = s.next() {
        out.push(x);
    }
    assert!(s.next().is_none());
    out
}

#[test]
fn bytes_stream_gives_what_is_left() {
    let data = [1u8, 2, 3];
    let mut r = Reader { buf: &data, pos: 1 };
    assert_eq!(drain(Bytes { r: &mut r }), vec![Ok(2), Ok(3)]);
    assert_eq!(r.pos, 3);
    let mut r = Reader { buf: &data, pos: 9 };
    assert_eq!(drain(Bytes { r: &mut r }), vec![]);
    assert_eq!(r.pos, 9);
}

#[test]
fn take_while_incl_returns_the_failing_item_too() {
    let data = [0x81u8, 0x82, 0x03, 0x84, 0x05];
    let mut r = Reader::new(&data);
    let high = |x: &Result<u8, Error>| match x {
        Ok(b) => *b >= 0x80,
        Err(_) => true,
    };
    let got = drain(Bytes { r: &mut r }.take_while_incl(high));
    assert_eq!(got, vec![Ok(0x81), Ok(0x82), Ok(0x03)]);
    assert_eq!(r.pos, 3);
    // the rest of the stream is untouched
    let got = drain(Bytes { r: &mut r }.take_while_incl(high));
    assert_eq!(got, vec![Ok(0x84), Ok(0x05)]);
}

#[test]
fn take_while_incl_runs_out_with_the_stream() {
    let data = [0x81u8, 0x82];
    let mut r = Reader::new(&data);
    let got = drain(Bytes { r: &mut r }.take_while_incl(|_x: &Result<u8, Error>| true));
    assert_eq!(got, vec![Ok(0x81), Ok(0x82)]);
    let mut r = Reader::new(&data);
    let got = drain(Bytes { r: &mut r }.take_while_incl(|_x: &Result<u8, Error>| false));
    assert_eq!(got, vec![Ok(0x81)]);
    let empty: [u8; 0] = [];
    let mut r = Reader::new(&empty);
    let got = drain(Bytes { r: &mut r }.take_while_incl(|_x: &Result<u8, Error>| true));
    assert_eq!(got, vec![]);
}

#[test]
fn take_or_err_stops_after_the_number() {
    let data = [1u8, 2, 3];
    let mut r = Reader::new(&data);
    let got = drain(Bytes { r: &mut r }.take_or_err(2, Error::EOF));
    assert_eq!(got, vec![Ok(1), Ok(2)]);
    assert_eq!(r.pos, 2);
    let got = drain(Bytes { r: &mut r }.take_or_err(0, Error::EOF));
    assert_eq!(got, vec![]);
    assert_eq!(r.pos, 2);
}

#[test]
fn take_or_err_reports_a_short_stream_once() {
    let data = [1u8];
    let mut r = Reader::new(&data);
    let mut t = Bytes { r: &mut r }.take_or_err(3, Error::EOF);
    assert_eq!(t.next(), Some(Ok(1)));
    assert_eq!(t.remaining, 2);
    assert_eq!(t.next(), Some(Err(Error::EOF)));
    assert_eq!(t.next(), None);
    assert_eq!(t.next(), None);
}

#[test]
fn adapters_stack() {
    let data = [0x81u8, 0x82, 0x83, 0x04, 0x05];
    let mut r = Reader::new(&data);
    let got = drain(
        Bytes { r: &mut r }
            .take_or_err(2, Error::BadBool)
            .take_while_incl(|x: &Result<u8, Error>| x.is_ok()),
    );
    assert_eq!(got, vec![Ok(0x81), Ok(0x82)]);
    let short = [0x81u8];
    let mut r = Reader::new(&short);
    let got = drain(
        Bytes { r: &mut r }
            .take_or_err(2, Error::BadBool)
            .take_while_incl(|x: &Result<u8, Error>| x.is_ok()),
    );
    assert_eq!(got, vec![Ok(0x81), Err(Error::BadBool)]);
}
