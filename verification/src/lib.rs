//! `rex` is a schema-driven binary record format.
//!
//! A [`encoding::CompleteEncoding`] describes one record type and every record
//! type it can contain. An [`encoder::Encoder`] turns the fields that an
//! [`encoder::Encodable`] hands out into bytes, and a [`decoder::Decoder`] walks
//! such bytes and hands the fields to a [`decoder::Decodable`].
//!
//! The byte-level rules live in [`primitive`] (writers) and [`decoder`]
//! (readers), two ways to cut a stream short in [`iter`]. What holds of the
//! frame of every record is proved in [`framing`], and that what is written is
//! read back unchanged in [`roundtrip`].

pub mod decoder;
pub mod encoder;
pub mod encoding;
pub mod framing;
pub mod iter;
pub mod primitive;
pub mod roundtrip;
