//! Byte-stuffed framing of binary messages on a continuous byte stream.
//!
//! A frame is a payload wrapped in a reserved delimiter byte; every
//! occurrence of the delimiter or of the escape byte inside the payload is
//! replaced by a two-byte substitution, so that a delimiter on the wire
//! always marks a frame boundary.
//!
//! * [`encode`] builds a frame from a payload.
//! * [`decode`] and [`decode_slice`] recover the payload from a frame, into
//!   a new buffer or in place.
//! * [`FrameReader`] cuts a byte stream, delivered in arbitrary pieces, into
//!   delimiter-inclusive frames.
pub mod chars;
pub mod error;
pub mod encode;
pub mod decode;
pub mod in_place;
pub mod round_trip;
pub mod frames;
pub mod reader;
pub mod stream;

pub use chars::SpecialChars;
pub use error::HDLCError;
pub use encode::encode;
pub use decode::decode;
pub use in_place::decode_slice;
pub use reader::{ByteSource, FrameReader};
