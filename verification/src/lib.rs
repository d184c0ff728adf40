//! A compact binary wire format for structured values.
//!
//! Values are described by a closed set of shapes — primitives, strings and
//! byte strings, options, sequences, tuples, mappings, structs and tagged
//! enums — and encoded to a minimal byte stream: fixed-width numerics in
//! little-endian order, a varint count before every variable-length shape,
//! no framing anywhere else. Encoding targets either a caller-supplied
//! fixed-capacity buffer or a growable one; decoding walks a borrowed byte
//! slice, never reads past it, and can hand back the unconsumed remainder.
//!
//! The wire rules are stated as specification functions, and both
//! directions are verified against them: the encoder writes exactly the
//! specified bytes, and whenever the input begins with the encoding of a
//! well-formed value of the expected shape, the decoder returns exactly
//! that value and consumes exactly its encoding.

pub mod de;
pub mod error;
pub mod output;
pub mod ser;
pub mod value;
pub mod varint;

pub use de::from_bytes;
pub use de::take_from_bytes;
pub use error::Error;
pub use ser::to_slice;
pub use ser::to_vec;
