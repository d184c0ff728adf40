use vstd::prelude::*;

verus! {

/// The closed set of failure kinds shared by the encoder and the decoder.
///
/// Every engine operation reports failure through this type; there is no
/// panic-style unwind anywhere in the library.
#[derive(Debug, Eq, PartialEq)]
pub enum Error {
    /// A feature the wire format deliberately refuses to support.
    WontImplement,
    /// The bounded output sink ran out of capacity.
    SerializeBufferFull,
    /// The element count of a sequence or map was not known before writing.
    SerializeLengthUnknown,
    /// The input ended where more bytes were required.
    DeserializeUnexpectedEnd,
    /// A variable-length integer did not terminate within the width this
    /// platform can represent, or its value would not fit.
    DeserializeBadVarint,
    /// A decoded boolean byte was neither 0 nor 1.
    DeserializeBadBool,
    /// A decoded 32-bit codepoint was not a Unicode scalar value.
    DeserializeBadChar,
    /// A length-prefixed string range was not valid UTF-8.
    DeserializeBadUtf8,
    /// An option discriminant byte was neither 0 nor 1.
    DeserializeBadOption,
    /// An enum discriminant did not fit the 32-bit bound or named no variant.
    DeserializeBadEnum,
    /// A structural inconsistency not covered by a more specific kind.
    DeserializeBadEncoding,
    /// A free-form failure raised by the value being encoded.
    SerdeSerCustom(String),
    /// A free-form failure raised by the value being decoded.
    SerdeDeCustom(String),
}

/// Failure kinds that decoding can report.
pub open spec fn is_decode_error(e: Error) -> bool {
    match e {
        Error::DeserializeUnexpectedEnd => true,
        Error::DeserializeBadVarint => true,
        Error::DeserializeBadBool => true,
        Error::DeserializeBadChar => true,
        Error::DeserializeBadUtf8 => true,
        Error::DeserializeBadOption => true,
        Error::DeserializeBadEnum => true,
        Error::DeserializeBadEncoding => true,
        _ => false,
    }
}

} // verus!
