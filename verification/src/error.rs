//! Error types of the library.

use vstd::prelude::*;

verus! {

/// Why a value has no canonical encoding.
#[derive(Clone, Copy, Debug, PartialEq, Eq, Structural)]
pub enum EncodeError {
    /// A text, a byte blob or a sequence is longer than the format's
    /// largest length prefix.
    ExceededMaxLen,
}

/// Why a byte string is not the canonical encoding of a value.
#[derive(Clone, Copy, Debug, PartialEq, Eq, Structural)]
pub enum DecodeError {
    /// The input ended before the current field was complete.
    Eof,
    /// A length prefix is larger than the format allows.
    ExceededMaxLen,
    /// The bytes of a text field are not valid UTF-8.
    Utf8,
    /// A length prefix has a superfluous trailing zero digit.
    NonCanonicalUleb128,
    /// A length prefix does not fit in 32 bits.
    Uleb128Overflow,
    /// Bytes were left over after the outermost value.
    RemainingInput,
}

} // verus!
