//! The pure steps of the two conversions: from a hexadecimal argument to
//! the text or the bytes it carries, and from a package to the hexadecimal
//! form of its canonical bytes.

use vstd::prelude::*;
use vstd::utf8::{decode_utf8, encode_utf8, encode_utf8_decode_utf8, valid_utf8};
use crate::codec::{encode_package, package_encodable};
use crate::error::EncodeError;
use crate::hexcodec::{hex_chars, hex_decode, hex_encode, parse_hex, HexError};
use crate::model::PackageMetadata;
use crate::wire::string_from_utf8;

verus! {

/// Why an argument carries no payload.
#[derive(Clone, Copy, Debug, PartialEq, Eq, Structural)]
pub enum InputError {
    /// The argument is no hexadecimal text.
    Hex(HexError),
    /// The bytes that the argument stands for are not valid UTF-8.
    Utf8,
}

/// The bytes that a hexadecimal argument carries.
pub open spec fn payload_bytes_of(arg: Seq<u8>) -> Result<Seq<u8>, InputError> {
    match parse_hex(arg) {
        Err(e) => Err(InputError::Hex(e)),
        Ok(b) => Ok(b),
    }
}

/// The text that a hexadecimal argument carries.
pub open spec fn payload_text_of(arg: Seq<u8>) -> Result<Seq<char>, InputError> {
    match parse_hex(arg) {
        Err(e) => Err(InputError::Hex(e)),
        Ok(b) => if valid_utf8(b) {
            Ok(decode_utf8(b))
        } else {
            Err(InputError::Utf8)
        },
    }
}

/// The bytes that the hexadecimal argument `arg` carries: the compiled
/// module of the second conversion.
pub fn payload_bytes(arg: &str) -> (res: Result<Vec<u8>, InputError>)
    ensures
        match res {
            Ok(b) => payload_bytes_of(encode_utf8(arg@)) == Ok::<Seq<u8>, InputError>(b@),
            Err(e) => payload_bytes_of(encode_utf8(arg@)) == Err::<Seq<u8>, InputError>(e),
        },
{
    match hex_decode(arg.as_bytes()) {
        Err(e) => Err(InputError::Hex(e)),
        Ok(b) => Ok(b),
    }
}

/// The text that the hexadecimal argument `arg` carries: the textual form
/// of a package in the first conversion.
pub fn payload_text(arg: &str) -> (res: Result<String, InputError>)
    ensures
        match res {
            Ok(s) => payload_text_of(encode_utf8(arg@)) == Ok::<Seq<char>, InputError>(s@),
            Err(e) => payload_text_of(encode_utf8(arg@)) == Err::<Seq<char>, InputError>(e),
        },
{
    match hex_decode(arg.as_bytes()) {
        Err(e) => Err(InputError::Hex(e)),
        Ok(b) => match string_from_utf8(b) {
            None => Err(InputError::Utf8),
            Some(s) => {
                proof {
                    encode_utf8_decode_utf8(s@);
                }
                Ok(s)
            },
        },
    }
}

/// The hexadecimal form of the canonical bytes of `meta`, or the reason it
/// has none.
pub fn metadata_hex(meta: &PackageMetadata) -> (res: Result<String, EncodeError>)
    ensures
        res is Ok <==> package_encodable(meta@),
        res matches Ok(s) ==> s@ == hex_chars(encode_package(meta@)),
{
    match meta.to_bytes() {
        Err(e) => Err(e),
        Ok(b) => Ok(hex_encode(b.as_slice())),
    }
}

} // verus!
