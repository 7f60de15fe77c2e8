//! Bytes as hexadecimal text, and back.
//!
//! The text is handled as its bytes. Writing uses the lowercase digits;
//! reading takes both cases.

use vstd::prelude::*;

verus! {

/// Why a text is not the hexadecimal form of a byte string.
#[derive(Clone, Copy, Debug, PartialEq, Eq, Structural)]
pub enum HexError {
    /// The byte `c` at `index` is no hexadecimal digit.
    InvalidHexCharacter { c: char, index: usize },
    /// The text has an odd number of digits.
    OddLength,
    /// The text does not have twice as many digits as the bytes asked for.
    InvalidStringLength,
}

/// The value of a hexadecimal digit, of either case.
pub open spec fn digit_value(c: u8) -> Option<int> {
    if 48 <= c <= 57 {
        Some(c - 48)
    } else if 97 <= c <= 102 {
        Some(c - 87)
    } else if 65 <= c <= 70 {
        Some(c - 55)
    } else {
        None
    }
}

/// The lowercase digit with the value `n`.
pub open spec fn digit_of(n: int) -> u8 {
    if n < 10 {
        (48 + n) as u8
    } else {
        (87 + n) as u8
    }
}

/// The index of the first byte from `from` on that is no digit, or the
/// length of the text if there is none.
pub open spec fn first_invalid(t: Seq<u8>, from: int) -> int
    decreases t.len() - from,
{
    if from < 0 || from >= t.len() {
        t.len() as int
    } else if digit_value(t[from]) is None {
        from
    } else {
        first_invalid(t, from + 1)
    }
}

/// The bytes that the digits of `t` stand for, two digits to a byte, the
/// high one first.
pub open spec fn hex_bytes(t: Seq<u8>) -> Seq<u8> {
    Seq::new(
        t.len() / 2,
        |i: int| (16 * digit_value(t[2 * i]).unwrap() + digit_value(t[2 * i + 1]).unwrap()) as u8,
    )
}

/// The hexadecimal text of `b`, as bytes.
pub open spec fn hex_text(b: Seq<u8>) -> Seq<u8> {
    Seq::new(
        2 * b.len(),
        |i: int|
            if i % 2 == 0 {
                digit_of(b[i / 2] as int / 16)
            } else {
                digit_of(b[i / 2] as int % 16)
            },
    )
}

/// The hexadecimal text of `b`, as characters.
pub open spec fn hex_chars(b: Seq<u8>) -> Seq<char> {
    Seq::new(2 * b.len(), |i: int| hex_text(b)[i] as char)
}

/// Reading a hexadecimal text: an odd length is refused first, then the
/// first byte that is no digit.
pub open spec fn parse_hex(t: Seq<u8>) -> Result<Seq<u8>, HexError> {
    if t.len() % 2 != 0 {
        Err(HexError::OddLength)
    } else if first_invalid(t, 0) < t.len() {
        Err(
            HexError::InvalidHexCharacter {
                c: t[first_invalid(t, 0)] as char,
                index: first_invalid(t, 0) as usize,
            },
        )
    } else {
        Ok(hex_bytes(t))
    }
}

/// Reading a hexadecimal text of exactly `n` bytes: an odd length is
/// refused first, then another length than `2 * n`, then the first byte
/// that is no digit.
pub open spec fn parse_hex_exact(t: Seq<u8>, n: nat) -> Result<Seq<u8>, HexError> {
    if t.len() % 2 != 0 {
        Err(HexError::OddLength)
    } else if t.len() / 2 != n {
        Err(HexError::InvalidStringLength)
    } else {
        parse_hex(t)
    }
}

/// `hex::decode`: the bytes that a hexadecimal text stands for. The crate
/// refuses an odd length, and else the first byte that is no digit, with
/// that byte and its index; the error is handed on variant by variant.
#[verifier::external_body]
pub(crate) fn hex_decode(text: &[u8]) -> (res: Result<Vec<u8>, HexError>)
    ensures
        match res {
            Ok(v) => parse_hex(text@) == Ok::<Seq<u8>, HexError>(v@),
            Err(e) => parse_hex(text@) == Err::<Seq<u8>, HexError>(e),
        },
{
    match hex::decode(text) {
        Ok(v) => Ok(v),
        Err(hex::FromHexError::InvalidHexCharacter { c, index }) => Err(
            HexError::InvalidHexCharacter { c, index },
        ),
        Err(hex::FromHexError::OddLength) => Err(HexError::OddLength),
        Err(hex::FromHexError::InvalidStringLength) => Err(HexError::InvalidStringLength),
    }
}

/// `hex::FromHex::from_hex` for `[u8; 32]`: the 32 bytes that a
/// hexadecimal text stands for. The crate refuses an odd length, then a
/// length other than 64, then the first byte that is no digit.
#[verifier::external_body]
pub(crate) fn hex_decode_32(text: &[u8]) -> (res: Result<[u8; 32], HexError>)
    ensures
        match res {
            Ok(v) => parse_hex_exact(text@, 32) == Ok::<Seq<u8>, HexError>(v@),
            Err(e) => parse_hex_exact(text@, 32) == Err::<Seq<u8>, HexError>(e),
        },
{
    match <[u8; 32] as hex::FromHex>::from_hex(text) {
        Ok(v) => Ok(v),
        Err(hex::FromHexError::InvalidHexCharacter { c, index }) => Err(
            HexError::InvalidHexCharacter { c, index },
        ),
        Err(hex::FromHexError::OddLength) => Err(HexError::OddLength),
        Err(hex::FromHexError::InvalidStringLength) => Err(HexError::InvalidStringLength),
    }
}

/// `hex::encode`: the lowercase hexadecimal text of `data`, two digits to
/// a byte.
#[verifier::external_body]
pub(crate) fn hex_encode(data: &[u8]) -> (res: String)
    ensures
        res@ == hex_chars(data@),
{
    hex::encode(data)
}

/// Every byte of a written text is a digit, so the text has no invalid
/// byte from `from` on.
pub proof fn lemma_hex_text_valid(b: Seq<u8>, from: int)
    requires
        0 <= from <= 2 * b.len(),
    ensures
        first_invalid(hex_text(b), from) == 2 * b.len(),
    decreases 2 * b.len() - from,
{
    if from < 2 * b.len() {
        lemma_hex_text_valid(b, from + 1);
    }
}

/// Reading the text written for `b` gives `b` back.
pub proof fn lemma_parse_hex_text(b: Seq<u8>)
    ensures
        parse_hex(hex_text(b)) == Ok::<Seq<u8>, HexError>(b),
{
    lemma_hex_text_valid(b, 0);
    assert(hex_bytes(hex_text(b)) =~= b) by {
        assert forall|i: int| 0 <= i < b.len() implies hex_bytes(hex_text(b))[i] == b[i] by {
            assert(hex_text(b)[2 * i] == digit_of(b[i] as int / 16));
            assert(hex_text(b)[2 * i + 1] == digit_of(b[i] as int % 16));
        }
    }
}

} // verus!
