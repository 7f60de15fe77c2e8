//! The textual form of an account address: 64 hexadecimal digits.

use vstd::prelude::*;
use vstd::utf8::{encode_utf8, is_ascii_chars, is_ascii_chars_encode_utf8};
use crate::hexcodec::{
    digit_of, digit_value, first_invalid, hex_bytes, hex_chars, hex_decode, hex_decode_32,
    hex_encode, hex_text, lemma_parse_hex_text, parse_hex, parse_hex_exact, HexError,
};
use crate::model::{AccountAddress, ADDRESS_LENGTH};

verus! {

/// Why a text is not the textual form of an address.
#[derive(Clone, Copy, Debug, PartialEq, Eq, Structural)]
pub enum AddressError {
    /// The text is no hexadecimal text.
    Hex(HexError),
    /// The text stands for fewer than 32 bytes.
    TooShort,
}

/// The address that a text of hexadecimal digits stands for: its first 32
/// bytes. A text with more digits than that is cut, one with fewer is
/// refused.
pub open spec fn parse_address(t: Seq<u8>) -> Result<Seq<u8>, AddressError> {
    match parse_hex(t) {
        Err(e) => Err(AddressError::Hex(e)),
        Ok(b) => if b.len() < ADDRESS_LENGTH {
            Err(AddressError::TooShort)
        } else {
            Ok(b.take(ADDRESS_LENGTH as int))
        },
    }
}

/// Whether `c` is a hexadecimal digit, of either case.
pub open spec fn is_hex_char(c: char) -> bool {
    ('0' <= c <= '9') || ('a' <= c <= 'f') || ('A' <= c <= 'F')
}

/// The lowercase form of a hexadecimal digit.
pub open spec fn lower_hex_char(c: char) -> char {
    if 'A' <= c <= 'F' {
        ((c as u8) + 32) as u8 as char
    } else {
        c
    }
}

impl AccountAddress {
    /// The address that `hex` stands for, which must be exactly 64
    /// hexadecimal digits.
    pub fn from_hex(hex: &str) -> (res: Result<AccountAddress, HexError>)
        ensures
            match res {
                Ok(a) => parse_hex_exact(encode_utf8(hex@), ADDRESS_LENGTH as nat) == Ok::<
                    Seq<u8>,
                    HexError,
                >(a@),
                Err(e) => parse_hex_exact(encode_utf8(hex@), ADDRESS_LENGTH as nat) == Err::<
                    Seq<u8>,
                    HexError,
                >(e),
            },
    {
        match hex_decode_32(hex.as_bytes()) {
            Ok(bytes) => Ok(AccountAddress::new(bytes)),
            Err(e) => Err(e),
        }
    }

    /// The address that `text` stands for: the first 32 of the bytes that
    /// its hexadecimal digits give. A text that gives fewer than 32 bytes is
    /// refused; one that gives more is cut.
    pub fn parse(text: &str) -> (res: Result<AccountAddress, AddressError>)
        ensures
            match res {
                Ok(a) => parse_address(encode_utf8(text@)) == Ok::<Seq<u8>, AddressError>(a@),
                Err(e) => parse_address(encode_utf8(text@)) == Err::<Seq<u8>, AddressError>(e),
            },
    {
        match hex_decode(text.as_bytes()) {
            Err(e) => Err(AddressError::Hex(e)),
            Ok(bytes) => {
                if bytes.len() < ADDRESS_LENGTH {
                    Err(AddressError::TooShort)
                } else {
                    Ok(AccountAddress::from_slice(bytes.as_slice(), 0))
                }
            },
        }
    }

    /// The textual form of the address: 64 lowercase hexadecimal digits,
    /// without a prefix.
    pub fn to_text(&self) -> (res: String)
        ensures
            res@ == hex_chars(self@),
            res@.len() == 2 * ADDRESS_LENGTH,
    {
        proof {
            self.lemma_len();
        }
        let bytes = self.to_bytes();
        hex_encode(bytes.as_slice())
    }
}

/// The bytes of a written text are its characters, one byte each.
pub proof fn lemma_hex_chars_bytes(b: Seq<u8>)
    ensures
        encode_utf8(hex_chars(b)) == hex_text(b),
{
    let chars = hex_chars(b);
    assert(is_ascii_chars(chars)) by {
        assert forall|i: int| 0 <= i < chars.len() implies '\0' <= #[trigger] chars[i]
            <= '\u{7f}' by {
            assert(hex_text(b)[i] < 128);
        }
    }
    is_ascii_chars_encode_utf8(chars);
    assert(encode_utf8(chars) =~= hex_text(b)) by {
        assert forall|i: int| 0 <= i < chars.len() implies encode_utf8(chars)[i] == hex_text(
            b,
        )[i] by {
            assert(chars[i] as u8 == encode_utf8(chars)[i]);
            assert(hex_text(b)[i] < 128);
        }
    }
}

/// Parsing the textual form of an address gives the address back.
pub proof fn lemma_parse_of_text(a: Seq<u8>)
    requires
        a.len() == ADDRESS_LENGTH,
    ensures
        parse_address(encode_utf8(hex_chars(a))) == Ok::<Seq<u8>, AddressError>(a),
        parse_hex_exact(encode_utf8(hex_chars(a)), ADDRESS_LENGTH as nat) == Ok::<
            Seq<u8>,
            HexError,
        >(a),
{
    lemma_hex_chars_bytes(a);
    lemma_parse_hex_text(a);
    assert(a.take(ADDRESS_LENGTH as int) =~= a);
}

/// A text of fewer than 64 bytes is no address, whatever it holds.
pub proof fn lemma_short_text_is_refused(t: Seq<u8>)
    requires
        t.len() < 2 * ADDRESS_LENGTH,
    ensures
        parse_address(t) is Err,
{
}

/// A text of digits alone has no invalid byte.
pub proof fn lemma_all_digits_valid(t: Seq<u8>, from: int)
    requires
        0 <= from <= t.len(),
        forall|i: int| 0 <= i < t.len() ==> digit_value(#[trigger] t[i]) is Some,
    ensures
        first_invalid(t, from) == t.len(),
    decreases t.len() - from,
{
    if from < t.len() {
        lemma_all_digits_valid(t, from + 1);
    }
}

/// A text of 64 hexadecimal digits is an address, and the textual form of
/// that address is the text in lowercase.
pub proof fn lemma_text_of_parsed(t: Seq<char>)
    requires
        t.len() == 2 * ADDRESS_LENGTH,
        forall|i: int| 0 <= i < t.len() ==> is_hex_char(#[trigger] t[i]),
    ensures
        parse_address(encode_utf8(t)) is Ok,
        parse_address(encode_utf8(t)).unwrap().len() == ADDRESS_LENGTH,
        hex_chars(parse_address(encode_utf8(t)).unwrap()) == Seq::new(
            t.len(),
            |i: int| lower_hex_char(t[i]),
        ),
{
    let bytes = encode_utf8(t);
    assert(is_ascii_chars(t));
    is_ascii_chars_encode_utf8(t);
    assert forall|i: int| 0 <= i < bytes.len() implies digit_value(#[trigger] bytes[i])
        is Some && digit_of(digit_value(bytes[i]).unwrap()) as char == lower_hex_char(t[i]) by {
        assert(is_hex_char(t[i]));
        assert(t[i] as u8 == bytes[i]);
    }
    lemma_all_digits_valid(bytes, 0);
    let b = hex_bytes(bytes);
    assert(b.take(ADDRESS_LENGTH as int) =~= b);
    let lowered = Seq::new(t.len(), |i: int| lower_hex_char(t[i]));
    assert(hex_chars(b) =~= lowered) by {
        assert forall|i: int| 0 <= i < 64 implies hex_chars(b)[i] == lowered[i] by {
            let k = i / 2;
            let hi = digit_value(bytes[2 * k]).unwrap();
            let lo = digit_value(bytes[2 * k + 1]).unwrap();
            assert(0 <= hi < 16 && 0 <= lo < 16);
            assert(b[k] == 16 * hi + lo);
            assert(b[k] as int / 16 == hi);
            assert(b[k] as int % 16 == lo);
            if i % 2 == 0 {
                assert(hex_text(b)[i] == digit_of(hi));
                assert(2 * k == i);
            } else {
                assert(hex_text(b)[i] == digit_of(lo));
                assert(2 * k + 1 == i);
            }
        }
    }
}

} // verus!
