//! Primitive encodings of the canonical format: variable-length length
//! prefixes, fixed-width little-endian integers, byte blobs and text.
//!
//! Every reader takes the whole input and a position, and answers with the
//! value and the position just behind it; its specification is a function of
//! the same shape over `Seq<u8>`.

use vstd::prelude::*;
use vstd::slice::{slice_subrange, slice_to_vec};
use vstd::utf8::{
    decode_utf8, encode_utf8, encode_utf8_decode_utf8, encode_utf8_valid_utf8, valid_utf8,
};
use crate::error::{DecodeError, EncodeError};

verus! {

/// Largest length that a length prefix may carry.
pub const MAX_SEQUENCE_LENGTH: usize = 2147483647;

/// The weight of the `k`-th base-128 digit of a length prefix, for the five
/// digits that a 32-bit value can have.
pub open spec fn digit_weight(k: nat) -> nat {
    if k == 0 {
        1
    } else if k == 1 {
        128
    } else if k == 2 {
        16384
    } else if k == 3 {
        2097152
    } else {
        268435456
    }
}

/// The variable-length encoding of `n`: base-128 digits, least significant
/// first, every byte but the last with its high bit set.
pub open spec fn uleb128(n: nat) -> Seq<u8>
    decreases n,
{
    if n < 128 {
        seq![n as u8]
    } else {
        seq![(n % 128 + 128) as u8] + uleb128(n / 128)
    }
}

/// Reading a length prefix digit by digit: `k` digits have been read and
/// have the value `acc`.
pub open spec fn parse_uleb128_from(s: Seq<u8>, pos: int, k: nat, acc: nat) -> Result<
    (u32, int),
    DecodeError,
>
    decreases 5 - k,
{
    if pos < 0 || pos >= s.len() {
        Err(DecodeError::Eof)
    } else {
        let digit = (s[pos] % 128) as nat;
        let value = acc + digit * digit_weight(k);
        if s[pos] < 128 {
            if k > 0 && digit == 0 {
                Err(DecodeError::NonCanonicalUleb128)
            } else if value > u32::MAX {
                Err(DecodeError::Uleb128Overflow)
            } else {
                Ok((value as u32, pos + 1))
            }
        } else if k >= 4 {
            Err(DecodeError::Uleb128Overflow)
        } else {
            parse_uleb128_from(s, pos + 1, k + 1, value)
        }
    }
}

/// The length prefix that starts at `pos`, and the position behind it.
pub open spec fn parse_uleb128(s: Seq<u8>, pos: int) -> Result<(u32, int), DecodeError> {
    parse_uleb128_from(s, pos, 0, 0)
}

/// Reading what `uleb128` wrote gives the value back, from any digit
/// position that leaves room for it.
pub proof fn lemma_parse_uleb128_from(s: Seq<u8>, pos: int, k: nat, acc: nat, n: nat)
    requires
        0 <= pos,
        k <= 4,
        pos + uleb128(n).len() <= s.len(),
        s.subrange(pos, pos + uleb128(n).len()) == uleb128(n),
        acc + n * digit_weight(k) <= u32::MAX,
        k > 0 ==> n > 0,
    ensures
        parse_uleb128_from(s, pos, k, acc) == Ok::<(u32, int), DecodeError>(
            ((acc + n * digit_weight(k)) as u32, pos + uleb128(n).len()),
        ),
    decreases n,
{
    let enc = uleb128(n);
    let w = digit_weight(k);
    assert(s[pos] == s.subrange(pos, pos + enc.len())[0]);
    if n < 128 {
        assert(s[pos] == n as u8);
    } else {
        let rest = uleb128(n / 128);
        assert(enc[0] == (n % 128 + 128) as u8);
        assert(enc.len() == 1 + rest.len());
        assert(s[pos] >= 128);
        assert(s[pos] % 128 == n % 128);
        assert(k <= 3);
        assert(s.subrange(pos + 1, pos + 1 + rest.len()) =~= rest) by {
            assert forall|i: int| 0 <= i < rest.len() implies s.subrange(
                pos + 1,
                pos + 1 + rest.len(),
            )[i] == rest[i] by {
                assert(s.subrange(pos, pos + enc.len())[i + 1] == enc[i + 1]);
            }
        }
        let q = n / 128;
        let r = n % 128;
        let w2 = digit_weight(k + 1);
        let acc2 = acc + r * w;
        assert(w2 == 128 * w);
        assert(r * w + q * w2 == n * w) by (nonlinear_arith)
            requires
                n == 128 * q + r,
                w2 == 128 * w,
        ;
        assert(0 <= r * w) by (nonlinear_arith)
            requires
                0 <= r,
                0 <= w,
        ;
        lemma_parse_uleb128_from(s, pos + 1, k + 1, acc2, n / 128);
    }
}

/// Reading an encoded length prefix gives the length back.
pub proof fn lemma_parse_uleb128(s: Seq<u8>, pos: int, n: nat)
    requires
        0 <= pos,
        n <= u32::MAX,
        pos + uleb128(n).len() <= s.len(),
        s.subrange(pos, pos + uleb128(n).len()) == uleb128(n),
    ensures
        parse_uleb128(s, pos) == Ok::<(u32, int), DecodeError>(
            (n as u32, pos + uleb128(n).len()),
        ),
{
    lemma_parse_uleb128_from(s, pos, 0, 0, n);
}

/// Appends the length prefix for `n` to `out`.
pub fn write_uleb128(out: &mut Vec<u8>, n: u32)
    ensures
        final(out)@ == old(out)@ + uleb128(n as nat),
{
    let mut v: u32 = n;
    while v >= 128
        invariant
            old(out)@ + uleb128(n as nat) == out@ + uleb128(v as nat),
        decreases v,
    {
        let ghost before = out@;
        out.push((v % 128 + 128) as u8);
        proof {
            assert(before + uleb128(v as nat) =~= out@ + uleb128((v / 128) as nat));
        }
        v = v / 128;
    }
    let ghost before = out@;
    out.push(v as u8);
    proof {
        assert(before + uleb128(v as nat) =~= out@);
    }
}

/// Reads the length prefix that starts at `pos`.
pub fn read_uleb128(bytes: &[u8], pos: usize) -> (res: Result<(u32, usize), DecodeError>)
    ensures
        match res {
            Ok((v, p)) => parse_uleb128(bytes@, pos as int) == Ok::<(u32, int), DecodeError>(
                (v, p as int),
            ) && pos < p <= bytes@.len(),
            Err(e) => parse_uleb128(bytes@, pos as int) == Err::<(u32, int), DecodeError>(e),
        },
{
    let mut value: u64 = 0;
    let mut weight: u64 = 1;
    let mut k: usize = 0;
    let mut p: usize = pos;
    loop
        invariant
            k <= 4,
            weight == digit_weight(k as nat),
            value < weight,
            pos <= p,
            k > 0 ==> pos < p <= bytes@.len(),
            parse_uleb128(bytes@, pos as int) == parse_uleb128_from(
                bytes@,
                p as int,
                k as nat,
                value as nat,
            ),
        decreases 4 - k,
    {
        if p >= bytes.len() {
            return Err(DecodeError::Eof);
        }
        let b: u8 = bytes[p];
        let digit: u64 = (b % 128) as u64;
        assert(digit * weight <= 127 * 268435456) by (nonlinear_arith)
            requires
                digit <= 127,
                weight <= 268435456,
        ;
        let next: u64 = value + digit * weight;
        if b < 128 {
            if k > 0 && digit == 0 {
                return Err(DecodeError::NonCanonicalUleb128);
            }
            if next > 0xffff_ffff {
                return Err(DecodeError::Uleb128Overflow);
            }
            return Ok((next as u32, p + 1));
        }
        if k >= 4 {
            return Err(DecodeError::Uleb128Overflow);
        }
        proof {
            assert(digit * weight <= 127 * weight) by (nonlinear_arith)
                requires
                    digit <= 127,
            ;
        }
        value = next;
        weight = weight * 128;
        k = k + 1;
        p = p + 1;
    }
}

/// The eight bytes of `x`, least significant first.
pub open spec fn le_u64(x: u64) -> Seq<u8> {
    seq![
        (x % 256) as u8,
        (x / 256 % 256) as u8,
        (x / 65536 % 256) as u8,
        (x / 16777216 % 256) as u8,
        (x / 4294967296 % 256) as u8,
        (x / 1099511627776 % 256) as u8,
        (x / 281474976710656 % 256) as u8,
        (x / 72057594037927936 % 256) as u8,
    ]
}

/// The number whose eight little-endian bytes start at `pos`.
pub open spec fn le_u64_value(s: Seq<u8>, pos: int) -> int {
    s[pos] + 256 * s[pos + 1] + 65536 * s[pos + 2] + 16777216 * s[pos + 3] + 4294967296 * s[pos
        + 4] + 1099511627776 * s[pos + 5] + 281474976710656 * s[pos + 6] + 72057594037927936
        * s[pos + 7]
}

/// The byte at `pos`, and the position behind it.
pub open spec fn parse_u8(s: Seq<u8>, pos: int) -> Result<(u8, int), DecodeError> {
    if pos < 0 || pos >= s.len() {
        Err(DecodeError::Eof)
    } else {
        Ok((s[pos], pos + 1))
    }
}

/// The 64-bit integer at `pos`, and the position behind it.
pub open spec fn parse_u64(s: Seq<u8>, pos: int) -> Result<(u64, int), DecodeError> {
    if pos < 0 || pos + 8 > s.len() {
        Err(DecodeError::Eof)
    } else {
        Ok((le_u64_value(s, pos) as u64, pos + 8))
    }
}

/// The `n` bytes that start at `pos`, and the position behind them.
pub open spec fn parse_fixed(s: Seq<u8>, pos: int, n: nat) -> Result<(Seq<u8>, int), DecodeError> {
    if pos < 0 || pos + n > s.len() {
        Err(DecodeError::Eof)
    } else {
        Ok((s.subrange(pos, pos + n), pos + n))
    }
}

/// The length that the prefix at `pos` carries, and the position behind the
/// prefix.
pub open spec fn parse_len(s: Seq<u8>, pos: int) -> Result<(nat, int), DecodeError> {
    match parse_uleb128(s, pos) {
        Err(e) => Err(e),
        Ok((v, p)) => if v > MAX_SEQUENCE_LENGTH {
            Err(DecodeError::ExceededMaxLen)
        } else {
            Ok((v as nat, p))
        },
    }
}

/// A byte blob on the wire: its length prefix, then its bytes.
pub open spec fn encode_bytes(b: Seq<u8>) -> Seq<u8> {
    uleb128(b.len()) + b
}

/// The byte blob at `pos`, and the position behind it.
pub open spec fn parse_bytes(s: Seq<u8>, pos: int) -> Result<(Seq<u8>, int), DecodeError> {
    match parse_len(s, pos) {
        Err(e) => Err(e),
        Ok((n, p)) => parse_fixed(s, p, n),
    }
}

/// A text on the wire: the byte blob of its UTF-8 encoding.
pub open spec fn encode_text(t: Seq<char>) -> Seq<u8> {
    encode_bytes(encode_utf8(t))
}

/// The text at `pos`, and the position behind it.
pub open spec fn parse_text(s: Seq<u8>, pos: int) -> Result<(Seq<char>, int), DecodeError> {
    match parse_bytes(s, pos) {
        Err(e) => Err(e),
        Ok((b, p)) => if valid_utf8(b) {
            Ok((decode_utf8(b), p))
        } else {
            Err(DecodeError::Utf8)
        },
    }
}

/// Whether a byte blob is short enough for a length prefix.
pub open spec fn bytes_encodable(b: Seq<u8>) -> bool {
    b.len() <= MAX_SEQUENCE_LENGTH
}

/// Whether a text is short enough, in bytes, for a length prefix.
pub open spec fn text_encodable(t: Seq<char>) -> bool {
    encode_utf8(t).len() <= MAX_SEQUENCE_LENGTH
}

/// Reading the eight bytes of `x` gives `x` back.
pub proof fn lemma_parse_u64(s: Seq<u8>, pos: int, x: u64)
    requires
        0 <= pos,
        pos + 8 <= s.len(),
        s.subrange(pos, pos + 8) == le_u64(x),
    ensures
        parse_u64(s, pos) == Ok::<(u64, int), DecodeError>((x, pos + 8)),
{
    let e = le_u64(x);
    let t = s.subrange(pos, pos + 8);
    assert(s[pos] == t[0] && s[pos + 1] == t[1] && s[pos + 2] == t[2] && s[pos + 3] == t[3]);
    assert(s[pos + 4] == t[4] && s[pos + 5] == t[5] && s[pos + 6] == t[6] && s[pos + 7] == t[7]);
    let x1 = x / 256;
    let x2 = x1 / 256;
    let x3 = x2 / 256;
    let x4 = x3 / 256;
    let x5 = x4 / 256;
    let x6 = x5 / 256;
    let x7 = x6 / 256;
    assert(x2 == x / 65536);
    assert(x3 == x / 16777216);
    assert(x4 == x / 4294967296);
    assert(x5 == x / 1099511627776);
    assert(x6 == x / 281474976710656);
    assert(x7 == x / 72057594037927936);
    assert(x7 < 256);
    assert(x == x % 256 + 256 * (x1 % 256) + 65536 * (x2 % 256) + 16777216 * (x3 % 256)
        + 4294967296 * (x4 % 256) + 1099511627776 * (x5 % 256) + 281474976710656 * (x6 % 256)
        + 72057594037927936 * x7);
}

/// Reading an encoded byte blob gives the blob back.
pub proof fn lemma_parse_bytes(s: Seq<u8>, pos: int, b: Seq<u8>)
    requires
        0 <= pos,
        bytes_encodable(b),
        pos + encode_bytes(b).len() <= s.len(),
        s.subrange(pos, pos + encode_bytes(b).len()) == encode_bytes(b),
    ensures
        parse_bytes(s, pos) == Ok::<(Seq<u8>, int), DecodeError>(
            (b, pos + encode_bytes(b).len()),
        ),
{
    let head = uleb128(b.len());
    let enc = encode_bytes(b);
    let whole = s.subrange(pos, pos + enc.len());
    assert(s.subrange(pos, pos + head.len()) =~= head) by {
        assert forall|i: int| 0 <= i < head.len() implies s.subrange(pos, pos + head.len())[i]
            == head[i] by {
            assert(whole[i] == enc[i]);
        }
    }
    lemma_parse_uleb128(s, pos, b.len());
    let p = pos + head.len();
    assert(s.subrange(p, p + b.len()) =~= b) by {
        assert forall|i: int| 0 <= i < b.len() implies s.subrange(p, p + b.len())[i] == b[i] by {
            assert(whole[head.len() + i] == enc[head.len() + i]);
        }
    }
}

/// Reading an encoded text gives the text back.
pub proof fn lemma_parse_text(s: Seq<u8>, pos: int, t: Seq<char>)
    requires
        0 <= pos,
        text_encodable(t),
        pos + encode_text(t).len() <= s.len(),
        s.subrange(pos, pos + encode_text(t).len()) == encode_text(t),
    ensures
        parse_text(s, pos) == Ok::<(Seq<char>, int), DecodeError>(
            (t, pos + encode_text(t).len()),
        ),
{
    lemma_parse_bytes(s, pos, encode_utf8(t));
    encode_utf8_valid_utf8(t);
    encode_utf8_decode_utf8(t);
}

/// Appends `data` to `out`.
pub fn append_bytes(out: &mut Vec<u8>, data: &[u8])
    ensures
        final(out)@ == old(out)@ + data@,
{
    let mut i: usize = 0;
    while i < data.len()
        invariant
            i <= data@.len(),
            out@ == old(out)@ + data@.take(i as int),
        decreases data@.len() - i,
    {
        out.push(data[i]);
        i = i + 1;
        assert(out@ =~= old(out)@ + data@.take(i as int));
    }
    assert(data@.take(i as int) =~= data@);
}

/// Appends the eight little-endian bytes of `x` to `out`.
pub fn write_u64(out: &mut Vec<u8>, x: u64)
    ensures
        final(out)@ == old(out)@ + le_u64(x),
{
    out.push((x % 256) as u8);
    out.push((x / 256 % 256) as u8);
    out.push((x / 65536 % 256) as u8);
    out.push((x / 16777216 % 256) as u8);
    out.push((x / 4294967296 % 256) as u8);
    out.push((x / 1099511627776 % 256) as u8);
    out.push((x / 281474976710656 % 256) as u8);
    out.push((x / 72057594037927936 % 256) as u8);
    assert(out@ =~= old(out)@ + le_u64(x));
}

/// Appends the length prefix for `len` to `out`, or refuses a length that
/// the format cannot carry and leaves `out` as it was.
pub fn write_len(out: &mut Vec<u8>, len: usize) -> (res: Result<(), EncodeError>)
    ensures
        res is Ok <==> len <= MAX_SEQUENCE_LENGTH,
        res is Ok ==> final(out)@ == old(out)@ + uleb128(len as nat),
        res is Err ==> final(out)@ == old(out)@,
{
    if len > MAX_SEQUENCE_LENGTH {
        return Err(EncodeError::ExceededMaxLen);
    }
    write_uleb128(out, len as u32);
    Ok(())
}

/// Appends the encoding of the byte blob `data` to `out`, or refuses a blob
/// that is too long and leaves `out` as it was.
pub fn write_bytes(out: &mut Vec<u8>, data: &[u8]) -> (res: Result<(), EncodeError>)
    ensures
        res is Ok <==> bytes_encodable(data@),
        res is Ok ==> final(out)@ == old(out)@ + encode_bytes(data@),
        res is Err ==> final(out)@ == old(out)@,
{
    match write_len(out, data.len()) {
        Err(e) => Err(e),
        Ok(()) => {
            append_bytes(out, data);
            assert(out@ =~= old(out)@ + encode_bytes(data@));
            Ok(())
        },
    }
}

/// Appends the encoding of `text` to `out`, or refuses a text whose UTF-8
/// form is too long and leaves `out` as it was.
pub fn write_text(out: &mut Vec<u8>, text: &str) -> (res: Result<(), EncodeError>)
    ensures
        res is Ok <==> text_encodable(text@),
        res is Ok ==> final(out)@ == old(out)@ + encode_text(text@),
        res is Err ==> final(out)@ == old(out)@,
{
    write_bytes(out, text.as_bytes())
}

/// Reads the byte at `pos`.
pub fn read_u8(bytes: &[u8], pos: usize) -> (res: Result<(u8, usize), DecodeError>)
    ensures
        match res {
            Ok((v, p)) => parse_u8(bytes@, pos as int) == Ok::<(u8, int), DecodeError>(
                (v, p as int),
            ) && pos <= p <= bytes@.len(),
            Err(e) => parse_u8(bytes@, pos as int) == Err::<(u8, int), DecodeError>(e),
        },
{
    if pos >= bytes.len() {
        return Err(DecodeError::Eof);
    }
    Ok((bytes[pos], pos + 1))
}

/// Reads the 64-bit integer at `pos`.
pub fn read_u64(bytes: &[u8], pos: usize) -> (res: Result<(u64, usize), DecodeError>)
    ensures
        match res {
            Ok((v, p)) => parse_u64(bytes@, pos as int) == Ok::<(u64, int), DecodeError>(
                (v, p as int),
            ) && pos <= p <= bytes@.len(),
            Err(e) => parse_u64(bytes@, pos as int) == Err::<(u64, int), DecodeError>(e),
        },
{
    if pos > bytes.len() || bytes.len() - pos < 8 {
        return Err(DecodeError::Eof);
    }
    let b0: u64 = bytes[pos] as u64;
    let b1: u64 = bytes[pos + 1] as u64;
    let b2: u64 = bytes[pos + 2] as u64;
    let b3: u64 = bytes[pos + 3] as u64;
    let b4: u64 = bytes[pos + 4] as u64;
    let b5: u64 = bytes[pos + 5] as u64;
    let b6: u64 = bytes[pos + 6] as u64;
    let b7: u64 = bytes[pos + 7] as u64;
    let v: u64 = b0 + 256 * b1 + 65536 * b2 + 16777216 * b3 + 4294967296 * b4 + 1099511627776
        * b5 + 281474976710656 * b6 + 72057594037927936 * b7;
    Ok((v, pos + 8))
}

/// Reads the `n` bytes that start at `pos`.
pub fn read_fixed(bytes: &[u8], pos: usize, n: usize) -> (res: Result<
    (Vec<u8>, usize),
    DecodeError,
>)
    ensures
        match res {
            Ok((v, p)) => parse_fixed(bytes@, pos as int, n as nat) == Ok::<
                (Seq<u8>, int),
                DecodeError,
            >((v@, p as int)) && pos <= p <= bytes@.len(),
            Err(e) => parse_fixed(bytes@, pos as int, n as nat) == Err::<
                (Seq<u8>, int),
                DecodeError,
            >(e),
        },
{
    if pos > bytes.len() || bytes.len() - pos < n {
        return Err(DecodeError::Eof);
    }
    let v = slice_to_vec(slice_subrange(bytes, pos, pos + n));
    Ok((v, pos + n))
}

/// Reads the length prefix at `pos` and holds it to the format's limit.
pub fn read_len(bytes: &[u8], pos: usize) -> (res: Result<(usize, usize), DecodeError>)
    ensures
        match res {
            Ok((v, p)) => parse_len(bytes@, pos as int) == Ok::<(nat, int), DecodeError>(
                (v as nat, p as int),
            ) && pos <= p <= bytes@.len() && v <= MAX_SEQUENCE_LENGTH,
            Err(e) => parse_len(bytes@, pos as int) == Err::<(nat, int), DecodeError>(e),
        },
{
    match read_uleb128(bytes, pos) {
        Err(e) => Err(e),
        Ok((v, p)) => {
            if v > 2147483647 {
                Err(DecodeError::ExceededMaxLen)
            } else {
                Ok((v as usize, p))
            }
        },
    }
}

/// Reads the byte blob at `pos`.
pub fn read_bytes(bytes: &[u8], pos: usize) -> (res: Result<(Vec<u8>, usize), DecodeError>)
    ensures
        match res {
            Ok((v, p)) => parse_bytes(bytes@, pos as int) == Ok::<(Seq<u8>, int), DecodeError>(
                (v@, p as int),
            ) && pos <= p <= bytes@.len(),
            Err(e) => parse_bytes(bytes@, pos as int) == Err::<(Seq<u8>, int), DecodeError>(e),
        },
{
    match read_len(bytes, pos) {
        Err(e) => Err(e),
        Ok((n, p)) => read_fixed(bytes, p, n),
    }
}

/// `String::from_utf8` of the standard library, with the error dropped:
/// the bytes become a string exactly when they are valid UTF-8, and the
/// string then has those bytes.
#[verifier::external_body]
pub(crate) fn string_from_utf8(v: Vec<u8>) -> (res: Option<String>)
    ensures
        res is Some <==> valid_utf8(v@),
        res matches Some(s) ==> encode_utf8(s@) == v@,
{
    match String::from_utf8(v) {
        Ok(s) => Some(s),
        Err(_) => None,
    }
}

/// Reads the text at `pos`.
pub fn read_text(bytes: &[u8], pos: usize) -> (res: Result<(String, usize), DecodeError>)
    ensures
        match res {
            Ok((v, p)) => parse_text(bytes@, pos as int) == Ok::<(Seq<char>, int), DecodeError>(
                (v@, p as int),
            ) && pos <= p <= bytes@.len(),
            Err(e) => parse_text(bytes@, pos as int) == Err::<(Seq<char>, int), DecodeError>(e),
        },
{
    match read_bytes(bytes, pos) {
        Err(e) => Err(e),
        Ok((raw, p)) => {
            match string_from_utf8(raw) {
                None => Err(DecodeError::Utf8),
                Some(s) => {
                    proof {
                        encode_utf8_decode_utf8(s@);
                    }
                    Ok((s, p))
                },
            }
        },
    }
}

} // verus!
