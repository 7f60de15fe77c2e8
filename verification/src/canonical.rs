//! The decoder is strict: whatever it accepts is the encoding of the value
//! it returns, so that every value has one byte form and every accepted
//! byte form one value.

use vstd::prelude::*;
use vstd::utf8::decode_utf8_encode_utf8;
use crate::codec::{
    any_check, any_encodable, any_encoder, any_parser, decode_any, decode_dep, decode_module,
    decode_option, decode_package, dep_check, dep_encodable, dep_encoder, dep_parser, encode_any,
    encode_dep, encode_items, encode_module, encode_option, encode_package, encode_vec,
    module_check, module_encodable, module_encoder, module_parser, option_encodable,
    package_encodable, parse_any, parse_dep, parse_items, parse_module, parse_option,
    parse_package, parse_vec, vec_encodable,
};
use crate::error::DecodeError;
use crate::model::{
    AnyView, ModuleMetadataView, PackageDepView, PackageMetadataView, ADDRESS_LENGTH,
};
use crate::roundtrip::{
    lemma_any_round_trip, lemma_dep_round_trip, lemma_module_round_trip, lemma_option_round_trip,
    lemma_package_round_trip, lemma_subrange_whole,
};
use crate::wire::{
    bytes_encodable, digit_weight, encode_bytes, encode_text, le_u64, le_u64_value, parse_bytes,
    parse_text, parse_u64, parse_uleb128, parse_uleb128_from, text_encodable, uleb128,
};

verus! {

/// Two neighbouring parts of a sequence make up the part that spans both.
pub proof fn lemma_subrange_join(s: Seq<u8>, a: int, b: int, c: int)
    requires
        0 <= a <= b <= c <= s.len(),
    ensures
        s.subrange(a, b) + s.subrange(b, c) == s.subrange(a, c),
{
    assert(s.subrange(a, b) + s.subrange(b, c) =~= s.subrange(a, c));
}

/// What the digits from position `k` on were read as is what `uleb128`
/// writes for their value: the returned number, which the digits add to
/// `acc` at the weight of position `k`.
pub proof fn lemma_uleb128_canonical_from(
    s: Seq<u8>,
    pos: int,
    k: nat,
    acc: nat,
    v: u32,
    p: int,
) -> (n: nat)
    requires
        0 <= pos,
        k <= 4,
        parse_uleb128_from(s, pos, k, acc) == Ok::<(u32, int), DecodeError>((v, p)),
    ensures
        v == acc + n * digit_weight(k),
        k > 0 ==> n > 0,
        pos < p <= s.len(),
        s.subrange(pos, p) == uleb128(n),
    decreases 5 - k,
{
    let w = digit_weight(k);
    let digit = (s[pos] % 128) as nat;
    let value = acc + digit * w;
    if s[pos] < 128 {
        assert(s.subrange(pos, p) =~= uleb128(digit));
        digit
    } else {
        let m = lemma_uleb128_canonical_from(s, pos + 1, k + 1, value, v, p);
        let w2 = digit_weight(k + 1);
        let n = digit + 128 * m;
        assert(w2 == 128 * w);
        assert(value + m * w2 == acc + n * w) by (nonlinear_arith)
            requires
                value == acc + digit * w,
                n == digit + 128 * m,
                w2 == 128 * w,
        ;
        assert(n >= 128 && n % 128 == digit && n / 128 == m);
        assert(uleb128(n) == seq![(n % 128 + 128) as u8] + uleb128(m));
        assert(s.subrange(pos, p) =~= seq![s[pos]] + s.subrange(pos + 1, p));
        n
    }
}

/// A length prefix that was read is the one `uleb128` writes for its value.
pub proof fn lemma_parse_uleb128_canonical(s: Seq<u8>, pos: int, v: u32, p: int)
    requires
        0 <= pos,
        parse_uleb128(s, pos) == Ok::<(u32, int), DecodeError>((v, p)),
    ensures
        pos < p <= s.len(),
        s.subrange(pos, p) == uleb128(v as nat),
{
    let n = lemma_uleb128_canonical_from(s, pos, 0, 0, v, p);
    assert(n * 1 == n);
}

/// Eight bytes that were read as `x` are the eight bytes written for `x`.
pub proof fn lemma_parse_u64_canonical(s: Seq<u8>, pos: int, x: u64, p: int)
    requires
        0 <= pos,
        parse_u64(s, pos) == Ok::<(u64, int), DecodeError>((x, p)),
    ensures
        p == pos + 8 <= s.len(),
        s.subrange(pos, p) == le_u64(x),
{
    let b0 = s[pos] as int;
    let b1 = s[pos + 1] as int;
    let b2 = s[pos + 2] as int;
    let b3 = s[pos + 3] as int;
    let b4 = s[pos + 4] as int;
    let b5 = s[pos + 5] as int;
    let b6 = s[pos + 6] as int;
    let b7 = s[pos + 7] as int;
    let v = le_u64_value(s, pos);
    assert(0 <= v <= u64::MAX);
    let x1 = b1 + 256 * (b2 + 256 * (b3 + 256 * (b4 + 256 * (b5 + 256 * (b6 + 256 * b7)))));
    let x2 = b2 + 256 * (b3 + 256 * (b4 + 256 * (b5 + 256 * (b6 + 256 * b7))));
    let x3 = b3 + 256 * (b4 + 256 * (b5 + 256 * (b6 + 256 * b7)));
    let x4 = b4 + 256 * (b5 + 256 * (b6 + 256 * b7));
    let x5 = b5 + 256 * (b6 + 256 * b7);
    let x6 = b6 + 256 * b7;
    assert(v == b0 + 256 * x1);
    assert(v / 256 == x1 && v % 256 == b0);
    assert(x1 / 256 == x2 && x1 % 256 == b1);
    assert(x2 / 256 == x3 && x2 % 256 == b2);
    assert(x3 / 256 == x4 && x3 % 256 == b3);
    assert(x4 / 256 == x5 && x4 % 256 == b4);
    assert(x5 / 256 == x6 && x5 % 256 == b5);
    assert(x6 / 256 == b7 && x6 % 256 == b6);
    assert(v / 65536 == x2);
    assert(v / 16777216 == x3);
    assert(v / 4294967296 == x4);
    assert(v / 1099511627776 == x5);
    assert(v / 281474976710656 == x6);
    assert(v / 72057594037927936 == b7);
    assert(s.subrange(pos, p) =~= le_u64(x));
}

/// A byte blob that was read stands in the input in its encoded form.
pub proof fn lemma_parse_bytes_canonical(s: Seq<u8>, pos: int, b: Seq<u8>, p: int)
    requires
        0 <= pos,
        parse_bytes(s, pos) == Ok::<(Seq<u8>, int), DecodeError>((b, p)),
    ensures
        pos < p <= s.len(),
        bytes_encodable(b),
        s.subrange(pos, p) == encode_bytes(b),
{
    let (v, q) = parse_uleb128(s, pos).unwrap();
    lemma_parse_uleb128_canonical(s, pos, v, q);
    lemma_subrange_join(s, pos, q, p);
}

/// A text that was read stands in the input in its encoded form.
pub proof fn lemma_parse_text_canonical(s: Seq<u8>, pos: int, t: Seq<char>, p: int)
    requires
        0 <= pos,
        parse_text(s, pos) == Ok::<(Seq<char>, int), DecodeError>((t, p)),
    ensures
        pos < p <= s.len(),
        text_encodable(t),
        s.subrange(pos, p) == encode_text(t),
{
    let (b, q) = parse_bytes(s, pos).unwrap();
    lemma_parse_bytes_canonical(s, pos, b, p);
    decode_utf8_encode_utf8(b);
}

/// Whether whatever `elem` reads from `s` meets `ok` and stands in `s` in
/// the form that `enc` gives it.
pub open spec fn reads_canonically<T>(
    elem: spec_fn(Seq<u8>, int) -> Result<(T, int), DecodeError>,
    enc: spec_fn(T) -> Seq<u8>,
    ok: spec_fn(T) -> bool,
    s: Seq<u8>,
) -> bool {
    forall|p: int|
        0 <= p && (#[trigger] elem(s, p)) is Ok ==> {
            let (x, q) = elem(s, p).unwrap();
            &&& p <= q <= s.len()
            &&& ok(x)
            &&& s.subrange(p, q) == enc(x)
        }
}

/// Elements that were read one after the other stand in the input in
/// their encoded forms, one after the other.
pub proof fn lemma_parse_items_canonical<T>(
    elem: spec_fn(Seq<u8>, int) -> Result<(T, int), DecodeError>,
    enc: spec_fn(T) -> Seq<u8>,
    ok: spec_fn(T) -> bool,
    s: Seq<u8>,
    pos: int,
    n: nat,
    xs: Seq<T>,
    p: int,
)
    requires
        0 <= pos <= s.len(),
        parse_items(elem, s, pos, n) == Ok::<(Seq<T>, int), DecodeError>((xs, p)),
        reads_canonically(elem, enc, ok, s),
    ensures
        xs.len() == n,
        pos <= p <= s.len(),
        forall|i: int| #![trigger xs[i]] 0 <= i < xs.len() ==> ok(xs[i]),
        s.subrange(pos, p) == encode_items(enc, xs),
    decreases n,
{
    if n == 0 {
        assert(s.subrange(pos, p) =~= encode_items(enc, xs));
    } else {
        let (front, q) = parse_items(elem, s, pos, (n - 1) as nat).unwrap();
        lemma_parse_items_canonical(elem, enc, ok, s, pos, (n - 1) as nat, front, q);
        assert(elem(s, q) is Ok);
        let (x, q2) = elem(s, q).unwrap();
        assert(xs == front.push(x));
        assert(xs.drop_last() =~= front);
        assert(xs.last() == x);
        lemma_subrange_join(s, pos, q, p);
        assert forall|i: int| #![trigger xs[i]] 0 <= i < xs.len() implies ok(xs[i]) by {
            if i < front.len() {
                assert(xs[i] == front[i]);
            }
        }
    }
}

/// A sequence that was read stands in the input in its encoded form.
pub proof fn lemma_parse_vec_canonical<T>(
    elem: spec_fn(Seq<u8>, int) -> Result<(T, int), DecodeError>,
    enc: spec_fn(T) -> Seq<u8>,
    ok: spec_fn(T) -> bool,
    s: Seq<u8>,
    pos: int,
    xs: Seq<T>,
    p: int,
)
    requires
        0 <= pos,
        parse_vec(elem, s, pos) == Ok::<(Seq<T>, int), DecodeError>((xs, p)),
        reads_canonically(elem, enc, ok, s),
    ensures
        pos < p <= s.len(),
        vec_encodable(ok, xs),
        s.subrange(pos, p) == encode_vec(enc, xs),
{
    let (v, q) = parse_uleb128(s, pos).unwrap();
    lemma_parse_uleb128_canonical(s, pos, v, q);
    lemma_parse_items_canonical(elem, enc, ok, s, q, v as nat, xs, p);
    lemma_subrange_join(s, pos, q, p);
}

/// An extension payload that was read stands in the input in its encoded
/// form.
pub proof fn lemma_parse_any_canonical(s: Seq<u8>, pos: int, a: AnyView, p: int)
    requires
        0 <= pos,
        parse_any(s, pos) == Ok::<(AnyView, int), DecodeError>((a, p)),
    ensures
        pos < p <= s.len(),
        any_encodable(a),
        s.subrange(pos, p) == encode_any(a),
{
    let (t, p1) = parse_text(s, pos).unwrap();
    lemma_parse_text_canonical(s, pos, t, p1);
    lemma_parse_bytes_canonical(s, p1, a.data, p);
    lemma_subrange_join(s, pos, p1, p);
}

/// Every extension payload is read in its canonical form.
pub proof fn lemma_any_reads_canonically(s: Seq<u8>)
    ensures
        reads_canonically(any_parser(), any_encoder(), any_check(), s),
{
    assert forall|p: int| 0 <= p && (#[trigger] any_parser()(s, p)) is Ok implies {
        let (x, q) = any_parser()(s, p).unwrap();
        &&& p <= q <= s.len()
        &&& any_check()(x)
        &&& s.subrange(p, q) == any_encoder()(x)
    } by {
        let (x, q) = parse_any(s, p).unwrap();
        lemma_parse_any_canonical(s, p, x, q);
    }
}

/// An optional payload that was read stands in the input in its encoded
/// form.
pub proof fn lemma_parse_option_canonical(s: Seq<u8>, pos: int, o: Seq<AnyView>, p: int)
    requires
        0 <= pos,
        parse_option(s, pos) == Ok::<(Seq<AnyView>, int), DecodeError>((o, p)),
    ensures
        pos < p <= s.len(),
        option_encodable(o),
        s.subrange(pos, p) == encode_option(o),
{
    lemma_any_reads_canonically(s);
    lemma_parse_vec_canonical(any_parser(), any_encoder(), any_check(), s, pos, o, p);
}

/// A module that was read stands in the input in its encoded form.
pub proof fn lemma_parse_module_canonical(s: Seq<u8>, pos: int, m: ModuleMetadataView, p: int)
    requires
        0 <= pos,
        parse_module(s, pos) == Ok::<(ModuleMetadataView, int), DecodeError>((m, p)),
    ensures
        pos < p <= s.len(),
        module_encodable(m),
        s.subrange(pos, p) == encode_module(m),
{
    let (name, p1) = parse_text(s, pos).unwrap();
    lemma_parse_text_canonical(s, pos, name, p1);
    let (source, p2) = parse_bytes(s, p1).unwrap();
    lemma_parse_bytes_canonical(s, p1, source, p2);
    let (source_map, p3) = parse_bytes(s, p2).unwrap();
    lemma_parse_bytes_canonical(s, p2, source_map, p3);
    lemma_parse_option_canonical(s, p3, m.extension, p);
    lemma_subrange_join(s, pos, p1, p2);
    lemma_subrange_join(s, pos, p2, p3);
    lemma_subrange_join(s, pos, p3, p);
}

/// Every module is read in its canonical form.
pub proof fn lemma_module_reads_canonically(s: Seq<u8>)
    ensures
        reads_canonically(module_parser(), module_encoder(), module_check(), s),
{
    assert forall|p: int| 0 <= p && (#[trigger] module_parser()(s, p)) is Ok implies {
        let (x, q) = module_parser()(s, p).unwrap();
        &&& p <= q <= s.len()
        &&& module_check()(x)
        &&& s.subrange(p, q) == module_encoder()(x)
    } by {
        let (x, q) = parse_module(s, p).unwrap();
        lemma_parse_module_canonical(s, p, x, q);
    }
}

/// A dependency that was read stands in the input in its encoded form.
pub proof fn lemma_parse_dep_canonical(s: Seq<u8>, pos: int, d: PackageDepView, p: int)
    requires
        0 <= pos,
        parse_dep(s, pos) == Ok::<(PackageDepView, int), DecodeError>((d, p)),
    ensures
        pos < p <= s.len(),
        dep_encodable(d),
        s.subrange(pos, p) == encode_dep(d),
{
    let p1 = pos + ADDRESS_LENGTH;
    lemma_parse_text_canonical(s, p1, d.package_name, p);
    lemma_subrange_join(s, pos, p1, p);
}

/// Every dependency is read in its canonical form.
pub proof fn lemma_dep_reads_canonically(s: Seq<u8>)
    ensures
        reads_canonically(dep_parser(), dep_encoder(), dep_check(), s),
{
    assert forall|p: int| 0 <= p && (#[trigger] dep_parser()(s, p)) is Ok implies {
        let (x, q) = dep_parser()(s, p).unwrap();
        &&& p <= q <= s.len()
        &&& dep_check()(x)
        &&& s.subrange(p, q) == dep_encoder()(x)
    } by {
        let (x, q) = parse_dep(s, p).unwrap();
        lemma_parse_dep_canonical(s, p, x, q);
    }
}

/// A package that was read stands in the input in its encoded form.
pub proof fn lemma_parse_package_canonical(s: Seq<u8>, pos: int, v: PackageMetadataView, p: int)
    requires
        0 <= pos,
        parse_package(s, pos) == Ok::<(PackageMetadataView, int), DecodeError>((v, p)),
    ensures
        pos < p <= s.len(),
        package_encodable(v),
        s.subrange(pos, p) == encode_package(v),
{
    let (name, p1) = parse_text(s, pos).unwrap();
    lemma_parse_text_canonical(s, pos, name, p1);
    let p2 = p1 + 1;
    assert(s.subrange(p1, p2) =~= seq![v.upgrade_policy]);
    let (number, p3) = parse_u64(s, p2).unwrap();
    lemma_parse_u64_canonical(s, p2, number, p3);
    let (digest, p4) = parse_text(s, p3).unwrap();
    lemma_parse_text_canonical(s, p3, digest, p4);
    let (manifest, p5) = parse_bytes(s, p4).unwrap();
    lemma_parse_bytes_canonical(s, p4, manifest, p5);
    let (modules, p6) = parse_vec(module_parser(), s, p5).unwrap();
    lemma_module_reads_canonically(s);
    lemma_parse_vec_canonical(
        module_parser(),
        module_encoder(),
        module_check(),
        s,
        p5,
        modules,
        p6,
    );
    let (deps, p7) = parse_vec(dep_parser(), s, p6).unwrap();
    lemma_dep_reads_canonically(s);
    lemma_parse_vec_canonical(dep_parser(), dep_encoder(), dep_check(), s, p6, deps, p7);
    lemma_parse_option_canonical(s, p7, v.extension, p);
    lemma_subrange_join(s, pos, p1, p2);
    lemma_subrange_join(s, pos, p2, p3);
    lemma_subrange_join(s, pos, p3, p4);
    lemma_subrange_join(s, pos, p4, p5);
    lemma_subrange_join(s, pos, p5, p6);
    lemma_subrange_join(s, pos, p6, p7);
    lemma_subrange_join(s, pos, p7, p);
}

/// A byte string decodes to a package exactly when it is the encoding of
/// that package.
pub proof fn lemma_package_decodes_iff_encoded(s: Seq<u8>, v: PackageMetadataView)
    ensures
        decode_package(s) == Ok::<PackageMetadataView, DecodeError>(v) <==> package_encodable(v)
            && encode_package(v) == s,
{
    if decode_package(s) == Ok::<PackageMetadataView, DecodeError>(v) {
        lemma_parse_package_canonical(s, 0, v, s.len() as int);
        lemma_subrange_whole(s);
    }
    if package_encodable(v) && encode_package(v) == s {
        lemma_package_round_trip(v);
    }
}

/// A byte string decodes to a module exactly when it is the encoding of
/// that module.
pub proof fn lemma_module_decodes_iff_encoded(s: Seq<u8>, m: ModuleMetadataView)
    ensures
        decode_module(s) == Ok::<ModuleMetadataView, DecodeError>(m) <==> module_encodable(m)
            && encode_module(m) == s,
{
    if decode_module(s) == Ok::<ModuleMetadataView, DecodeError>(m) {
        lemma_parse_module_canonical(s, 0, m, s.len() as int);
        lemma_subrange_whole(s);
    }
    if module_encodable(m) && encode_module(m) == s {
        lemma_module_round_trip(m);
    }
}

/// A byte string decodes to a dependency exactly when it is the encoding
/// of that dependency.
pub proof fn lemma_dep_decodes_iff_encoded(s: Seq<u8>, d: PackageDepView)
    ensures
        decode_dep(s) == Ok::<PackageDepView, DecodeError>(d) <==> dep_encodable(d) && encode_dep(
            d,
        ) == s,
{
    if decode_dep(s) == Ok::<PackageDepView, DecodeError>(d) {
        lemma_parse_dep_canonical(s, 0, d, s.len() as int);
        lemma_subrange_whole(s);
    }
    if dep_encodable(d) && encode_dep(d) == s {
        lemma_dep_round_trip(d);
    }
}

/// A byte string decodes to an extension payload exactly when it is the
/// encoding of that payload.
pub proof fn lemma_any_decodes_iff_encoded(s: Seq<u8>, a: AnyView)
    ensures
        decode_any(s) == Ok::<AnyView, DecodeError>(a) <==> any_encodable(a) && encode_any(a)
            == s,
{
    if decode_any(s) == Ok::<AnyView, DecodeError>(a) {
        lemma_parse_any_canonical(s, 0, a, s.len() as int);
        lemma_subrange_whole(s);
    }
    if any_encodable(a) && encode_any(a) == s {
        lemma_any_round_trip(a);
    }
}

/// A byte string decodes to an optional payload exactly when it is the
/// encoding of that option.
pub proof fn lemma_option_decodes_iff_encoded(s: Seq<u8>, o: Seq<AnyView>)
    ensures
        decode_option(s) == Ok::<Seq<AnyView>, DecodeError>(o) <==> option_encodable(o)
            && encode_option(o) == s,
{
    if decode_option(s) == Ok::<Seq<AnyView>, DecodeError>(o) {
        lemma_parse_option_canonical(s, 0, o, s.len() as int);
        lemma_subrange_whole(s);
    }
    if option_encodable(o) && encode_option(o) == s {
        lemma_option_round_trip(o);
    }
}

} // verus!
