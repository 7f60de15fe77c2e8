//! What holds between the encoder and the decoder: reading what was written
//! gives the value back, so that no two values share an encoding.

use vstd::prelude::*;
use crate::codec::{
    any_check, any_encodable, any_encoder, any_parser, decode_any, decode_dep, decode_module,
    decode_option, decode_package, dep_check, dep_encodable, dep_encoder, dep_parser, encode_any,
    encode_dep, encode_items, encode_module, encode_option, encode_package, encode_vec,
    module_check, module_encodable, module_encoder, module_parser, option_encodable,
    package_encodable, parse_any, parse_dep, parse_items, parse_module, parse_option,
    parse_package, parse_vec,
};
use crate::error::DecodeError;
use crate::model::{
    AnyView, ModuleMetadataView, PackageDepView, PackageMetadataView, ADDRESS_LENGTH,
};
use crate::wire::{
    encode_bytes, encode_text, le_u64, lemma_parse_bytes, lemma_parse_text, lemma_parse_u64,
    lemma_parse_uleb128, uleb128, MAX_SEQUENCE_LENGTH,
};

verus! {

/// Where `a + b` stands in `s` at `pos`, `a` stands at `pos` and `b` right
/// behind it.
pub proof fn lemma_subrange_concat(s: Seq<u8>, pos: int, a: Seq<u8>, b: Seq<u8>)
    requires
        0 <= pos,
        pos + (a + b).len() <= s.len(),
        s.subrange(pos, pos + (a + b).len()) == a + b,
    ensures
        pos + a.len() + b.len() <= s.len(),
        s.subrange(pos, pos + a.len()) == a,
        s.subrange(pos + a.len(), pos + a.len() + b.len()) == b,
{
    let whole = s.subrange(pos, pos + (a + b).len());
    assert(s.subrange(pos, pos + a.len()) =~= a) by {
        assert forall|i: int| 0 <= i < a.len() implies s.subrange(pos, pos + a.len())[i]
            == a[i] by {
            assert(whole[i] == (a + b)[i]);
        }
    }
    assert(s.subrange(pos + a.len(), pos + a.len() + b.len()) =~= b) by {
        assert forall|i: int| 0 <= i < b.len() implies s.subrange(
            pos + a.len(),
            pos + a.len() + b.len(),
        )[i] == b[i] by {
            assert(whole[a.len() + i] == (a + b)[a.len() + i]);
        }
    }
}

/// A sequence is the part of itself from its start to its end.
pub proof fn lemma_subrange_whole(s: Seq<u8>)
    ensures
        s.subrange(0, s.len() as int) == s,
{
    assert(s.subrange(0, s.len() as int) =~= s);
}

/// Whether `elem` reads `x` back wherever in `s` the encoding `enc(x)`
/// stands.
pub open spec fn inverts<T>(
    elem: spec_fn(Seq<u8>, int) -> Result<(T, int), DecodeError>,
    enc: spec_fn(T) -> Seq<u8>,
    s: Seq<u8>,
    x: T,
) -> bool {
    forall|p: int|
        0 <= p && p + enc(x).len() <= s.len() && s.subrange(p, p + enc(x).len()) == enc(x)
            ==> #[trigger] elem(s, p) == Ok::<(T, int), DecodeError>((x, p + enc(x).len()))
}

/// Reading as many elements as were written gives them back, if each is
/// read back by `elem`.
pub proof fn lemma_parse_items<T>(
    elem: spec_fn(Seq<u8>, int) -> Result<(T, int), DecodeError>,
    enc: spec_fn(T) -> Seq<u8>,
    s: Seq<u8>,
    pos: int,
    xs: Seq<T>,
)
    requires
        0 <= pos,
        pos + encode_items(enc, xs).len() <= s.len(),
        s.subrange(pos, pos + encode_items(enc, xs).len()) == encode_items(enc, xs),
        forall|i: int| #![trigger xs[i]] 0 <= i < xs.len() ==> inverts(elem, enc, s, xs[i]),
    ensures
        parse_items(elem, s, pos, xs.len()) == Ok::<(Seq<T>, int), DecodeError>(
            (xs, pos + encode_items(enc, xs).len()),
        ),
    decreases xs.len(),
{
    if xs.len() == 0 {
        assert(xs =~= Seq::<T>::empty());
    } else {
        let front = xs.drop_last();
        let x = xs.last();
        lemma_subrange_concat(s, pos, encode_items(enc, front), enc(x));
        assert forall|i: int| #![trigger front[i]] 0 <= i < front.len() implies inverts(
            elem,
            enc,
            s,
            front[i],
        ) by {
            assert(front[i] == xs[i]);
        }
        lemma_parse_items(elem, enc, s, pos, front);
        let p = pos + encode_items(enc, front).len();
        assert(inverts(elem, enc, s, xs[xs.len() - 1]));
        assert(elem(s, p) == Ok::<(T, int), DecodeError>((x, p + enc(x).len())));
        assert(front.push(x) =~= xs);
        assert((xs.len() - 1) as nat == front.len());
    }
}

/// Reading an encoded sequence gives the sequence back, if each element is
/// read back by `elem`.
pub proof fn lemma_parse_vec<T>(
    elem: spec_fn(Seq<u8>, int) -> Result<(T, int), DecodeError>,
    enc: spec_fn(T) -> Seq<u8>,
    s: Seq<u8>,
    pos: int,
    xs: Seq<T>,
)
    requires
        0 <= pos,
        xs.len() <= MAX_SEQUENCE_LENGTH,
        pos + encode_vec(enc, xs).len() <= s.len(),
        s.subrange(pos, pos + encode_vec(enc, xs).len()) == encode_vec(enc, xs),
        forall|i: int| #![trigger xs[i]] 0 <= i < xs.len() ==> inverts(elem, enc, s, xs[i]),
    ensures
        parse_vec(elem, s, pos) == Ok::<(Seq<T>, int), DecodeError>(
            (xs, pos + encode_vec(enc, xs).len()),
        ),
{
    lemma_subrange_concat(s, pos, uleb128(xs.len()), encode_items(enc, xs));
    lemma_parse_uleb128(s, pos, xs.len());
    lemma_parse_items(elem, enc, s, pos + uleb128(xs.len()).len(), xs);
}

/// Reading an encoded extension payload gives the payload back.
pub proof fn lemma_parse_any(s: Seq<u8>, pos: int, a: AnyView)
    requires
        0 <= pos,
        any_encodable(a),
        pos + encode_any(a).len() <= s.len(),
        s.subrange(pos, pos + encode_any(a).len()) == encode_any(a),
    ensures
        parse_any(s, pos) == Ok::<(AnyView, int), DecodeError>((a, pos + encode_any(a).len())),
{
    lemma_subrange_concat(s, pos, encode_text(a.type_tag), encode_bytes(a.data));
    lemma_parse_text(s, pos, a.type_tag);
    lemma_parse_bytes(s, pos + encode_text(a.type_tag).len(), a.data);
}

/// Reading an encoded optional payload gives the option back.
pub proof fn lemma_parse_option(s: Seq<u8>, pos: int, o: Seq<AnyView>)
    requires
        0 <= pos,
        option_encodable(o),
        pos + encode_option(o).len() <= s.len(),
        s.subrange(pos, pos + encode_option(o).len()) == encode_option(o),
    ensures
        parse_option(s, pos) == Ok::<(Seq<AnyView>, int), DecodeError>(
            (o, pos + encode_option(o).len()),
        ),
{
    assert forall|i: int| #![trigger o[i]] 0 <= i < o.len() implies inverts(
        any_parser(),
        any_encoder(),
        s,
        o[i],
    ) by {
        let x = o[i];
        assert(any_check()(x));
        assert forall|p: int|
            0 <= p && p + any_encoder()(x).len() <= s.len() && s.subrange(
                p,
                p + any_encoder()(x).len(),
            ) == any_encoder()(x) implies #[trigger] any_parser()(s, p) == Ok::<
            (AnyView, int),
            DecodeError,
        >((x, p + any_encoder()(x).len())) by {
            lemma_parse_any(s, p, x);
        }
    }
    lemma_parse_vec(any_parser(), any_encoder(), s, pos, o);
}

/// Reading an encoded module gives the module back.
pub proof fn lemma_parse_module(s: Seq<u8>, pos: int, m: ModuleMetadataView)
    requires
        0 <= pos,
        module_encodable(m),
        pos + encode_module(m).len() <= s.len(),
        s.subrange(pos, pos + encode_module(m).len()) == encode_module(m),
    ensures
        parse_module(s, pos) == Ok::<(ModuleMetadataView, int), DecodeError>(
            (m, pos + encode_module(m).len()),
        ),
{
    let a = encode_text(m.name);
    let b = encode_bytes(m.source);
    let c = encode_bytes(m.source_map);
    let d = encode_option(m.extension);
    lemma_subrange_concat(s, pos, a + b + c, d);
    lemma_subrange_concat(s, pos, a + b, c);
    lemma_subrange_concat(s, pos, a, b);
    lemma_parse_text(s, pos, m.name);
    lemma_parse_bytes(s, pos + a.len(), m.source);
    lemma_parse_bytes(s, pos + a.len() + b.len(), m.source_map);
    lemma_parse_option(s, pos + a.len() + b.len() + c.len(), m.extension);
}

/// Reading an encoded dependency gives the dependency back.
pub proof fn lemma_parse_dep(s: Seq<u8>, pos: int, d: PackageDepView)
    requires
        0 <= pos,
        dep_encodable(d),
        pos + encode_dep(d).len() <= s.len(),
        s.subrange(pos, pos + encode_dep(d).len()) == encode_dep(d),
    ensures
        parse_dep(s, pos) == Ok::<(PackageDepView, int), DecodeError>(
            (d, pos + encode_dep(d).len()),
        ),
{
    lemma_subrange_concat(s, pos, d.account, encode_text(d.package_name));
    lemma_parse_text(s, pos + ADDRESS_LENGTH, d.package_name);
}

/// Reading an encoded package gives the package back.
pub proof fn lemma_parse_package(s: Seq<u8>, pos: int, v: PackageMetadataView)
    requires
        0 <= pos,
        package_encodable(v),
        pos + encode_package(v).len() <= s.len(),
        s.subrange(pos, pos + encode_package(v).len()) == encode_package(v),
    ensures
        parse_package(s, pos) == Ok::<(PackageMetadataView, int), DecodeError>(
            (v, pos + encode_package(v).len()),
        ),
{
    let a = encode_text(v.name);
    let b = seq![v.upgrade_policy];
    let c = le_u64(v.upgrade_number);
    let d = encode_text(v.source_digest);
    let e = encode_bytes(v.manifest);
    let f = encode_vec(module_encoder(), v.modules);
    let g = encode_vec(dep_encoder(), v.deps);
    let h = encode_option(v.extension);
    lemma_subrange_concat(s, pos, a + b + c + d + e + f + g, h);
    lemma_subrange_concat(s, pos, a + b + c + d + e + f, g);
    lemma_subrange_concat(s, pos, a + b + c + d + e, f);
    lemma_subrange_concat(s, pos, a + b + c + d, e);
    lemma_subrange_concat(s, pos, a + b + c, d);
    lemma_subrange_concat(s, pos, a + b, c);
    lemma_subrange_concat(s, pos, a, b);
    let p1 = pos + a.len();
    let p2 = p1 + 1;
    let p3 = p2 + 8;
    let p4 = p3 + d.len();
    let p5 = p4 + e.len();
    let p6 = p5 + f.len();
    let p7 = p6 + g.len();
    lemma_parse_text(s, pos, v.name);
    assert(s[p1] == s.subrange(p1, p1 + 1)[0]);
    lemma_parse_u64(s, p2, v.upgrade_number);
    lemma_parse_text(s, p3, v.source_digest);
    lemma_parse_bytes(s, p4, v.manifest);
    assert forall|i: int| #![trigger v.modules[i]] 0 <= i < v.modules.len() implies inverts(
        module_parser(),
        module_encoder(),
        s,
        v.modules[i],
    ) by {
        let x = v.modules[i];
        assert(module_check()(x));
        assert forall|p: int|
            0 <= p && p + module_encoder()(x).len() <= s.len() && s.subrange(
                p,
                p + module_encoder()(x).len(),
            ) == module_encoder()(x) implies #[trigger] module_parser()(s, p) == Ok::<
            (ModuleMetadataView, int),
            DecodeError,
        >((x, p + module_encoder()(x).len())) by {
            lemma_parse_module(s, p, x);
        }
    }
    lemma_parse_vec(module_parser(), module_encoder(), s, p5, v.modules);
    assert forall|i: int| #![trigger v.deps[i]] 0 <= i < v.deps.len() implies inverts(
        dep_parser(),
        dep_encoder(),
        s,
        v.deps[i],
    ) by {
        let x = v.deps[i];
        assert(dep_check()(x));
        assert forall|p: int|
            0 <= p && p + dep_encoder()(x).len() <= s.len() && s.subrange(
                p,
                p + dep_encoder()(x).len(),
            ) == dep_encoder()(x) implies #[trigger] dep_parser()(s, p) == Ok::<
            (PackageDepView, int),
            DecodeError,
        >((x, p + dep_encoder()(x).len())) by {
            lemma_parse_dep(s, p, x);
        }
    }
    lemma_parse_vec(dep_parser(), dep_encoder(), s, p6, v.deps);
    lemma_parse_option(s, p7, v.extension);
}

/// Decoding the encoding of a package gives the package back.
pub proof fn lemma_package_round_trip(v: PackageMetadataView)
    requires
        package_encodable(v),
    ensures
        decode_package(encode_package(v)) == Ok::<PackageMetadataView, DecodeError>(v),
{
    let s = encode_package(v);
    lemma_subrange_whole(s);
    lemma_parse_package(s, 0, v);
}

/// Decoding the encoding of a module gives the module back.
pub proof fn lemma_module_round_trip(m: ModuleMetadataView)
    requires
        module_encodable(m),
    ensures
        decode_module(encode_module(m)) == Ok::<ModuleMetadataView, DecodeError>(m),
{
    let s = encode_module(m);
    lemma_subrange_whole(s);
    lemma_parse_module(s, 0, m);
}

/// Decoding the encoding of a dependency gives the dependency back, its
/// account and its package name unchanged.
pub proof fn lemma_dep_round_trip(d: PackageDepView)
    requires
        dep_encodable(d),
    ensures
        decode_dep(encode_dep(d)) == Ok::<PackageDepView, DecodeError>(d),
{
    let s = encode_dep(d);
    lemma_subrange_whole(s);
    lemma_parse_dep(s, 0, d);
}

/// Decoding the encoding of an extension payload gives the payload back.
pub proof fn lemma_any_round_trip(a: AnyView)
    requires
        any_encodable(a),
    ensures
        decode_any(encode_any(a)) == Ok::<AnyView, DecodeError>(a),
{
    let s = encode_any(a);
    lemma_subrange_whole(s);
    lemma_parse_any(s, 0, a);
}

/// Decoding the encoding of an option gives the option back: the absent
/// option comes back as the empty sequence, the present one as the sequence
/// of its one element.
pub proof fn lemma_option_round_trip(o: Seq<AnyView>)
    requires
        option_encodable(o),
    ensures
        decode_option(encode_option(o)) == Ok::<Seq<AnyView>, DecodeError>(o),
{
    let s = encode_option(o);
    lemma_subrange_whole(s);
    lemma_parse_option(s, 0, o);
}

/// No two packages share an encoding.
pub proof fn lemma_encoding_injective(a: PackageMetadataView, b: PackageMetadataView)
    requires
        package_encodable(a),
        package_encodable(b),
        encode_package(a) == encode_package(b),
    ensures
        a == b,
{
    lemma_package_round_trip(a);
    lemma_package_round_trip(b);
}

/// The order of the modules is part of the encoding: two packages that
/// hold the same modules in different orders, and agree in every other
/// field, have different encodings.
pub proof fn lemma_module_order_is_significant(a: PackageMetadataView, b: PackageMetadataView)
    requires
        package_encodable(a),
        package_encodable(b),
        a.modules.to_multiset() == b.modules.to_multiset(),
        a.modules != b.modules,
        b == (PackageMetadataView { modules: b.modules, ..a }),
    ensures
        encode_package(a) != encode_package(b),
{
    if encode_package(a) == encode_package(b) {
        lemma_encoding_injective(a, b);
    }
}

/// An empty sequence is its length prefix alone, the single byte zero.
pub proof fn lemma_encode_empty_vec<T>(enc: spec_fn(T) -> Seq<u8>)
    ensures
        encode_vec(enc, Seq::<T>::empty()) == seq![0u8],
{
    assert(uleb128(0) =~= seq![0u8]);
    assert(encode_vec(enc, Seq::<T>::empty()) =~= seq![0u8]);
}

/// The absent option is the single byte zero; the present one is the byte
/// one followed by the encoding of what it holds.
pub proof fn lemma_option_shape(x: AnyView)
    ensures
        encode_option(Seq::<AnyView>::empty()) == seq![0u8],
        encode_option(seq![x]) == seq![1u8] + encode_any(x),
{
    lemma_encode_empty_vec(any_encoder());
    let one = seq![x];
    assert(uleb128(1) =~= seq![1u8]);
    assert(one.drop_last() =~= Seq::<AnyView>::empty());
    assert(encode_items(any_encoder(), one.drop_last()) =~= Seq::<u8>::empty());
    assert(encode_items(any_encoder(), one) =~= encode_any(x));
}

/// A package without modules and without dependencies gives each of the
/// two empty lists one zero byte, with nothing between its fields and
/// nothing behind the last.
pub proof fn lemma_encode_without_collections(v: PackageMetadataView)
    requires
        v.modules.len() == 0,
        v.deps.len() == 0,
    ensures
        encode_package(v) == encode_text(v.name) + seq![v.upgrade_policy] + le_u64(
            v.upgrade_number,
        ) + encode_text(v.source_digest) + encode_bytes(v.manifest) + seq![0u8, 0u8]
            + encode_option(v.extension),
        v.extension.len() == 0 ==> encode_package(v) == encode_text(v.name)
            + seq![v.upgrade_policy] + le_u64(v.upgrade_number) + encode_text(v.source_digest)
            + encode_bytes(v.manifest) + seq![0u8, 0u8, 0u8],
{
    assert(v.modules =~= Seq::<ModuleMetadataView>::empty());
    assert(v.deps =~= Seq::<PackageDepView>::empty());
    lemma_encode_empty_vec(module_encoder());
    lemma_encode_empty_vec(dep_encoder());
    let head = encode_text(v.name) + seq![v.upgrade_policy] + le_u64(v.upgrade_number)
        + encode_text(v.source_digest) + encode_bytes(v.manifest);
    assert(head + seq![0u8] + seq![0u8] + encode_option(v.extension) =~= head + seq![0u8, 0u8]
        + encode_option(v.extension));
    if v.extension.len() == 0 {
        assert(v.extension =~= Seq::<AnyView>::empty());
        lemma_encode_empty_vec(any_encoder());
        assert(head + seq![0u8, 0u8] + seq![0u8] =~= head + seq![0u8, 0u8, 0u8]);
    }
}

} // verus!
