//! The canonical encoding of the data model, and its strict decoder.
//!
//! A composite value is the concatenation of its fields in their declared
//! order; a sequence is a length prefix followed by its elements in order;
//! an option is a sequence of no element or of one.

use vstd::prelude::*;
use crate::canonical::{
    lemma_any_decodes_iff_encoded, lemma_dep_decodes_iff_encoded,
    lemma_module_decodes_iff_encoded, lemma_option_decodes_iff_encoded,
    lemma_package_decodes_iff_encoded,
};
use crate::error::{DecodeError, EncodeError};
use crate::model::{
    views, AccountAddress, Any, AnyView, ModuleMetadata, ModuleMetadataView, MoveOption,
    PackageDep, PackageDepView, PackageMetadata, PackageMetadataView, UpgradePolicy,
    ADDRESS_LENGTH,
};
use crate::roundtrip::{
    lemma_any_round_trip, lemma_dep_round_trip, lemma_module_round_trip,
    lemma_option_round_trip, lemma_package_round_trip,
};
use crate::wire::{
    append_bytes, bytes_encodable, encode_bytes, encode_text, le_u64, parse_bytes, parse_fixed,
    parse_len, parse_text, parse_u64, parse_u8, read_bytes, read_len, read_text,
    read_u64, read_u8, text_encodable, uleb128, write_bytes, write_len, write_text, write_u64,
    MAX_SEQUENCE_LENGTH,
};

verus! {

/// The elements of `xs`, each encoded by `enc`, one after the other.
pub open spec fn encode_items<T>(enc: spec_fn(T) -> Seq<u8>, xs: Seq<T>) -> Seq<u8>
    decreases xs.len(),
{
    if xs.len() == 0 {
        Seq::empty()
    } else {
        encode_items(enc, xs.drop_last()) + enc(xs.last())
    }
}

/// A sequence on the wire: its length prefix, then its elements.
pub open spec fn encode_vec<T>(enc: spec_fn(T) -> Seq<u8>, xs: Seq<T>) -> Seq<u8> {
    uleb128(xs.len()) + encode_items(enc, xs)
}

/// Whether a sequence is short enough for a length prefix and each of its
/// elements meets `ok`.
pub open spec fn vec_encodable<T>(ok: spec_fn(T) -> bool, xs: Seq<T>) -> bool {
    &&& xs.len() <= MAX_SEQUENCE_LENGTH
    &&& forall|i: int| #![trigger xs[i]] 0 <= i < xs.len() ==> ok(xs[i])
}

/// Whether an extension payload has a canonical encoding.
pub open spec fn any_encodable(a: AnyView) -> bool {
    text_encodable(a.type_tag) && bytes_encodable(a.data)
}

/// The encoding of an extension payload.
pub open spec fn encode_any(a: AnyView) -> Seq<u8> {
    encode_text(a.type_tag) + encode_bytes(a.data)
}

/// [`any_encodable`] as a value.
pub open spec fn any_check() -> spec_fn(AnyView) -> bool {
    |a: AnyView| any_encodable(a)
}

/// [`encode_any`] as a value.
pub open spec fn any_encoder() -> spec_fn(AnyView) -> Seq<u8> {
    |a: AnyView| encode_any(a)
}

/// Whether an optional extension payload has a canonical encoding.
pub open spec fn option_encodable(o: Seq<AnyView>) -> bool {
    vec_encodable(any_check(), o)
}

/// The encoding of an optional extension payload.
pub open spec fn encode_option(o: Seq<AnyView>) -> Seq<u8> {
    encode_vec(any_encoder(), o)
}

/// Whether a module has a canonical encoding.
pub open spec fn module_encodable(m: ModuleMetadataView) -> bool {
    &&& text_encodable(m.name)
    &&& bytes_encodable(m.source)
    &&& bytes_encodable(m.source_map)
    &&& option_encodable(m.extension)
}

/// The encoding of a module.
pub open spec fn encode_module(m: ModuleMetadataView) -> Seq<u8> {
    encode_text(m.name) + encode_bytes(m.source) + encode_bytes(m.source_map) + encode_option(
        m.extension,
    )
}

/// [`module_encodable`] as a value.
pub open spec fn module_check() -> spec_fn(ModuleMetadataView) -> bool {
    |m: ModuleMetadataView| module_encodable(m)
}

/// [`encode_module`] as a value.
pub open spec fn module_encoder() -> spec_fn(ModuleMetadataView) -> Seq<u8> {
    |m: ModuleMetadataView| encode_module(m)
}

/// Whether a dependency has a canonical encoding.
pub open spec fn dep_encodable(d: PackageDepView) -> bool {
    d.account.len() == ADDRESS_LENGTH && text_encodable(d.package_name)
}

/// The encoding of a dependency: the 32 bytes of the account, then the name.
pub open spec fn encode_dep(d: PackageDepView) -> Seq<u8> {
    d.account + encode_text(d.package_name)
}

/// [`dep_encodable`] as a value.
pub open spec fn dep_check() -> spec_fn(PackageDepView) -> bool {
    |d: PackageDepView| dep_encodable(d)
}

/// [`encode_dep`] as a value.
pub open spec fn dep_encoder() -> spec_fn(PackageDepView) -> Seq<u8> {
    |d: PackageDepView| encode_dep(d)
}

/// Whether a package has a canonical encoding: every text, blob and
/// sequence in it is short enough for a length prefix.
pub open spec fn package_encodable(p: PackageMetadataView) -> bool {
    &&& text_encodable(p.name)
    &&& text_encodable(p.source_digest)
    &&& bytes_encodable(p.manifest)
    &&& vec_encodable(module_check(), p.modules)
    &&& vec_encodable(dep_check(), p.deps)
    &&& option_encodable(p.extension)
}

/// The canonical encoding of a package.
pub open spec fn encode_package(p: PackageMetadataView) -> Seq<u8> {
    encode_text(p.name) + seq![p.upgrade_policy] + le_u64(p.upgrade_number) + encode_text(
        p.source_digest,
    ) + encode_bytes(p.manifest) + encode_vec(module_encoder(), p.modules) + encode_vec(
        dep_encoder(),
        p.deps,
    ) + encode_option(p.extension)
}

/// One more element encoded is its encoding appended.
pub proof fn lemma_encode_items_step<T>(enc: spec_fn(T) -> Seq<u8>, xs: Seq<T>, i: int)
    requires
        0 <= i < xs.len(),
    ensures
        encode_items(enc, xs.take(i + 1)) == encode_items(enc, xs.take(i)) + enc(xs[i]),
{
    assert(xs.take(i + 1).drop_last() =~= xs.take(i));
    assert(xs.take(i + 1).last() == xs[i]);
}

/// Appends the encoding of `a` to `out`, or refuses a payload with a part
/// that is too long.
pub(crate) fn write_any(out: &mut Vec<u8>, a: &Any) -> (res: Result<(), EncodeError>)
    ensures
        res is Ok <==> any_encodable(a@),
        res is Ok ==> final(out)@ == old(out)@ + encode_any(a@),
{
    match write_text(out, a.type_tag.as_str()) {
        Err(e) => {
            return Err(e);
        },
        Ok(()) => {},
    }
    match write_bytes(out, a.data.as_slice()) {
        Err(e) => {
            return Err(e);
        },
        Ok(()) => {},
    }
    assert(out@ =~= old(out)@ + encode_any(a@));
    Ok(())
}

/// Appends the encoding of `o` to `out`.
pub(crate) fn write_option(out: &mut Vec<u8>, o: &MoveOption<Any>) -> (res: Result<
    (),
    EncodeError,
>)
    ensures
        res is Ok <==> option_encodable(o@),
        res is Ok ==> final(out)@ == old(out)@ + encode_option(o@),
{
    let n = o.value.len();
    match write_len(out, n) {
        Err(e) => {
            return Err(e);
        },
        Ok(()) => {},
    }
    let mut i: usize = 0;
    while i < n
        invariant
            i <= n,
            n == o.value@.len(),
            n <= MAX_SEQUENCE_LENGTH,
            forall|j: int| 0 <= j < i ==> any_encodable(#[trigger] o@[j]),
            out@ == old(out)@ + uleb128(n as nat) + encode_items(any_encoder(), o@.take(i as int)),
        decreases n - i,
    {
        match write_any(out, &o.value[i]) {
            Err(e) => {
                assert(!any_encodable(o@[i as int]));
                return Err(e);
            },
            Ok(()) => {},
        }
        proof {
            lemma_encode_items_step(any_encoder(), o@, i as int);
            assert(out@ =~= old(out)@ + uleb128(n as nat) + encode_items(
                any_encoder(),
                o@.take(i + 1),
            ));
        }
        i = i + 1;
    }
    proof {
        assert(o@.take(n as int) =~= o@);
        assert(out@ =~= old(out)@ + encode_option(o@));
    }
    Ok(())
}

/// Appends the encoding of `m` to `out`.
pub(crate) fn write_module(out: &mut Vec<u8>, m: &ModuleMetadata) -> (res: Result<
    (),
    EncodeError,
>)
    ensures
        res is Ok <==> module_encodable(m@),
        res is Ok ==> final(out)@ == old(out)@ + encode_module(m@),
{
    match write_text(out, m.name.as_str()) {
        Err(e) => {
            return Err(e);
        },
        Ok(()) => {},
    }
    match write_bytes(out, m.source.as_slice()) {
        Err(e) => {
            return Err(e);
        },
        Ok(()) => {},
    }
    match write_bytes(out, m.source_map.as_slice()) {
        Err(e) => {
            return Err(e);
        },
        Ok(()) => {},
    }
    match write_option(out, &m.extension) {
        Err(e) => {
            return Err(e);
        },
        Ok(()) => {},
    }
    assert(out@ =~= old(out)@ + encode_module(m@));
    Ok(())
}

/// Appends the encoding of the module list `ms` to `out`.
pub(crate) fn write_modules(out: &mut Vec<u8>, ms: &Vec<ModuleMetadata>) -> (res: Result<
    (),
    EncodeError,
>)
    ensures
        res is Ok <==> vec_encodable(module_check(), views(ms@)),
        res is Ok ==> final(out)@ == old(out)@ + encode_vec(module_encoder(), views(ms@)),
{
    let n = ms.len();
    let ghost vs = views(ms@);
    match write_len(out, n) {
        Err(e) => {
            return Err(e);
        },
        Ok(()) => {},
    }
    let mut i: usize = 0;
    while i < n
        invariant
            i <= n,
            n == ms@.len(),
            n <= MAX_SEQUENCE_LENGTH,
            vs == views(ms@),
            forall|j: int| 0 <= j < i ==> module_encodable(#[trigger] vs[j]),
            out@ == old(out)@ + uleb128(n as nat) + encode_items(
                module_encoder(),
                vs.take(i as int),
            ),
        decreases n - i,
    {
        match write_module(out, &ms[i]) {
            Err(e) => {
                assert(!module_encodable(vs[i as int]));
                return Err(e);
            },
            Ok(()) => {},
        }
        proof {
            lemma_encode_items_step(module_encoder(), vs, i as int);
            assert(out@ =~= old(out)@ + uleb128(n as nat) + encode_items(
                module_encoder(),
                vs.take(i + 1),
            ));
        }
        i = i + 1;
    }
    proof {
        assert(vs.take(n as int) =~= vs);
        assert(out@ =~= old(out)@ + encode_vec(module_encoder(), vs));
    }
    Ok(())
}

/// Appends the encoding of `d` to `out`.
pub(crate) fn write_dep(out: &mut Vec<u8>, d: &PackageDep) -> (res: Result<(), EncodeError>)
    ensures
        res is Ok <==> dep_encodable(d@),
        res is Ok ==> final(out)@ == old(out)@ + encode_dep(d@),
{
    proof {
        d.account.lemma_len();
    }
    let account = d.account.to_bytes();
    append_bytes(out, account.as_slice());
    match write_text(out, d.package_name.as_str()) {
        Err(e) => {
            return Err(e);
        },
        Ok(()) => {},
    }
    assert(out@ =~= old(out)@ + encode_dep(d@));
    Ok(())
}

/// Appends the encoding of the dependency list `ds` to `out`.
pub(crate) fn write_deps(out: &mut Vec<u8>, ds: &Vec<PackageDep>) -> (res: Result<
    (),
    EncodeError,
>)
    ensures
        res is Ok <==> vec_encodable(dep_check(), views(ds@)),
        res is Ok ==> final(out)@ == old(out)@ + encode_vec(dep_encoder(), views(ds@)),
{
    let n = ds.len();
    let ghost vs = views(ds@);
    match write_len(out, n) {
        Err(e) => {
            return Err(e);
        },
        Ok(()) => {},
    }
    let mut i: usize = 0;
    while i < n
        invariant
            i <= n,
            n == ds@.len(),
            n <= MAX_SEQUENCE_LENGTH,
            vs == views(ds@),
            forall|j: int| 0 <= j < i ==> dep_encodable(#[trigger] vs[j]),
            out@ == old(out)@ + uleb128(n as nat) + encode_items(dep_encoder(), vs.take(i as int)),
        decreases n - i,
    {
        match write_dep(out, &ds[i]) {
            Err(e) => {
                assert(!dep_encodable(vs[i as int]));
                return Err(e);
            },
            Ok(()) => {},
        }
        proof {
            lemma_encode_items_step(dep_encoder(), vs, i as int);
            assert(out@ =~= old(out)@ + uleb128(n as nat) + encode_items(
                dep_encoder(),
                vs.take(i + 1),
            ));
        }
        i = i + 1;
    }
    proof {
        assert(vs.take(n as int) =~= vs);
        assert(out@ =~= old(out)@ + encode_vec(dep_encoder(), vs));
    }
    Ok(())
}

/// Appends the encoding of `p` to `out`.
pub(crate) fn write_package(out: &mut Vec<u8>, p: &PackageMetadata) -> (res: Result<
    (),
    EncodeError,
>)
    ensures
        res is Ok <==> package_encodable(p@),
        res is Ok ==> final(out)@ == old(out)@ + encode_package(p@),
{
    match write_text(out, p.name.as_str()) {
        Err(e) => {
            return Err(e);
        },
        Ok(()) => {},
    }
    out.push(p.upgrade_policy.policy);
    write_u64(out, p.upgrade_number);
    match write_text(out, p.source_digest.as_str()) {
        Err(e) => {
            return Err(e);
        },
        Ok(()) => {},
    }
    match write_bytes(out, p.manifest.as_slice()) {
        Err(e) => {
            return Err(e);
        },
        Ok(()) => {},
    }
    match write_modules(out, &p.modules) {
        Err(e) => {
            return Err(e);
        },
        Ok(()) => {},
    }
    match write_deps(out, &p.deps) {
        Err(e) => {
            return Err(e);
        },
        Ok(()) => {},
    }
    match write_option(out, &p.extension) {
        Err(e) => {
            return Err(e);
        },
        Ok(()) => {},
    }
    assert(out@ =~= old(out)@ + encode_package(p@));
    Ok(())
}

impl Any {
    /// The canonical bytes of the payload, or the reason it has none.
    pub fn to_bytes(&self) -> (res: Result<Vec<u8>, EncodeError>)
        ensures
            res is Ok <==> any_encodable(self@),
            res matches Ok(b) ==> b@ == encode_any(self@) && decode_any(b@) == Ok::<
                AnyView,
                DecodeError,
            >(self@),
    {
        let mut out: Vec<u8> = Vec::new();
        match write_any(&mut out, self) {
            Err(e) => Err(e),
            Ok(()) => {
                assert(out@ =~= encode_any(self@));
                proof {
                    lemma_any_round_trip(self@);
                }
                Ok(out)
            },
        }
    }
}

impl MoveOption<Any> {
    /// The canonical bytes of the option, or the reason it has none.
    pub fn to_bytes(&self) -> (res: Result<Vec<u8>, EncodeError>)
        ensures
            res is Ok <==> option_encodable(self@),
            res matches Ok(b) ==> b@ == encode_option(self@) && decode_option(b@) == Ok::<
                Seq<AnyView>,
                DecodeError,
            >(self@),
    {
        let mut out: Vec<u8> = Vec::new();
        match write_option(&mut out, self) {
            Err(e) => Err(e),
            Ok(()) => {
                assert(out@ =~= encode_option(self@));
                proof {
                    lemma_option_round_trip(self@);
                }
                Ok(out)
            },
        }
    }
}

impl ModuleMetadata {
    /// The canonical bytes of the module, or the reason it has none.
    pub fn to_bytes(&self) -> (res: Result<Vec<u8>, EncodeError>)
        ensures
            res is Ok <==> module_encodable(self@),
            res matches Ok(b) ==> b@ == encode_module(self@) && decode_module(b@) == Ok::<
                ModuleMetadataView,
                DecodeError,
            >(self@),
    {
        let mut out: Vec<u8> = Vec::new();
        match write_module(&mut out, self) {
            Err(e) => Err(e),
            Ok(()) => {
                assert(out@ =~= encode_module(self@));
                proof {
                    lemma_module_round_trip(self@);
                }
                Ok(out)
            },
        }
    }
}

impl PackageDep {
    /// The canonical bytes of the dependency, or the reason it has none.
    pub fn to_bytes(&self) -> (res: Result<Vec<u8>, EncodeError>)
        ensures
            res is Ok <==> dep_encodable(self@),
            res matches Ok(b) ==> b@ == encode_dep(self@) && decode_dep(b@) == Ok::<
                PackageDepView,
                DecodeError,
            >(self@),
    {
        let mut out: Vec<u8> = Vec::new();
        match write_dep(&mut out, self) {
            Err(e) => Err(e),
            Ok(()) => {
                assert(out@ =~= encode_dep(self@));
                proof {
                    lemma_dep_round_trip(self@);
                }
                Ok(out)
            },
        }
    }
}

impl PackageMetadata {
    /// The canonical bytes of the package, or the reason it has none. The
    /// bytes decode to the package again.
    pub fn to_bytes(&self) -> (res: Result<Vec<u8>, EncodeError>)
        ensures
            res is Ok <==> package_encodable(self@),
            res matches Ok(b) ==> b@ == encode_package(self@) && decode_package(b@) == Ok::<
                PackageMetadataView,
                DecodeError,
            >(self@),
    {
        let mut out: Vec<u8> = Vec::new();
        match write_package(&mut out, self) {
            Err(e) => Err(e),
            Ok(()) => {
                assert(out@ =~= encode_package(self@));
                proof {
                    lemma_package_round_trip(self@);
                }
                Ok(out)
            },
        }
    }
}

/// Reading `n` elements with `elem`, one after the other, from `pos` on.
pub open spec fn parse_items<T>(
    elem: spec_fn(Seq<u8>, int) -> Result<(T, int), DecodeError>,
    s: Seq<u8>,
    pos: int,
    n: nat,
) -> Result<(Seq<T>, int), DecodeError>
    decreases n,
{
    if n == 0 {
        Ok((Seq::empty(), pos))
    } else {
        match parse_items(elem, s, pos, (n - 1) as nat) {
            Err(e) => Err(e),
            Ok((xs, p)) => match elem(s, p) {
                Err(e) => Err(e),
                Ok((x, q)) => Ok((xs.push(x), q)),
            },
        }
    }
}

/// The sequence at `pos`: a length prefix, then that many elements.
pub open spec fn parse_vec<T>(
    elem: spec_fn(Seq<u8>, int) -> Result<(T, int), DecodeError>,
    s: Seq<u8>,
    pos: int,
) -> Result<(Seq<T>, int), DecodeError> {
    match parse_len(s, pos) {
        Err(e) => Err(e),
        Ok((n, p)) => parse_items(elem, s, p, n),
    }
}

/// The extension payload at `pos`, and the position behind it.
pub open spec fn parse_any(s: Seq<u8>, pos: int) -> Result<(AnyView, int), DecodeError> {
    match parse_text(s, pos) {
        Err(e) => Err(e),
        Ok((type_tag, p1)) => match parse_bytes(s, p1) {
            Err(e) => Err(e),
            Ok((data, p2)) => Ok((AnyView { type_tag, data }, p2)),
        },
    }
}

/// [`parse_any`] as a value.
pub open spec fn any_parser() -> spec_fn(Seq<u8>, int) -> Result<(AnyView, int), DecodeError> {
    |s: Seq<u8>, pos: int| parse_any(s, pos)
}

/// The optional extension payload at `pos`, and the position behind it.
pub open spec fn parse_option(s: Seq<u8>, pos: int) -> Result<(Seq<AnyView>, int), DecodeError> {
    parse_vec(any_parser(), s, pos)
}

/// The module at `pos`, and the position behind it.
pub open spec fn parse_module(s: Seq<u8>, pos: int) -> Result<
    (ModuleMetadataView, int),
    DecodeError,
> {
    match parse_text(s, pos) {
        Err(e) => Err(e),
        Ok((name, p1)) => match parse_bytes(s, p1) {
            Err(e) => Err(e),
            Ok((source, p2)) => match parse_bytes(s, p2) {
                Err(e) => Err(e),
                Ok((source_map, p3)) => match parse_option(s, p3) {
                    Err(e) => Err(e),
                    Ok((extension, p4)) => Ok(
                        (ModuleMetadataView { name, source, source_map, extension }, p4),
                    ),
                },
            },
        },
    }
}

/// [`parse_module`] as a value.
pub open spec fn module_parser() -> spec_fn(Seq<u8>, int) -> Result<
    (ModuleMetadataView, int),
    DecodeError,
> {
    |s: Seq<u8>, pos: int| parse_module(s, pos)
}

/// The dependency at `pos`, and the position behind it.
pub open spec fn parse_dep(s: Seq<u8>, pos: int) -> Result<(PackageDepView, int), DecodeError> {
    match parse_fixed(s, pos, ADDRESS_LENGTH as nat) {
        Err(e) => Err(e),
        Ok((account, p1)) => match parse_text(s, p1) {
            Err(e) => Err(e),
            Ok((package_name, p2)) => Ok((PackageDepView { account, package_name }, p2)),
        },
    }
}

/// [`parse_dep`] as a value.
pub open spec fn dep_parser() -> spec_fn(Seq<u8>, int) -> Result<
    (PackageDepView, int),
    DecodeError,
> {
    |s: Seq<u8>, pos: int| parse_dep(s, pos)
}

/// The package at `pos`, and the position behind it.
pub open spec fn parse_package(s: Seq<u8>, pos: int) -> Result<
    (PackageMetadataView, int),
    DecodeError,
> {
    match parse_text(s, pos) {
        Err(e) => Err(e),
        Ok((name, p1)) => match parse_u8(s, p1) {
            Err(e) => Err(e),
            Ok((upgrade_policy, p2)) => match parse_u64(s, p2) {
                Err(e) => Err(e),
                Ok((upgrade_number, p3)) => match parse_text(s, p3) {
                    Err(e) => Err(e),
                    Ok((source_digest, p4)) => match parse_bytes(s, p4) {
                        Err(e) => Err(e),
                        Ok((manifest, p5)) => match parse_vec(module_parser(), s, p5) {
                            Err(e) => Err(e),
                            Ok((modules, p6)) => match parse_vec(dep_parser(), s, p6) {
                                Err(e) => Err(e),
                                Ok((deps, p7)) => match parse_option(s, p7) {
                                    Err(e) => Err(e),
                                    Ok((extension, p8)) => Ok(
                                        (
                                            PackageMetadataView {
                                                name,
                                                upgrade_policy,
                                                upgrade_number,
                                                source_digest,
                                                manifest,
                                                modules,
                                                deps,
                                                extension,
                                            },
                                            p8,
                                        ),
                                    ),
                                },
                            },
                        },
                    },
                },
            },
        },
    }
}

/// The value that a reader found from the start of an input of `len`
/// bytes, provided that it used the input up.
pub open spec fn whole<T>(r: Result<(T, int), DecodeError>, len: nat) -> Result<T, DecodeError> {
    match r {
        Err(e) => Err(e),
        Ok((v, p)) => if p == len {
            Ok(v)
        } else {
            Err(DecodeError::RemainingInput)
        },
    }
}

/// The extension payload that `s` is the encoding of.
pub open spec fn decode_any(s: Seq<u8>) -> Result<AnyView, DecodeError> {
    whole(parse_any(s, 0), s.len())
}

/// The optional extension payload that `s` is the encoding of.
pub open spec fn decode_option(s: Seq<u8>) -> Result<Seq<AnyView>, DecodeError> {
    whole(parse_option(s, 0), s.len())
}

/// The module that `s` is the encoding of.
pub open spec fn decode_module(s: Seq<u8>) -> Result<ModuleMetadataView, DecodeError> {
    whole(parse_module(s, 0), s.len())
}

/// The dependency that `s` is the encoding of.
pub open spec fn decode_dep(s: Seq<u8>) -> Result<PackageDepView, DecodeError> {
    whole(parse_dep(s, 0), s.len())
}

/// The package that `s` is the encoding of.
pub open spec fn decode_package(s: Seq<u8>) -> Result<PackageMetadataView, DecodeError> {
    whole(parse_package(s, 0), s.len())
}

/// Once an element fails to parse, so does every longer run of elements,
/// with the same error.
pub proof fn lemma_parse_items_err<T>(
    elem: spec_fn(Seq<u8>, int) -> Result<(T, int), DecodeError>,
    s: Seq<u8>,
    pos: int,
    i: nat,
    n: nat,
)
    requires
        i <= n,
        parse_items(elem, s, pos, i) is Err,
    ensures
        parse_items(elem, s, pos, n) == parse_items(elem, s, pos, i),
    decreases n,
{
    if i < n {
        lemma_parse_items_err(elem, s, pos, i, (n - 1) as nat);
    }
}

/// Reads the extension payload at `pos`.
pub(crate) fn read_any(bytes: &[u8], pos: usize) -> (res: Result<(Any, usize), DecodeError>)
    ensures
        match res {
            Ok((v, p)) => parse_any(bytes@, pos as int) == Ok::<(AnyView, int), DecodeError>(
                (v@, p as int),
            ) && pos <= p <= bytes@.len(),
            Err(e) => parse_any(bytes@, pos as int) == Err::<(AnyView, int), DecodeError>(e),
        },
{
    let (type_tag, p1) = match read_text(bytes, pos) {
        Err(e) => {
            return Err(e);
        },
        Ok(x) => x,
    };
    let (data, p2) = match read_bytes(bytes, p1) {
        Err(e) => {
            return Err(e);
        },
        Ok(x) => x,
    };
    Ok((Any { type_tag, data }, p2))
}

/// Reads the optional extension payload at `pos`.
pub(crate) fn read_option(bytes: &[u8], pos: usize) -> (res: Result<
    (MoveOption<Any>, usize),
    DecodeError,
>)
    ensures
        match res {
            Ok((v, p)) => parse_option(bytes@, pos as int) == Ok::<
                (Seq<AnyView>, int),
                DecodeError,
            >((v@, p as int)) && pos <= p <= bytes@.len(),
            Err(e) => parse_option(bytes@, pos as int) == Err::<(Seq<AnyView>, int), DecodeError>(
                e,
            ),
        },
{
    let (n, start) = match read_len(bytes, pos) {
        Err(e) => {
            return Err(e);
        },
        Ok(x) => x,
    };
    let mut acc: Vec<Any> = Vec::new();
    let mut cur: usize = start;
    let mut i: usize = 0;
    assert(views(acc@) =~= Seq::<AnyView>::empty());
    while i < n
        invariant
            i <= n,
            start <= cur <= bytes@.len(),
            parse_len(bytes@, pos as int) == Ok::<(nat, int), DecodeError>(
                (n as nat, start as int),
            ),
            parse_items(any_parser(), bytes@, start as int, i as nat) == Ok::<
                (Seq<AnyView>, int),
                DecodeError,
            >((views(acc@), cur as int)),
        decreases n - i,
    {
        let ghost before = acc@;
        match read_any(bytes, cur) {
            Err(e) => {
                proof {
                    assert(((i + 1) as nat - 1) as nat == i as nat);
                    assert(parse_items(any_parser(), bytes@, start as int, (i + 1) as nat)
                        == Err::<(Seq<AnyView>, int), DecodeError>(e));
                    lemma_parse_items_err(
                        any_parser(),
                        bytes@,
                        start as int,
                        (i + 1) as nat,
                        n as nat,
                    );
                }
                return Err(e);
            },
            Ok((a, p)) => {
                acc.push(a);
                cur = p;
                assert(views(acc@) =~= views(before).push(a@));
            },
        }
        i = i + 1;
    }
    Ok((MoveOption { value: acc }, cur))
}

/// Reads the module at `pos`.
pub(crate) fn read_module(bytes: &[u8], pos: usize) -> (res: Result<
    (ModuleMetadata, usize),
    DecodeError,
>)
    ensures
        match res {
            Ok((v, p)) => parse_module(bytes@, pos as int) == Ok::<
                (ModuleMetadataView, int),
                DecodeError,
            >((v@, p as int)) && pos <= p <= bytes@.len(),
            Err(e) => parse_module(bytes@, pos as int) == Err::<
                (ModuleMetadataView, int),
                DecodeError,
            >(e),
        },
{
    let (name, p1) = match read_text(bytes, pos) {
        Err(e) => {
            return Err(e);
        },
        Ok(x) => x,
    };
    let (source, p2) = match read_bytes(bytes, p1) {
        Err(e) => {
            return Err(e);
        },
        Ok(x) => x,
    };
    let (source_map, p3) = match read_bytes(bytes, p2) {
        Err(e) => {
            return Err(e);
        },
        Ok(x) => x,
    };
    let (extension, p4) = match read_option(bytes, p3) {
        Err(e) => {
            return Err(e);
        },
        Ok(x) => x,
    };
    Ok((ModuleMetadata { name, source, source_map, extension }, p4))
}

/// Reads the module list at `pos`.
pub(crate) fn read_modules(bytes: &[u8], pos: usize) -> (res: Result<
    (Vec<ModuleMetadata>, usize),
    DecodeError,
>)
    ensures
        match res {
            Ok((v, p)) => parse_vec(module_parser(), bytes@, pos as int) == Ok::<
                (Seq<ModuleMetadataView>, int),
                DecodeError,
            >((views(v@), p as int)) && pos <= p <= bytes@.len(),
            Err(e) => parse_vec(module_parser(), bytes@, pos as int) == Err::<
                (Seq<ModuleMetadataView>, int),
                DecodeError,
            >(e),
        },
{
    let (n, start) = match read_len(bytes, pos) {
        Err(e) => {
            return Err(e);
        },
        Ok(x) => x,
    };
    let mut acc: Vec<ModuleMetadata> = Vec::new();
    let mut cur: usize = start;
    let mut i: usize = 0;
    assert(views(acc@) =~= Seq::<ModuleMetadataView>::empty());
    while i < n
        invariant
            i <= n,
            start <= cur <= bytes@.len(),
            parse_len(bytes@, pos as int) == Ok::<(nat, int), DecodeError>(
                (n as nat, start as int),
            ),
            parse_items(module_parser(), bytes@, start as int, i as nat) == Ok::<
                (Seq<ModuleMetadataView>, int),
                DecodeError,
            >((views(acc@), cur as int)),
        decreases n - i,
    {
        let ghost before = acc@;
        match read_module(bytes, cur) {
            Err(e) => {
                proof {
                    assert(((i + 1) as nat - 1) as nat == i as nat);
                    assert(parse_items(module_parser(), bytes@, start as int, (i + 1) as nat)
                        == Err::<(Seq<ModuleMetadataView>, int), DecodeError>(e));
                    lemma_parse_items_err(
                        module_parser(),
                        bytes@,
                        start as int,
                        (i + 1) as nat,
                        n as nat,
                    );
                }
                return Err(e);
            },
            Ok((a, p)) => {
                acc.push(a);
                cur = p;
                assert(views(acc@) =~= views(before).push(a@));
            },
        }
        i = i + 1;
    }
    Ok((acc, cur))
}

/// Reads the dependency at `pos`.
pub(crate) fn read_dep(bytes: &[u8], pos: usize) -> (res: Result<(PackageDep, usize), DecodeError>)
    ensures
        match res {
            Ok((v, p)) => parse_dep(bytes@, pos as int) == Ok::<(PackageDepView, int), DecodeError>(
                (v@, p as int),
            ) && pos <= p <= bytes@.len(),
            Err(e) => parse_dep(bytes@, pos as int) == Err::<(PackageDepView, int), DecodeError>(
                e,
            ),
        },
{
    if pos > bytes.len() || bytes.len() - pos < ADDRESS_LENGTH {
        return Err(DecodeError::Eof);
    }
    let account = AccountAddress::from_slice(bytes, pos);
    let (package_name, p2) = match read_text(bytes, pos + ADDRESS_LENGTH) {
        Err(e) => {
            return Err(e);
        },
        Ok(x) => x,
    };
    Ok((PackageDep { account, package_name }, p2))
}

/// Reads the dependency list at `pos`.
pub(crate) fn read_deps(bytes: &[u8], pos: usize) -> (res: Result<
    (Vec<PackageDep>, usize),
    DecodeError,
>)
    ensures
        match res {
            Ok((v, p)) => parse_vec(dep_parser(), bytes@, pos as int) == Ok::<
                (Seq<PackageDepView>, int),
                DecodeError,
            >((views(v@), p as int)) && pos <= p <= bytes@.len(),
            Err(e) => parse_vec(dep_parser(), bytes@, pos as int) == Err::<
                (Seq<PackageDepView>, int),
                DecodeError,
            >(e),
        },
{
    let (n, start) = match read_len(bytes, pos) {
        Err(e) => {
            return Err(e);
        },
        Ok(x) => x,
    };
    let mut acc: Vec<PackageDep> = Vec::new();
    let mut cur: usize = start;
    let mut i: usize = 0;
    assert(views(acc@) =~= Seq::<PackageDepView>::empty());
    while i < n
        invariant
            i <= n,
            start <= cur <= bytes@.len(),
            parse_len(bytes@, pos as int) == Ok::<(nat, int), DecodeError>(
                (n as nat, start as int),
            ),
            parse_items(dep_parser(), bytes@, start as int, i as nat) == Ok::<
                (Seq<PackageDepView>, int),
                DecodeError,
            >((views(acc@), cur as int)),
        decreases n - i,
    {
        let ghost before = acc@;
        match read_dep(bytes, cur) {
            Err(e) => {
                proof {
                    assert(((i + 1) as nat - 1) as nat == i as nat);
                    assert(parse_items(dep_parser(), bytes@, start as int, (i + 1) as nat)
                        == Err::<(Seq<PackageDepView>, int), DecodeError>(e));
                    lemma_parse_items_err(
                        dep_parser(),
                        bytes@,
                        start as int,
                        (i + 1) as nat,
                        n as nat,
                    );
                }
                return Err(e);
            },
            Ok((a, p)) => {
                acc.push(a);
                cur = p;
                assert(views(acc@) =~= views(before).push(a@));
            },
        }
        i = i + 1;
    }
    Ok((acc, cur))
}

/// Reads the package at `pos`.
pub(crate) fn read_package(bytes: &[u8], pos: usize) -> (res: Result<
    (PackageMetadata, usize),
    DecodeError,
>)
    ensures
        match res {
            Ok((v, p)) => parse_package(bytes@, pos as int) == Ok::<
                (PackageMetadataView, int),
                DecodeError,
            >((v@, p as int)) && pos <= p <= bytes@.len(),
            Err(e) => parse_package(bytes@, pos as int) == Err::<
                (PackageMetadataView, int),
                DecodeError,
            >(e),
        },
{
    let (name, p1) = match read_text(bytes, pos) {
        Err(e) => {
            return Err(e);
        },
        Ok(x) => x,
    };
    let (policy, p2) = match read_u8(bytes, p1) {
        Err(e) => {
            return Err(e);
        },
        Ok(x) => x,
    };
    let (upgrade_number, p3) = match read_u64(bytes, p2) {
        Err(e) => {
            return Err(e);
        },
        Ok(x) => x,
    };
    let (source_digest, p4) = match read_text(bytes, p3) {
        Err(e) => {
            return Err(e);
        },
        Ok(x) => x,
    };
    let (manifest, p5) = match read_bytes(bytes, p4) {
        Err(e) => {
            return Err(e);
        },
        Ok(x) => x,
    };
    let (modules, p6) = match read_modules(bytes, p5) {
        Err(e) => {
            return Err(e);
        },
        Ok(x) => x,
    };
    let (deps, p7) = match read_deps(bytes, p6) {
        Err(e) => {
            return Err(e);
        },
        Ok(x) => x,
    };
    let (extension, p8) = match read_option(bytes, p7) {
        Err(e) => {
            return Err(e);
        },
        Ok(x) => x,
    };
    Ok(
        (
            PackageMetadata {
                name,
                upgrade_policy: UpgradePolicy { policy },
                upgrade_number,
                source_digest,
                manifest,
                modules,
                deps,
                extension,
            },
            p8,
        ),
    )
}

impl Any {
    /// The extension payload that `bytes` is the canonical encoding of, or the first
    /// fault met while reading it; bytes left over are a fault.
    pub fn from_bytes(bytes: &[u8]) -> (res: Result<Any, DecodeError>)
        ensures
            match res {
                Ok(v) => decode_any(bytes@) == Ok::<AnyView, DecodeError>(v@)
                    && any_encodable(v@) && encode_any(v@) == bytes@,
                Err(e) => decode_any(bytes@) == Err::<AnyView, DecodeError>(e),
            },
    {
        match read_any(bytes, 0) {
            Err(e) => Err(e),
            Ok((v, p)) => {
                if p == bytes.len() {
                    proof {
                        lemma_any_decodes_iff_encoded(bytes@, v@);
                    }
                    Ok(v)
                } else {
                    Err(DecodeError::RemainingInput)
                }
            },
        }
    }
}

impl MoveOption<Any> {
    /// The optional extension payload that `bytes` is the canonical encoding of, or the first
    /// fault met while reading it; bytes left over are a fault.
    pub fn from_bytes(bytes: &[u8]) -> (res: Result<MoveOption<Any>, DecodeError>)
        ensures
            match res {
                Ok(v) => decode_option(bytes@) == Ok::<Seq<AnyView>, DecodeError>(v@)
                    && option_encodable(v@) && encode_option(v@) == bytes@,
                Err(e) => decode_option(bytes@) == Err::<Seq<AnyView>, DecodeError>(e),
            },
    {
        match read_option(bytes, 0) {
            Err(e) => Err(e),
            Ok((v, p)) => {
                if p == bytes.len() {
                    proof {
                        lemma_option_decodes_iff_encoded(bytes@, v@);
                    }
                    Ok(v)
                } else {
                    Err(DecodeError::RemainingInput)
                }
            },
        }
    }
}

impl ModuleMetadata {
    /// The module that `bytes` is the canonical encoding of, or the first
    /// fault met while reading it; bytes left over are a fault.
    pub fn from_bytes(bytes: &[u8]) -> (res: Result<ModuleMetadata, DecodeError>)
        ensures
            match res {
                Ok(v) => decode_module(bytes@) == Ok::<ModuleMetadataView, DecodeError>(v@)
                    && module_encodable(v@) && encode_module(v@) == bytes@,
                Err(e) => decode_module(bytes@) == Err::<ModuleMetadataView, DecodeError>(e),
            },
    {
        match read_module(bytes, 0) {
            Err(e) => Err(e),
            Ok((v, p)) => {
                if p == bytes.len() {
                    proof {
                        lemma_module_decodes_iff_encoded(bytes@, v@);
                    }
                    Ok(v)
                } else {
                    Err(DecodeError::RemainingInput)
                }
            },
        }
    }
}

impl PackageDep {
    /// The dependency that `bytes` is the canonical encoding of, or the first
    /// fault met while reading it; bytes left over are a fault.
    pub fn from_bytes(bytes: &[u8]) -> (res: Result<PackageDep, DecodeError>)
        ensures
            match res {
                Ok(v) => decode_dep(bytes@) == Ok::<PackageDepView, DecodeError>(v@)
                    && dep_encodable(v@) && encode_dep(v@) == bytes@,
                Err(e) => decode_dep(bytes@) == Err::<PackageDepView, DecodeError>(e),
            },
    {
        match read_dep(bytes, 0) {
            Err(e) => Err(e),
            Ok((v, p)) => {
                if p == bytes.len() {
                    proof {
                        lemma_dep_decodes_iff_encoded(bytes@, v@);
                    }
                    Ok(v)
                } else {
                    Err(DecodeError::RemainingInput)
                }
            },
        }
    }
}

impl PackageMetadata {
    /// The package that `bytes` is the canonical encoding of, or the first
    /// fault met while reading it; bytes left over are a fault.
    pub fn from_bytes(bytes: &[u8]) -> (res: Result<PackageMetadata, DecodeError>)
        ensures
            match res {
                Ok(v) => decode_package(bytes@) == Ok::<PackageMetadataView, DecodeError>(v@)
                    && package_encodable(v@) && encode_package(v@) == bytes@,
                Err(e) => decode_package(bytes@) == Err::<PackageMetadataView, DecodeError>(e),
            },
    {
        match read_package(bytes, 0) {
            Err(e) => Err(e),
            Ok((v, p)) => {
                if p == bytes.len() {
                    proof {
                        lemma_package_decodes_iff_encoded(bytes@, v@);
                    }
                    Ok(v)
                } else {
                    Err(DecodeError::RemainingInput)
                }
            },
        }
    }
}

} // verus!
