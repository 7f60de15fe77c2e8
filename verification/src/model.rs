//! The data model of package metadata, and the mathematical view of each
//! entity that the encoding is stated over.

use vstd::prelude::*;

verus! {

/// Number of bytes in an account address.
pub const ADDRESS_LENGTH: usize = 32;

/// The views of the elements of `xs`, in order.
pub open spec fn views<T: View>(xs: Seq<T>) -> Seq<T::V> {
    Seq::new(xs.len(), |i: int| xs[i]@)
}

/// A type-erased extension payload: the name of its logical type and its
/// bytes, which the library carries through without reading them.
#[derive(Clone, Debug, PartialEq, Eq)]
pub struct Any {
    pub type_tag: String,
    pub data: Vec<u8>,
}

/// What an [`Any`] stands for.
pub struct AnyView {
    pub type_tag: Seq<char>,
    pub data: Seq<u8>,
}

impl View for Any {
    type V = AnyView;

    open spec fn view(&self) -> AnyView {
        AnyView { type_tag: self.type_tag@, data: self.data@ }
    }
}

/// An optional value in the shape the wire format gives it: a sequence of
/// no element or of one.
#[derive(Clone, Debug, PartialEq, Eq)]
pub struct MoveOption<T> {
    pub value: Vec<T>,
}

impl<T: View> View for MoveOption<T> {
    type V = Seq<T::V>;

    open spec fn view(&self) -> Seq<T::V> {
        views(self.value@)
    }
}

impl<T> MoveOption<T> {
    /// Whether the option holds at most one element.
    pub open spec fn well_formed(&self) -> bool {
        self.value@.len() <= 1
    }

    /// The absent option.
    pub fn none() -> (res: Self)
        ensures
            res.value@ == Seq::<T>::empty(),
            res.well_formed(),
    {
        MoveOption { value: Vec::new() }
    }

    /// The option that holds `x`.
    pub fn some(x: T) -> (res: Self)
        ensures
            res.value@ == seq![x],
            res.well_formed(),
    {
        let mut value = Vec::new();
        value.push(x);
        assert(value@ =~= seq![x]);
        MoveOption { value }
    }

    /// Whether nothing is held.
    pub fn is_none(&self) -> (res: bool)
        ensures
            res == (self.value@.len() == 0),
    {
        self.value.len() == 0
    }
}

/// A single-byte code that says how a deployed package may be replaced.
/// The code is stored as it is and not held to a known set.
#[derive(Clone, Copy, Debug, PartialEq, Eq, Structural)]
pub struct UpgradePolicy {
    pub policy: u8,
}

/// A 32-byte account identifier. Addresses are ordered byte by byte.
#[derive(Clone, Copy, Debug, PartialEq, Eq, Ord, Hash)]
pub struct AccountAddress([u8; 32]);

impl View for AccountAddress {
    type V = Seq<u8>;

    closed spec fn view(&self) -> Seq<u8> {
        self.0@
    }
}

impl AccountAddress {
    /// An address always has 32 bytes.
    pub broadcast proof fn lemma_len(self)
        ensures
            #[trigger] self@.len() == ADDRESS_LENGTH,
    {
    }

    /// The address with the given bytes.
    pub fn new(bytes: [u8; 32]) -> (res: Self)
        ensures
            res@ == bytes@,
    {
        AccountAddress(bytes)
    }

    /// The bytes of the address.
    pub fn to_bytes(&self) -> (res: [u8; 32])
        ensures
            res@ == self@,
    {
        self.0
    }

    /// The address made of the 32 bytes of `bytes` that start at `start`.
    pub fn from_slice(bytes: &[u8], start: usize) -> (res: Self)
        requires
            start + ADDRESS_LENGTH <= bytes@.len(),
        ensures
            res@ == bytes@.subrange(start as int, start + ADDRESS_LENGTH),
    {
        let mut a: [u8; 32] = [0u8; 32];
        let mut i: usize = 0;
        while i < 32
            invariant
                i <= 32,
                start + 32 <= bytes.len(),
                bytes.len() == bytes@.len(),
                forall|j: int| 0 <= j < i ==> a@[j] == bytes@[start + j],
            decreases 32 - i,
        {
            a[i] = bytes[start + i];
            i = i + 1;
        }
        assert(a@ =~= bytes@.subrange(start as int, start + 32));
        AccountAddress(a)
    }
}

/// A dependency edge: the account that holds a package, and its name.
/// Dependencies are ordered by account, then by name.
#[derive(Clone, Debug, PartialEq, Eq, Ord)]
pub struct PackageDep {
    pub account: AccountAddress,
    pub package_name: String,
}

/// What a [`PackageDep`] stands for.
pub struct PackageDepView {
    pub account: Seq<u8>,
    pub package_name: Seq<char>,
}

impl View for PackageDep {
    type V = PackageDepView;

    open spec fn view(&self) -> PackageDepView {
        PackageDepView { account: self.account@, package_name: self.package_name@ }
    }
}

/// One compiled module of a package, with its source text and source map.
#[derive(Clone, Debug, PartialEq, Eq)]
pub struct ModuleMetadata {
    pub name: String,
    pub source: Vec<u8>,
    pub source_map: Vec<u8>,
    pub extension: MoveOption<Any>,
}

/// What a [`ModuleMetadata`] stands for.
pub struct ModuleMetadataView {
    pub name: Seq<char>,
    pub source: Seq<u8>,
    pub source_map: Seq<u8>,
    pub extension: Seq<AnyView>,
}

impl View for ModuleMetadata {
    type V = ModuleMetadataView;

    open spec fn view(&self) -> ModuleMetadataView {
        ModuleMetadataView {
            name: self.name@,
            source: self.source@,
            source_map: self.source_map@,
            extension: self.extension@,
        }
    }
}

/// The metadata of a package. The order of the fields, of the modules and
/// of the dependencies is the order on the wire.
#[derive(Clone, Debug, PartialEq, Eq)]
pub struct PackageMetadata {
    pub name: String,
    pub upgrade_policy: UpgradePolicy,
    pub upgrade_number: u64,
    pub source_digest: String,
    pub manifest: Vec<u8>,
    pub modules: Vec<ModuleMetadata>,
    pub deps: Vec<PackageDep>,
    pub extension: MoveOption<Any>,
}

/// What a [`PackageMetadata`] stands for.
pub struct PackageMetadataView {
    pub name: Seq<char>,
    pub upgrade_policy: u8,
    pub upgrade_number: u64,
    pub source_digest: Seq<char>,
    pub manifest: Seq<u8>,
    pub modules: Seq<ModuleMetadataView>,
    pub deps: Seq<PackageDepView>,
    pub extension: Seq<AnyView>,
}

impl View for PackageMetadata {
    type V = PackageMetadataView;

    open spec fn view(&self) -> PackageMetadataView {
        PackageMetadataView {
            name: self.name@,
            upgrade_policy: self.upgrade_policy.policy,
            upgrade_number: self.upgrade_number,
            source_digest: self.source_digest@,
            manifest: self.manifest@,
            modules: views(self.modules@),
            deps: views(self.deps@),
            extension: self.extension@,
        }
    }
}

} // verus!
