//! The order of addresses and of dependencies.
//!
//! Addresses are ordered byte by byte; dependencies by their account, and
//! under one account by the bytes of their package name.

use std::cmp::Ordering;
use vstd::prelude::*;
use vstd::std_specs::cmp::PartialOrdSpecImpl;
use vstd::utf8::encode_utf8;
use crate::lexical::{bytes_less, lex_less};
use crate::model::{AccountAddress, PackageDep};

verus! {

/// The place of `a` relative to `b` in the byte-wise order.
pub open spec fn lex_order(a: Seq<u8>, b: Seq<u8>) -> Ordering {
    if lex_less(a, b) {
        Ordering::Less
    } else if lex_less(b, a) {
        Ordering::Greater
    } else {
        Ordering::Equal
    }
}

/// The place of `a` relative to `b` in the byte-wise order.
pub fn compare_bytes(a: &[u8], b: &[u8]) -> (res: Ordering)
    ensures
        res == lex_order(a@, b@),
{
    if bytes_less(a, b) {
        Ordering::Less
    } else if bytes_less(b, a) {
        Ordering::Greater
    } else {
        Ordering::Equal
    }
}

impl PartialOrd for AccountAddress {
    fn partial_cmp(&self, other: &Self) -> (res: Option<Ordering>) {
        let a = self.to_bytes();
        let b = other.to_bytes();
        Some(compare_bytes(a.as_slice(), b.as_slice()))
    }
}

impl PartialOrdSpecImpl for AccountAddress {
    open spec fn obeys_partial_cmp_spec() -> bool {
        true
    }

    open spec fn partial_cmp_spec(&self, other: &Self) -> Option<Ordering> {
        Some(lex_order(self@, other@))
    }
}

impl PartialOrd for PackageDep {
    fn partial_cmp(&self, other: &Self) -> (res: Option<Ordering>) {
        let a = self.account.to_bytes();
        let b = other.account.to_bytes();
        match compare_bytes(a.as_slice(), b.as_slice()) {
            Ordering::Less => Some(Ordering::Less),
            Ordering::Greater => Some(Ordering::Greater),
            Ordering::Equal => Some(
                compare_bytes(
                    self.package_name.as_str().as_bytes(),
                    other.package_name.as_str().as_bytes(),
                ),
            ),
        }
    }
}

impl PartialOrdSpecImpl for PackageDep {
    open spec fn obeys_partial_cmp_spec() -> bool {
        true
    }

    open spec fn partial_cmp_spec(&self, other: &Self) -> Option<Ordering> {
        Some(
            match lex_order(self.account@, other.account@) {
                Ordering::Less => Ordering::Less,
                Ordering::Greater => Ordering::Greater,
                Ordering::Equal => lex_order(
                    encode_utf8(self.package_name@),
                    encode_utf8(other.package_name@),
                ),
            },
        )
    }
}

} // verus!
