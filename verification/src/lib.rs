//! Canonical binary encoding of smart-contract package metadata.
//!
//! The crate holds the data model of a package (its modules, dependencies and
//! typed extension payloads), the deterministic byte encoding of that model
//! together with its strict decoder, the fixed-width address codec, and the
//! pure steps of the two conversion pipelines built on them.

pub mod address;
pub mod canonical;
pub mod codec;
pub mod error;
pub mod hexcodec;
pub mod lexical;
pub mod model;
pub mod order;
pub mod pipeline;
pub mod roundtrip;
pub mod wire;
