//! A verified persistence core for cluster metadata records.
//!
//! Domain entities are mapped onto byte-ordered keys in a single shared
//! ordered key-value store. The key codec, the entity codec and the store
//! operations carry contracts that pin their behaviour down; the store
//! itself is an outside engine reached through a small set of trusted
//! wrappers.

use vstd::prelude::*;

pub mod bytes_util;
pub mod clusters;
pub mod codec;
pub mod config;
pub mod entity;
pub mod keys;
pub mod store;

verus! {

/// The failures a store operation can surface.
///
/// Absence of a record is not a failure: point lookups report it as `None`.
#[derive(Clone, Copy, Debug, PartialEq, Eq, Structural)]
pub enum StoreError {
    /// The underlying storage engine failed at the device or file level.
    Io,
    /// A stored record's bytes do not decode to a valid entity.
    Corruption,
}

} // verus!
