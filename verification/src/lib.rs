//! Deterministic, storage-independent validation and replay for the sealed
//! draft-v1 Automerge documents-over-Nostr protocol.
//!
//! The crate is a batch reference engine. It does not perform networking,
//! persistence, signing, key custody, or application-schema validation.

pub mod types;
pub mod ordered;
pub mod work_budget;
pub mod text;
pub mod limits;
pub mod profile;
pub mod diagnostic;
pub mod integrity;
pub mod graph;
pub mod reference;

use vstd::prelude::*;

verus! {

/// The version of this implementation.
pub const IMPLEMENTATION_VERSION: &'static str = "0.1.0-alpha.0";

} // verus!
