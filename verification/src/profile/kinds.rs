//! Provisional carrier event kinds of the draft-v1 profile.

use vstd::prelude::*;

verus! {

/// Kind of a change carrier.
pub const CHANGE: u16 = 1624;

/// Kind of a control carrier.
pub const CONTROL: u16 = 1625;

/// Kind of a checkpoint descriptor.
pub const CHECKPOINT_DESCRIPTOR: u16 = 1626;

/// Kind of a checkpoint chunk.
pub const CHECKPOINT_CHUNK: u16 = 1627;

/// Kind of a document manifest.
pub const MANIFEST: u16 = 31624;

/// The closed set of carrier kinds.
#[derive(Clone, Copy, Debug, PartialEq, Eq, Structural)]
pub enum CarrierKind {
    /// A change carrier.
    Change,
    /// A control carrier.
    Control,
    /// A checkpoint descriptor.
    CheckpointDescriptor,
    /// A checkpoint chunk.
    CheckpointChunk,
    /// A document manifest.
    Manifest,
}

/// The carrier kind numbered `kind`, if any.
pub open spec fn kind_of(kind: u16) -> Option<CarrierKind> {
    if kind == CHANGE {
        Some(CarrierKind::Change)
    } else if kind == CONTROL {
        Some(CarrierKind::Control)
    } else if kind == CHECKPOINT_DESCRIPTOR {
        Some(CarrierKind::CheckpointDescriptor)
    } else if kind == CHECKPOINT_CHUNK {
        Some(CarrierKind::CheckpointChunk)
    } else if kind == MANIFEST {
        Some(CarrierKind::Manifest)
    } else {
        None
    }
}

/// Classifies an event kind number.
pub fn classify(kind: u16) -> (r: Option<CarrierKind>)
    ensures
        r == kind_of(kind),
{
    if kind == CHANGE {
        Some(CarrierKind::Change)
    } else if kind == CONTROL {
        Some(CarrierKind::Control)
    } else if kind == CHECKPOINT_DESCRIPTOR {
        Some(CarrierKind::CheckpointDescriptor)
    } else if kind == CHECKPOINT_CHUNK {
        Some(CarrierKind::CheckpointChunk)
    } else if kind == MANIFEST {
        Some(CarrierKind::Manifest)
    } else {
        None
    }
}

} // verus!

verus! {

/// A kind number names a carrier kind exactly when it is one of the five
/// provisional numbers 1624, 1625, 1626, 1627 and 31624; every other number,
/// however close to them, names none.
pub proof fn lemma_kind_of_closed(kind: u16)
    ensures
        kind_of(kind) is Some <==> (kind == 1624u16 || kind == 1625u16 || kind == 1626u16 || kind == 1627u16 || kind
            == 31624u16),
{
}

/// Each provisional number names its own kind, and no two numbers name the
/// same kind.
pub proof fn lemma_kind_of_injective(a: u16, b: u16)
    requires
        kind_of(a) is Some,
        kind_of(a) == kind_of(b),
    ensures
        a == b,
        kind_of(1624u16) == Some(CarrierKind::Change),
        kind_of(1625u16) == Some(CarrierKind::Control),
        kind_of(1626u16) == Some(CarrierKind::CheckpointDescriptor),
        kind_of(1627u16) == Some(CarrierKind::CheckpointChunk),
        kind_of(31624u16) == Some(CarrierKind::Manifest),
{
}

} // verus!
