//! Read-only validity limits of the sealed draft-v1 protocol profile.

use vstd::prelude::*;

verus! {

/// A sealed byte-count validity limit.
#[derive(Clone, Copy, Debug, PartialEq, Eq, PartialOrd, Ord)]
pub struct ByteLimit(u64);

impl ByteLimit {
    /// The limit's value.
    pub closed spec fn value(self) -> u64 {
        self.0
    }

    fn new(value: u64) -> (l: Self)
        ensures
            l.value() == value,
    {
        ByteLimit(value)
    }

    /// Returns the limit as its canonical unsigned value.
    pub fn get(self) -> (v: u64)
        ensures
            v == self.value(),
    {
        self.0
    }

    /// Converts to the current platform's allocation index width.
    pub fn try_usize(self) -> (r: Result<usize, LimitConversionError>)
        ensures
            r is Ok <==> self.value() <= usize::MAX,
            r matches Ok(v) ==> v == self.value(),
    {
        if self.0 <= usize::MAX as u64 {
            Ok(self.0 as usize)
        } else {
            Err(LimitConversionError)
        }
    }
}

/// A sealed item-count validity limit.
#[derive(Clone, Copy, Debug, PartialEq, Eq, PartialOrd, Ord)]
pub struct ItemLimit(u64);

impl ItemLimit {
    /// The limit's value.
    pub closed spec fn value(self) -> u64 {
        self.0
    }

    fn new(value: u64) -> (l: Self)
        ensures
            l.value() == value,
    {
        ItemLimit(value)
    }

    /// Returns the limit as its canonical unsigned value.
    pub fn get(self) -> (v: u64)
        ensures
            v == self.value(),
    {
        self.0
    }

    /// Converts to the current platform's collection index width.
    pub fn try_usize(self) -> (r: Result<usize, LimitConversionError>)
        ensures
            r is Ok <==> self.value() <= usize::MAX,
            r matches Ok(v) ==> v == self.value(),
    {
        if self.0 <= usize::MAX as u64 {
            Ok(self.0 as usize)
        } else {
            Err(LimitConversionError)
        }
    }
}

/// A checked integer conversion could not represent a sealed limit.
#[derive(Clone, Copy, Debug, PartialEq, Eq)]
pub struct LimitConversionError;

impl LimitConversionError {
    /// The error's message.
    pub fn to_string(&self) -> (s: &'static str)
        ensures
            s@ == "protocol limit does not fit the platform index width"@,
    {
        "protocol limit does not fit the platform index width"
    }
}

/// Read-only validity limits for the sealed draft-v1 protocol profile.
#[derive(Clone, Copy, Debug, PartialEq, Eq)]
pub struct ProtocolLimits {
    /// Maximum complete raw NIP-01 event bytes accepted at ingress.
    pub raw_event: ByteLimit,
    /// Maximum canonical manifest content bytes.
    pub manifest_content: ByteLimit,
    /// Maximum canonical control content bytes.
    pub control_content: ByteLimit,
    /// Maximum members in one complete control.
    pub control_members: ItemLimit,
    /// Maximum heads in one control frontier.
    pub control_heads: ItemLimit,
    /// Maximum decoded bytes in one Automerge change chunk.
    pub change_bytes: ByteLimit,
    /// Maximum operations in one change.
    pub change_operations: ItemLimit,
    /// Maximum dependencies in one change.
    pub change_dependencies: ItemLimit,
    /// Maximum bytes in one complete raw checkpoint.
    pub checkpoint_bytes: ByteLimit,
    /// Maximum chunks in one checkpoint.
    pub checkpoint_chunks: ItemLimit,
    /// Maximum decoded bytes in one checkpoint chunk.
    pub checkpoint_chunk_bytes: ByteLimit,
    /// Maximum heads in one checkpoint descriptor.
    pub checkpoint_heads: ItemLimit,
    /// Maximum changes embedded in one checkpoint.
    pub checkpoint_changes: ItemLimit,
    /// Maximum operations embedded in one checkpoint.
    pub checkpoint_operations: ItemLimit,
    /// Maximum dependency edges embedded in one checkpoint.
    pub checkpoint_dependency_edges: ItemLimit,
}

impl ProtocolLimits {
    /// The draft-v1 limits.
    pub fn draft_v1() -> (l: Self)
        ensures
            l.raw_event.value() == 262_144,
            l.manifest_content.value() == 16_384,
            l.control_content.value() == 32_768,
            l.control_members.value() == 256,
            l.control_heads.value() == 64,
            l.change_bytes.value() == 32_768,
            l.change_operations.value() == 16_384,
            l.change_dependencies.value() == 256,
            l.checkpoint_bytes.value() == 67_108_864,
            l.checkpoint_chunks.value() == 4_096,
            l.checkpoint_chunk_bytes.value() == 32_768,
            l.checkpoint_heads.value() == 256,
            l.checkpoint_changes.value() == 1_000_000,
            l.checkpoint_operations.value() == 10_000_000,
            l.checkpoint_dependency_edges.value() == 20_000_000,
    {
        ProtocolLimits {
            raw_event: ByteLimit::new(262_144),
            manifest_content: ByteLimit::new(16_384),
            control_content: ByteLimit::new(32_768),
            control_members: ItemLimit::new(256),
            control_heads: ItemLimit::new(64),
            change_bytes: ByteLimit::new(32_768),
            change_operations: ItemLimit::new(16_384),
            change_dependencies: ItemLimit::new(256),
            checkpoint_bytes: ByteLimit::new(67_108_864),
            checkpoint_chunks: ItemLimit::new(4_096),
            checkpoint_chunk_bytes: ByteLimit::new(32_768),
            checkpoint_heads: ItemLimit::new(256),
            checkpoint_changes: ItemLimit::new(1_000_000),
            checkpoint_operations: ItemLimit::new(10_000_000),
            checkpoint_dependency_edges: ItemLimit::new(20_000_000),
        }
    }
}

} // verus!
