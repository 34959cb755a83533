//! The one sealed protocol revision implemented by this crate.

pub mod kinds;

use vstd::prelude::*;
use crate::text::str_equals;

verus! {

/// The one sealed protocol revision implemented by this crate.
///
/// Callers can look up the approved revision but cannot construct alternate
/// behavior or substitute profile strings.
#[derive(Clone, Copy, Debug, PartialEq, Eq, Hash)]
pub struct ProtocolRevision(SealedRevision);

#[derive(Clone, Copy, Debug, PartialEq, Eq, Hash)]
enum SealedRevision {
    Draft2026_08,
}

impl ProtocolRevision {
    /// Returns the approved draft-v1 revision.
    pub fn draft_v1() -> (r: Self)
        ensures
            r == Self::spec_draft_v1(),
    {
        ProtocolRevision(SealedRevision::Draft2026_08)
    }

    /// The approved draft-v1 revision.
    pub closed spec fn spec_draft_v1() -> Self {
        ProtocolRevision(SealedRevision::Draft2026_08)
    }

    /// There is one revision: every value is the approved draft-v1 revision,
    /// so looking up any revision's identifier gives that revision back.
    pub proof fn lemma_only_revision(r: Self)
        ensures
            r == Self::spec_draft_v1(),
    {
        match r.0 {
            SealedRevision::Draft2026_08 => {},
        }
    }

    /// Looks up a supported exact revision identifier.
    pub fn lookup(identifier: &str) -> (r: Option<Self>)
        ensures
            r is Some <==> identifier@ == "draft_2026_08"@,
            r matches Some(v) ==> v == Self::spec_draft_v1(),
    {
        if str_equals(identifier, "draft_2026_08") {
            Some(Self::draft_v1())
        } else {
            None
        }
    }

    /// Returns the stable revision identifier used by signed content and reports.
    pub fn identifier(self) -> (s: &'static str)
        ensures
            s@ == "draft_2026_08"@,
    {
        match self.0 {
            SealedRevision::Draft2026_08 => "draft_2026_08",
        }
    }

    /// Returns the exact Automerge format identifier.
    pub fn format(self) -> (s: &'static str)
        ensures
            s@ == "automerge-change-v1"@,
    {
        match self.0 {
            SealedRevision::Draft2026_08 => "automerge-change-v1",
        }
    }

    /// Returns the exact text-index encoding identifier.
    pub fn text_encoding(self) -> (s: &'static str)
        ensures
            s@ == "utf16"@,
    {
        match self.0 {
            SealedRevision::Draft2026_08 => "utf16",
        }
    }

    /// Classifies an event kind under this revision.
    pub fn classify_kind(self, kind: u16) -> (r: Option<kinds::CarrierKind>)
        ensures
            r == kinds::kind_of(kind),
    {
        match self.0 {
            SealedRevision::Draft2026_08 => kinds::classify(kind),
        }
    }
}

} // verus!
