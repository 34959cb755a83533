//! Whether a candidate's dependency closure covers the epoch's base heads.

use vstd::prelude::*;
use crate::ordered::OrdSet;
use crate::types::ChangeHash;

verus! {

/// The ancestry outcome of a candidate against its epoch base.
#[derive(Clone, Copy, Debug, PartialEq, Eq, Structural)]
pub enum EpochAncestry {
    /// The closure is complete and reaches every base head.
    Valid,
    /// Some dependency is not yet known.
    PendingMissing,
    /// The closure is complete but omits a base head.
    InvalidOmission,
}

/// What an ancestry walk observed.
#[derive(Clone, Copy, Debug, PartialEq, Eq, Structural)]
pub enum EpochAncestryObservation {
    /// Some dependency is not yet known.
    Missing,
    /// The closure is complete, and whether it omits a base head.
    Complete {
        /// Whether some base head is outside the closure.
        omits_base_head: bool,
    },
}

impl EpochAncestry {
    /// The outcome an observation decides.
    pub fn from_observation(observation: EpochAncestryObservation) -> (a: Self)
        ensures
            observation is Missing ==> a == EpochAncestry::PendingMissing,
            observation matches EpochAncestryObservation::Complete { omits_base_head } ==> a == (
            if omits_base_head {
                EpochAncestry::InvalidOmission
            } else {
                EpochAncestry::Valid
            }),
    {
        match observation {
            EpochAncestryObservation::Missing => EpochAncestry::PendingMissing,
            EpochAncestryObservation::Complete { omits_base_head: false } => EpochAncestry::Valid,
            EpochAncestryObservation::Complete { omits_base_head: true } => EpochAncestry::InvalidOmission,
        }
    }
}

/// The ancestry outcome for the given base heads, closure and missing dependencies.
pub open spec fn epoch_ancestry(
    base_heads: Set<ChangeHash>,
    dependency_closure: Set<ChangeHash>,
    missing_dependencies: Set<ChangeHash>,
) -> EpochAncestry {
    if missing_dependencies.len() > 0 {
        EpochAncestry::PendingMissing
    } else if base_heads.subset_of(dependency_closure) {
        EpochAncestry::Valid
    } else {
        EpochAncestry::InvalidOmission
    }
}

/// Classifies a candidate's ancestry against the epoch's base heads.
pub fn validate_epoch_ancestry(
    base_heads: &OrdSet<ChangeHash>,
    dependency_closure: &OrdSet<ChangeHash>,
    missing_dependencies: &OrdSet<ChangeHash>,
) -> (a: EpochAncestry)
    requires
        base_heads.wf(),
        dependency_closure.wf(),
        missing_dependencies.wf(),
    ensures
        a == epoch_ancestry(base_heads@, dependency_closure@, missing_dependencies@),
{
    if !missing_dependencies.is_empty() {
        return EpochAncestry::from_observation(EpochAncestryObservation::Missing);
    }
    let n = base_heads.len();
    let mut i: usize = 0;
    while i < n
        invariant
            n == base_heads.seq().len(),
            base_heads.wf(),
            dependency_closure.wf(),
            0 <= i <= n,
            missing_dependencies@.len() == 0,
            forall|j: int| 0 <= j < i ==> dependency_closure@.contains(#[trigger] base_heads.seq()[j]),
        decreases n - i,
    {
        let head = base_heads.get(i);
        if !dependency_closure.contains(&head) {
            proof {
                assert(base_heads.seq()[i as int] == head);
                assert(base_heads@.contains(head));
            }
            return EpochAncestry::from_observation(
                EpochAncestryObservation::Complete { omits_base_head: true },
            );
        }
        i = i + 1;
    }
    proof {
        assert forall|h: ChangeHash| base_heads@.contains(h) implies dependency_closure@.contains(h) by {
            let j = choose|j: int| 0 <= j < base_heads.seq().len() && base_heads.seq()[j] == h;
            assert(dependency_closure@.contains(base_heads.seq()[j]));
        }
    }
    EpochAncestry::from_observation(EpochAncestryObservation::Complete { omits_base_head: false })
}

} // verus!
