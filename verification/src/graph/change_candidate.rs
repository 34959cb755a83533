//! Validated change metadata assembled from its carrier events.

use vstd::prelude::*;
use crate::ordered::{OrdSet, strictly_sorted};
use crate::types::{ActorId, ChangeHash, DevicePublicKey, EventId, OrderedKey, copy_digests, digests_equal};

verus! {

/// The change metadata one carrier event declares.
#[derive(Clone, Debug, PartialEq, Eq)]
pub struct CandidateCarrier {
    /// The carrier event.
    pub event_id: EventId,
    /// The carried change.
    pub change_hash: ChangeHash,
    /// The change's actor.
    pub actor: ActorId,
    /// The actor-local sequence number.
    pub sequence: u64,
    /// The first operation counter.
    pub start_op: u64,
    /// The number of operations.
    pub operation_count: u64,
    /// The declared dependencies.
    pub dependencies: Vec<ChangeHash>,
    /// The control the change is written under.
    pub control_id: EventId,
    /// The signing device.
    pub author: DevicePublicKey,
}

/// One change with the carriers that validly declare it.
#[derive(Clone, Debug, PartialEq, Eq)]
pub struct ChangeCandidate {
    /// The change hash.
    pub change_hash: ChangeHash,
    /// The change's actor.
    pub actor: ActorId,
    /// The actor-local sequence number.
    pub sequence: u64,
    /// The first operation counter.
    pub start_op: u64,
    /// The number of operations.
    pub operation_count: u64,
    /// The dependencies in canonical order.
    pub dependencies: Vec<ChangeHash>,
    /// The control the change is written under.
    pub control_id: EventId,
    /// The signing device.
    pub author: DevicePublicKey,
    /// The carrier events, ascending.
    pub valid_carriers: Vec<EventId>,
}

/// Why carriers do not describe one change.
#[derive(Clone, Copy, Debug, PartialEq, Eq, Structural)]
pub enum CandidateError {
    /// No carrier was given.
    Empty,
    /// Two carriers disagree on the change.
    Mismatch,
    /// The dependencies are not strictly ascending.
    Dependencies,
}

/// Whether a carrier declares the same change metadata as `first`.
pub open spec fn same_change(first: CandidateCarrier, other: CandidateCarrier) -> bool {
    &&& other.change_hash == first.change_hash
    &&& other.actor == first.actor
    &&& other.sequence == first.sequence
    &&& other.start_op == first.start_op
    &&& other.operation_count == first.operation_count
    &&& other.dependencies@ == first.dependencies@
    &&& other.control_id == first.control_id
    &&& other.author == first.author
}

/// Carriers describe the same change only when they agree on its hash, actor,
/// sequence, counters, dependencies, the control it is written under and its
/// author; a carrier naming another control describes another change.
pub proof fn lemma_same_change_agrees(first: CandidateCarrier, other: CandidateCarrier)
    ensures
        same_change(first, other) <==> {
            &&& other.change_hash == first.change_hash
            &&& other.actor == first.actor
            &&& other.sequence == first.sequence
            &&& other.start_op == first.start_op
            &&& other.operation_count == first.operation_count
            &&& other.dependencies@ == first.dependencies@
            &&& other.control_id == first.control_id
            &&& other.author == first.author
        },
        other.control_id != first.control_id ==> !same_change(first, other),
{
}

/// Whether two candidates hold the same metadata.
pub open spec fn same_candidate(a: ChangeCandidate, b: ChangeCandidate) -> bool {
    &&& a.change_hash == b.change_hash
    &&& a.actor == b.actor
    &&& a.sequence == b.sequence
    &&& a.start_op == b.start_op
    &&& a.operation_count == b.operation_count
    &&& a.dependencies@ == b.dependencies@
    &&& a.control_id == b.control_id
    &&& a.author == b.author
    &&& a.valid_carriers@ == b.valid_carriers@
}

impl ChangeCandidate {
    /// An exact copy of the candidate.
    pub fn duplicate(&self) -> (c: Self)
        ensures
            same_candidate(c, *self),
    {
        let c = ChangeCandidate {
            change_hash: self.change_hash,
            actor: self.actor,
            sequence: self.sequence,
            start_op: self.start_op,
            operation_count: self.operation_count,
            dependencies: copy_digests(&self.dependencies),
            control_id: self.control_id,
            author: self.author,
            valid_carriers: copy_digests(&self.valid_carriers),
        };
        assert(c.dependencies@ == self.dependencies@);
        assert(c.valid_carriers@ == self.valid_carriers@);
        c
    }

    /// Merges the carriers of one change into a candidate.
    pub fn from_carriers(carriers: Vec<CandidateCarrier>) -> (r: Result<Self, CandidateError>)
        ensures
            carriers@.len() == 0 ==> r == Err::<Self, CandidateError>(CandidateError::Empty),
            carriers@.len() > 0 && !strictly_sorted(carriers@[0].dependencies@) ==> r == Err::<
                Self,
                CandidateError,
            >(CandidateError::Dependencies),
            carriers@.len() > 0 && strictly_sorted(carriers@[0].dependencies@) ==> (r
                == Err::<Self, CandidateError>(CandidateError::Mismatch) <==> exists|i: int|
                0 < i < carriers@.len() && !same_change(carriers@[0], #[trigger] carriers@[i])),
            carriers@.len() > 0 && strictly_sorted(carriers@[0].dependencies@) && (forall|i: int|
                0 < i < carriers@.len() ==> same_change(carriers@[0], #[trigger] carriers@[i])) ==> r is Ok,
            r matches Ok(c) ==> {
                let first = carriers@[0];
                &&& c.change_hash == first.change_hash
                &&& c.actor == first.actor
                &&& c.sequence == first.sequence
                &&& c.start_op == first.start_op
                &&& c.operation_count == first.operation_count
                &&& c.dependencies@ == first.dependencies@
                &&& c.control_id == first.control_id
                &&& c.author == first.author
                &&& strictly_sorted(c.valid_carriers@)
                &&& forall|e: EventId| #[trigger] c.valid_carriers@.contains(e) <==> exists|i: int|
                    0 <= i < carriers@.len() && carriers@[i].event_id == e
            },
            r matches Ok(c) ==> forall|i: int| 0 <= i < carriers@.len() ==> {
                &&& (#[trigger] carriers@[i]).change_hash == c.change_hash
                &&& carriers@[i].actor == c.actor
                &&& carriers@[i].sequence == c.sequence
                &&& carriers@[i].start_op == c.start_op
                &&& carriers@[i].operation_count == c.operation_count
                &&& carriers@[i].dependencies@ == c.dependencies@
                &&& carriers@[i].control_id == c.control_id
                &&& carriers@[i].author == c.author
            },
    {
        let n = carriers.len();
        if n == 0 {
            return Err(CandidateError::Empty);
        }
        let first = &carriers[0];
        if crate::integrity::canonical(&first.dependencies, 0).is_err() {
            return Err(CandidateError::Dependencies);
        }
        let mut valid: OrdSet<EventId> = OrdSet::new();
        valid.insert(first.event_id);
        let mut i: usize = 1;
        while i < n
            invariant
                1 <= i <= n,
                n == carriers@.len(),
                first == carriers@[0],
                strictly_sorted(carriers@[0].dependencies@),
                valid.wf(),
                forall|j: int| 0 < j < i ==> same_change(carriers@[0], #[trigger] carriers@[j]),
                forall|e: EventId| #[trigger] valid@.contains(e) <==> exists|j: int|
                    0 <= j < i && carriers@[j].event_id == e,
            decreases n - i,
        {
            let carrier = &carriers[i];
            if carrier.change_hash != first.change_hash || carrier.actor != first.actor
                || carrier.sequence != first.sequence || carrier.start_op != first.start_op
                || carrier.operation_count != first.operation_count || !digests_equal(
                &carrier.dependencies,
                &first.dependencies,
            ) || carrier.control_id != first.control_id || carrier.author != first.author {
                proof {
                    assert(!same_change(carriers@[0], carriers@[i as int]));
                }
                return Err(CandidateError::Mismatch);
            }
            let ghost old_valid = valid@;
            valid.insert(carrier.event_id);
            proof {
                assert forall|e: EventId| #[trigger] valid@.contains(e) <==> exists|j: int|
                    0 <= j < i + 1 && carriers@[j].event_id == e by {
                    if e == carrier.event_id {
                        assert(carriers@[i as int].event_id == e);
                    }
                    if old_valid.contains(e) {
                        let j = choose|j: int| 0 <= j < i && carriers@[j].event_id == e;
                    }
                }
            }
            i = i + 1;
        }
        let first = &carriers[0];
        let c = ChangeCandidate {
            change_hash: first.change_hash,
            actor: first.actor,
            sequence: first.sequence,
            start_op: first.start_op,
            operation_count: first.operation_count,
            dependencies: copy_digests(&first.dependencies),
            control_id: first.control_id,
            author: first.author,
            valid_carriers: valid.to_vec(),
        };
        proof {
            assert forall|e: EventId| #[trigger] c.valid_carriers@.contains(e) <==> valid@.contains(e) by {
            }
            assert(!exists|j: int| 0 < j < carriers@.len() && !same_change(carriers@[0], #[trigger] carriers@[j]));
        }
        Ok(c)
    }
}

} // verus!
