//! Integrity alerts emitted without changing canonical selection rules.

use vstd::prelude::*;
use crate::diagnostic::DiagnosticCode;
use crate::ordered::strictly_sorted;
use crate::text::str_starts_with;
use crate::types::{ActorId, ChangeHash, EventId, OrderedKey};

verus! {

/// A closed integrity alert emitted without changing canonical selection rules.
#[derive(Clone, Debug, PartialEq, Eq, PartialOrd, Ord)]
pub enum IntegrityAlert {
    /// More than one otherwise-valid controller child exists.
    ControllerEquivocation(ControllerEquivocationAlert),
    /// Late evidence changed the canonical control chain.
    CanonicalControlReorganization(CanonicalControlReorganizationAlert),
    /// One actor emitted distinct changes at the same sequence.
    DeviceEquivocation(DeviceEquivocationAlert),
    /// Carrier evidence suggests one device key may be cloned.
    PotentialClonedDeviceKey(PotentialClonedDeviceKeyAlert),
    /// Verified checkpoint commitments disagree.
    CheckpointMismatch(CheckpointMismatchAlert),
}

/// Whether `values` is strictly ascending with at least `minimum` members.
pub open spec fn canonical_set<K: OrderedKey>(values: Seq<K>, minimum: int) -> bool {
    values.len() >= minimum && strictly_sorted(values)
}

/// Checks that `values` is strictly ascending and has at least `minimum` members.
pub fn canonical<K: OrderedKey>(values: &Vec<K>, minimum: usize) -> (r: Result<(), AlertError>)
    ensures
        r is Ok <==> canonical_set(values@, minimum as int),
{
    if values.len() < minimum {
        return Err(AlertError);
    }
    let n = values.len();
    if n == 0 {
        return Ok(());
    }
    let mut i: usize = 1;
    while i < n
        invariant
            1 <= i <= n,
            n == values@.len(),
            strictly_sorted(values@.subrange(0, i as int)),
        decreases n - i,
    {
        if !values[i - 1].less_than(&values[i]) {
            proof {
                assert(!strictly_sorted(values@)) by {
                    assert(!values@[i - 1].precedes(values@[i as int]));
                }
            }
            return Err(AlertError);
        }
        proof {
            let s = values@.subrange(0, i + 1);
            assert forall|a: int, b: int| 0 <= a < b < s.len() implies #[trigger] s[a].precedes(
                #[trigger] s[b],
            ) by {
                if b < i {
                    assert(values@.subrange(0, i as int)[a] == s[a]);
                    assert(values@.subrange(0, i as int)[b] == s[b]);
                } else if a < i - 1 {
                    assert(values@.subrange(0, i as int)[a] == s[a]);
                    assert(values@.subrange(0, i as int)[i - 1] == s[i - 1]);
                    K::lemma_order(s[a], s[i - 1], s[b]);
                }
            }
        }
        i = i + 1;
    }
    assert(values@.subrange(0, n as int) =~= values@);
    Ok(())
}

/// Validated controller-sibling equivocation details.
#[derive(Clone, Debug, PartialEq, Eq, PartialOrd, Ord)]
pub struct ControllerEquivocationAlert {
    parent_control: Option<EventId>,
    candidate_controls: Vec<EventId>,
    selected_control: EventId,
}

impl ControllerEquivocationAlert {
    /// The parent control, or none for competing genesis controls.
    pub closed spec fn parent(&self) -> Option<EventId> {
        self.parent_control
    }

    /// The canonical candidate controls.
    pub closed spec fn candidates(&self) -> Seq<EventId> {
        self.candidate_controls@
    }

    /// The selected child.
    pub closed spec fn selected(&self) -> EventId {
        self.selected_control
    }

    /// Constructs details from a strictly sorted candidate set whose lowest
    /// member is the selection.
    pub fn new(
        parent_control: Option<EventId>,
        candidate_controls: Vec<EventId>,
        selected_control: EventId,
    ) -> (r: Result<Self, AlertError>)
        ensures
            r is Ok <==> canonical_set(candidate_controls@, 2) && candidate_controls@[0] == selected_control,
            r matches Ok(a) ==> a.parent() == parent_control && a.candidates()
                == candidate_controls@ && a.selected() == selected_control && a.candidates()[0] == a.selected(),
    {
        canonical(&candidate_controls, 2)?;
        if !candidate_controls[0].same_as(&selected_control) {
            return Err(AlertError);
        }
        Ok(ControllerEquivocationAlert { parent_control, candidate_controls, selected_control })
    }

    /// Constructs an alert from an engine-owned ordered candidate traversal.
    pub(crate) fn from_validated_parts(
        parent_control: Option<EventId>,
        candidate_controls: Vec<EventId>,
        selected_control: EventId,
    ) -> (a: Self)
        requires
            canonical_set(candidate_controls@, 2),
            candidate_controls@[0] == selected_control,
        ensures
            a.parent() == parent_control,
            a.candidates() == candidate_controls@,
            a.selected() == selected_control,
    {
        ControllerEquivocationAlert { parent_control, candidate_controls, selected_control }
    }

    /// Returns the canonical candidate controls.
    pub fn candidate_controls(&self) -> (s: &[EventId])
        ensures
            s@ == self.candidates(),
    {
        self.candidate_controls.as_slice()
    }

    /// Returns the parent, or none for competing genesis controls.
    pub fn parent_control(&self) -> (p: Option<EventId>)
        ensures
            p == self.parent(),
    {
        self.parent_control
    }

    /// Returns the decoded-byte-lowest selected child.
    pub fn selected_control(&self) -> (s: EventId)
        ensures
            s == self.selected(),
    {
        self.selected_control
    }
}

/// Validated canonical-control reorganization details.
#[derive(Clone, Debug, PartialEq, Eq, PartialOrd, Ord)]
pub struct CanonicalControlReorganizationAlert {
    previous_tip: EventId,
    new_tip: EventId,
    affected_changes: Vec<ChangeHash>,
}

impl CanonicalControlReorganizationAlert {
    /// The previously selected tip.
    pub closed spec fn previous(&self) -> EventId {
        self.previous_tip
    }

    /// The newly selected tip.
    pub closed spec fn current(&self) -> EventId {
        self.new_tip
    }

    /// The affected changes.
    pub closed spec fn affected(&self) -> Seq<ChangeHash> {
        self.affected_changes@
    }

    /// Constructs details with a strictly sorted affected-change set.
    pub fn new(previous_tip: EventId, new_tip: EventId, affected_changes: Vec<ChangeHash>) -> (r:
        Result<Self, AlertError>)
        ensures
            r is Ok <==> canonical_set(affected_changes@, 0) && previous_tip != new_tip,
            r matches Ok(a) ==> a.previous() == previous_tip && a.current() == new_tip
                && a.affected() == affected_changes@,
    {
        canonical(&affected_changes, 0)?;
        if previous_tip.same_as(&new_tip) {
            return Err(AlertError);
        }
        Ok(CanonicalControlReorganizationAlert { previous_tip, new_tip, affected_changes })
    }

    /// Constructs an alert after the engine has validated these exact fields.
    pub(crate) fn from_validated_parts(
        previous_tip: EventId,
        new_tip: EventId,
        affected_changes: Vec<ChangeHash>,
    ) -> (a: Self)
        requires
            canonical_set(affected_changes@, 0),
            previous_tip != new_tip,
        ensures
            a.previous() == previous_tip,
            a.current() == new_tip,
            a.affected() == affected_changes@,
    {
        CanonicalControlReorganizationAlert { previous_tip, new_tip, affected_changes }
    }

    /// Returns the previously selected tip.
    pub fn previous_tip(&self) -> (t: EventId)
        ensures
            t == self.previous(),
    {
        self.previous_tip
    }

    /// Returns the newly selected tip.
    pub fn new_tip(&self) -> (t: EventId)
        ensures
            t == self.current(),
    {
        self.new_tip
    }

    /// Returns canonically sorted changes affected by the reorganization.
    pub fn affected_changes(&self) -> (s: &[ChangeHash])
        ensures
            s@ == self.affected(),
    {
        self.affected_changes.as_slice()
    }
}

/// Validated device-equivocation and descendant-quarantine details.
#[derive(Clone, Debug, PartialEq, Eq, PartialOrd, Ord)]
pub struct DeviceEquivocationAlert {
    actor_id: ActorId,
    first_sequence: u64,
    conflicting_changes: Vec<ChangeHash>,
    affected_descendants: Vec<ChangeHash>,
}

impl DeviceEquivocationAlert {
    /// The equivocated actor.
    pub closed spec fn actor(&self) -> ActorId {
        self.actor_id
    }

    /// The first conflicting sequence.
    pub closed spec fn sequence(&self) -> u64 {
        self.first_sequence
    }

    /// The conflicting changes.
    pub closed spec fn conflicts(&self) -> Seq<ChangeHash> {
        self.conflicting_changes@
    }

    /// The quarantined descendants.
    pub closed spec fn descendants(&self) -> Seq<ChangeHash> {
        self.affected_descendants@
    }

    /// Constructs details from canonical sets at a nonzero actor sequence.
    pub fn new(
        actor_id: ActorId,
        first_sequence: u64,
        conflicting_changes: Vec<ChangeHash>,
        affected_descendants: Vec<ChangeHash>,
    ) -> (r: Result<Self, AlertError>)
        ensures
            r is Ok <==> first_sequence != 0 && canonical_set(conflicting_changes@, 2)
                && canonical_set(affected_descendants@, 0),
            r matches Ok(a) ==> a.actor() == actor_id && a.sequence() == first_sequence
                && a.conflicts() == conflicting_changes@ && a.descendants()
                == affected_descendants@,
    {
        if first_sequence == 0 {
            return Err(AlertError);
        }
        canonical(&conflicting_changes, 2)?;
        canonical(&affected_descendants, 0)?;
        Ok(DeviceEquivocationAlert {
            actor_id,
            first_sequence,
            conflicting_changes,
            affected_descendants,
        })
    }

    /// Constructs an alert from engine-owned canonical set projections.
    pub(crate) fn from_validated_parts(
        actor_id: ActorId,
        first_sequence: u64,
        conflicting_changes: Vec<ChangeHash>,
        affected_descendants: Vec<ChangeHash>,
    ) -> (a: Self)
        requires
            first_sequence != 0,
            canonical_set(conflicting_changes@, 2),
            canonical_set(affected_descendants@, 0),
        ensures
            a.actor() == actor_id,
            a.sequence() == first_sequence,
            a.conflicts() == conflicting_changes@,
            a.descendants() == affected_descendants@,
    {
        DeviceEquivocationAlert {
            actor_id,
            first_sequence,
            conflicting_changes,
            affected_descendants,
        }
    }

    /// Returns the equivocated actor.
    pub fn actor_id(&self) -> (a: ActorId)
        ensures
            a == self.actor(),
    {
        self.actor_id
    }

    /// Returns the first conflicting nonzero sequence.
    pub fn first_sequence(&self) -> (s: u64)
        ensures
            s == self.sequence(),
    {
        self.first_sequence
    }

    /// Returns the canonical conflicting change set.
    pub fn conflicting_changes(&self) -> (s: &[ChangeHash])
        ensures
            s@ == self.conflicts(),
    {
        self.conflicting_changes.as_slice()
    }

    /// Returns the canonical quarantined descendant set.
    pub fn affected_descendants(&self) -> (s: &[ChangeHash])
        ensures
            s@ == self.descendants(),
    {
        self.affected_descendants.as_slice()
    }
}

/// Validated carrier evidence for a potentially cloned device key.
#[derive(Clone, Debug, PartialEq, Eq, PartialOrd, Ord)]
pub struct PotentialClonedDeviceKeyAlert {
    actor_id: ActorId,
    first_sequence: u64,
    carrier_event_ids: Vec<EventId>,
}

impl PotentialClonedDeviceKeyAlert {
    /// The actor associated with the device key.
    pub closed spec fn actor(&self) -> ActorId {
        self.actor_id
    }

    /// The first suspicious sequence.
    pub closed spec fn sequence(&self) -> u64 {
        self.first_sequence
    }

    /// The supporting carriers.
    pub closed spec fn carriers(&self) -> Seq<EventId> {
        self.carrier_event_ids@
    }

    /// Constructs details from a nonzero sequence and canonical carrier set.
    pub fn new(actor_id: ActorId, first_sequence: u64, carrier_event_ids: Vec<EventId>) -> (r:
        Result<Self, AlertError>)
        ensures
            r is Ok <==> first_sequence != 0 && canonical_set(carrier_event_ids@, 2),
            r matches Ok(a) ==> a.actor() == actor_id && a.sequence() == first_sequence
                && a.carriers() == carrier_event_ids@,
    {
        if first_sequence == 0 {
            return Err(AlertError);
        }
        canonical(&carrier_event_ids, 2)?;
        Ok(PotentialClonedDeviceKeyAlert { actor_id, first_sequence, carrier_event_ids })
    }

    /// Returns the actor associated with the device key.
    pub fn actor_id(&self) -> (a: ActorId)
        ensures
            a == self.actor(),
    {
        self.actor_id
    }

    /// Returns the first suspicious sequence.
    pub fn first_sequence(&self) -> (s: u64)
        ensures
            s == self.sequence(),
    {
        self.first_sequence
    }

    /// Returns canonical supporting carrier event identifiers.
    pub fn carrier_event_ids(&self) -> (s: &[EventId])
        ensures
            s@ == self.carriers(),
    {
        self.carrier_event_ids.as_slice()
    }
}

/// Validated checkpoint mismatch details.
#[derive(Clone, Copy, Debug, PartialEq, Eq, PartialOrd, Ord)]
pub struct CheckpointMismatchAlert {
    descriptor_event_id: EventId,
    code: DiagnosticCode,
}

/// Whether a diagnostic code belongs to the checkpoint family.
pub open spec fn is_checkpoint_code(code: Seq<char>) -> bool {
    "checkpoint."@.len() <= code.len() && code.subrange(0, "checkpoint."@.len() as int)
        == "checkpoint."@
}

impl CheckpointMismatchAlert {
    /// The checkpoint descriptor event.
    pub closed spec fn descriptor(&self) -> EventId {
        self.descriptor_event_id
    }

    /// The diagnostic.
    pub closed spec fn diagnostic(&self) -> DiagnosticCode {
        self.code
    }

    /// Constructs mismatch details using a stable checkpoint diagnostic.
    pub fn new(descriptor_event_id: EventId, code: DiagnosticCode) -> (r: Result<Self, AlertError>)
        ensures
            r is Ok <==> is_checkpoint_code(code.text()),
            r matches Ok(a) ==> a.descriptor() == descriptor_event_id && a.diagnostic() == code,
    {
        if !str_starts_with(code.as_str(), "checkpoint.") {
            return Err(AlertError);
        }
        Ok(CheckpointMismatchAlert { descriptor_event_id, code })
    }

    /// Returns the checkpoint descriptor event.
    pub fn descriptor_event_id(&self) -> (e: EventId)
        ensures
            e == self.descriptor(),
    {
        self.descriptor_event_id
    }

    /// Returns the stable checkpoint diagnostic.
    pub fn code(&self) -> (c: DiagnosticCode)
        ensures
            c == self.diagnostic(),
    {
        self.code
    }
}

/// Integrity alert fields were not canonical or internally consistent.
#[derive(Clone, Copy, Debug, PartialEq, Eq, Structural)]
pub struct AlertError;

impl AlertError {
    /// The error's message.
    pub fn to_string(&self) -> (s: &'static str)
        ensures
            s@ == "integrity alert is not canonical"@,
    {
        "integrity alert is not canonical"
    }
}

} // verus!
