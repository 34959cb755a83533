use std::cell::Cell;

use nostr_automerge::ordered::{OrdMap, OrdSet};
use nostr_automerge::reference::branch_state::PersistentDeltaMap;
use nostr_automerge::reference::epoch_engine::{PriorChangeKnowledge, PriorKnowledgeState};
use nostr_automerge::reference::evaluate::{
    extend_branch_dispositions_metered, extend_prior_knowledge_metered, propagate_control_parent_dispositions,
    BranchEvaluationState,
};
use nostr_automerge::types::{ChangeHash, EventId, ProtocolDisposition};
use nostr_automerge::work_budget::{CancellationCheck, NeverCancelled, WorkBudget, WorkCounter, WorkStop};

struct CancelAfter {
    remaining: Cell<u64>,
}

impl CancellationCheck for CancelAfter {
    fn is_cancelled(&self) -> bool {
        let left = self.remaining.get();
        if left == 0 {
            return true;
        }
        self.remaining.set(left - 1);
        false
    }
}

fn id(byte: u8) -> EventId {
    EventId::from_bytes([byte; 32])
}

fn parents_of(entries: Vec<(EventId, Option<EventId>)>) -> OrdMap<EventId, Option<EventId>> {
    let mut map = OrdMap::new();
    for (k, v) in entries {
        map.insert(k, v);
    }
    map
}

fn dispositions_of(entries: Vec<(EventId, ProtocolDisposition)>) -> OrdMap<EventId, ProtocolDisposition> {
    let mut map = OrdMap::new();
    for (k, v) in entries {
        map.insert(k, v);
    }
    map
}

fn all_equal(map: &OrdMap<EventId, ProtocolDisposition>, expected: ProtocolDisposition) -> bool {
    (0..map.len()).all(|i| *map.value_at(i) == expected)
}

fn propagation_chain(length: u16) -> OrdMap<EventId, Option<EventId>> {
    let mut map = OrdMap::new();
    for index in 0..length {
        let event_id = id((length - index) as u8);
        let parent = if index > 0 { Some(id((length - (index - 1)) as u8)) } else { None };
        map.insert(event_id, parent);
    }
    map
}

fn chain_dispositions(
    parents: &OrdMap<EventId, Option<EventId>>,
    root: EventId,
    root_state: ProtocolDisposition,
) -> OrdMap<EventId, ProtocolDisposition> {
    let mut map = OrdMap::new();
    for i in 0..parents.len() {
        let event_id = parents.key_at(i);
        map.insert(event_id, if event_id == root { root_state } else { ProtocolDisposition::Excluded });
    }
    map
}

fn control_units(budget: &WorkBudget) -> u64 {
    budget.consumed().get(WorkCounter::Control)
}

#[test]
fn branch_state_maps_exhaustively_to_final_disposition() {
    assert_eq!(BranchEvaluationState::Valid.final_disposition(true), ProtocolDisposition::Accepted);
    assert_eq!(BranchEvaluationState::Valid.final_disposition(false), ProtocolDisposition::Excluded);
    assert_eq!(BranchEvaluationState::Pending.final_disposition(true), ProtocolDisposition::Pending);
    assert_eq!(BranchEvaluationState::Invalid.final_disposition(false), ProtocolDisposition::Invalid);
}

#[test]
fn pending_parent_state_propagates_through_descendants() {
    let (parent, child, grandchild) = (id(1), id(2), id(3));
    let parents = parents_of(vec![(parent, Some(id(9))), (child, Some(parent)), (grandchild, Some(child))]);
    let mut dispositions = dispositions_of(vec![
        (parent, ProtocolDisposition::Pending),
        (child, ProtocolDisposition::Invalid),
        (grandchild, ProtocolDisposition::Excluded),
    ]);
    assert_eq!(
        propagate_control_parent_dispositions(&parents, &mut dispositions, &mut WorkBudget::new(0, 3), &NeverCancelled),
        Ok(())
    );
    assert_eq!(dispositions.get(&child), Some(&ProtocolDisposition::Pending));
    assert_eq!(dispositions.get(&grandchild), Some(&ProtocolDisposition::Pending));
}

#[test]
fn invalid_parent_state_propagates_through_descendants() {
    let (parent, child, grandchild) = (id(4), id(5), id(6));
    let parents = parents_of(vec![(parent, Some(id(8))), (child, Some(parent)), (grandchild, Some(child))]);
    let mut dispositions = dispositions_of(vec![
        (parent, ProtocolDisposition::Invalid),
        (child, ProtocolDisposition::Excluded),
        (grandchild, ProtocolDisposition::Pending),
    ]);
    assert_eq!(
        propagate_control_parent_dispositions(&parents, &mut dispositions, &mut WorkBudget::new(0, 3), &NeverCancelled),
        Ok(())
    );
    assert_eq!(dispositions.get(&child), Some(&ProtocolDisposition::Invalid));
    assert_eq!(dispositions.get(&grandchild), Some(&ProtocolDisposition::Invalid));
}

#[test]
fn deep_pending_chain_reaches_a_fixed_point_independent_of_id_order() {
    let (parent, child, grandchild) = (id(9), id(8), id(7));
    let parents = parents_of(vec![(parent, Some(id(10))), (child, Some(parent)), (grandchild, Some(child))]);
    let mut dispositions = dispositions_of(vec![
        (parent, ProtocolDisposition::Pending),
        (child, ProtocolDisposition::Excluded),
        (grandchild, ProtocolDisposition::Excluded),
    ]);
    assert_eq!(
        propagate_control_parent_dispositions(&parents, &mut dispositions, &mut WorkBudget::new(0, 3), &NeverCancelled),
        Ok(())
    );
    assert!([parent, child, grandchild]
        .into_iter()
        .all(|event_id| dispositions.get(&event_id) == Some(&ProtocolDisposition::Pending)));
}

#[test]
fn deep_invalid_chain_reaches_a_fixed_point_independent_of_id_order() {
    let (parent, child, grandchild) = (id(12), id(11), id(10));
    let parents = parents_of(vec![(parent, Some(id(13))), (child, Some(parent)), (grandchild, Some(child))]);
    let mut dispositions = dispositions_of(vec![
        (parent, ProtocolDisposition::Invalid),
        (child, ProtocolDisposition::Excluded),
        (grandchild, ProtocolDisposition::Pending),
    ]);
    assert_eq!(
        propagate_control_parent_dispositions(&parents, &mut dispositions, &mut WorkBudget::new(0, 3), &NeverCancelled),
        Ok(())
    );
    assert!([parent, child, grandchild]
        .into_iter()
        .all(|event_id| dispositions.get(&event_id) == Some(&ProtocolDisposition::Invalid)));
}

#[test]
fn parent_propagation_has_exact_linear_budget_boundaries() {
    let empty = OrdMap::new();
    assert_eq!(
        propagate_control_parent_dispositions(&empty, &mut OrdMap::new(), &mut WorkBudget::new(0, 0), &NeverCancelled),
        Ok(())
    );

    let parents = propagation_chain(200);
    let root = id(200);
    let mut exact_dispositions = chain_dispositions(&parents, root, ProtocolDisposition::Pending);
    let mut exact = WorkBudget::new(0, 199);
    assert_eq!(
        propagate_control_parent_dispositions(&parents, &mut exact_dispositions, &mut exact, &NeverCancelled),
        Ok(())
    );
    assert_eq!(control_units(&exact), 199);
    assert!(all_equal(&exact_dispositions, ProtocolDisposition::Pending));

    let mut insufficient_dispositions = chain_dispositions(&parents, root, ProtocolDisposition::Pending);
    let mut insufficient = WorkBudget::new(0, 198);
    assert_eq!(
        propagate_control_parent_dispositions(&parents, &mut insufficient_dispositions, &mut insufficient, &NeverCancelled),
        Err(WorkStop::BudgetExhausted)
    );
    assert_eq!(control_units(&insufficient), 198);
}

#[test]
fn parent_propagation_checks_every_cancellation_boundary() {
    let parents = propagation_chain(8);
    let root = id(8);
    for boundary in 0_u64..=7 {
        let cancellation = CancelAfter { remaining: Cell::new(boundary) };
        let mut dispositions = chain_dispositions(&parents, root, ProtocolDisposition::Invalid);
        let mut budget = WorkBudget::new(0, 7);
        let result = propagate_control_parent_dispositions(&parents, &mut dispositions, &mut budget, &cancellation);
        if boundary < 7 {
            assert_eq!(result, Err(WorkStop::Cancelled));
            assert_eq!(control_units(&budget), boundary);
        } else {
            assert_eq!(result, Ok(()));
            assert_eq!(control_units(&budget), 7);
            assert!(all_equal(&dispositions, ProtocolDisposition::Invalid));
        }
    }
}

#[test]
fn parent_cycles_fail_closed_after_one_visit_per_edge() {
    let (first, second) = (id(1), id(2));
    let parents = parents_of(vec![(first, Some(second)), (second, Some(first))]);
    let mut dispositions = dispositions_of(vec![
        (first, ProtocolDisposition::Pending),
        (second, ProtocolDisposition::Excluded),
    ]);
    let mut budget = WorkBudget::new(0, 2);
    assert_eq!(
        propagate_control_parent_dispositions(&parents, &mut dispositions, &mut budget, &NeverCancelled),
        Ok(())
    );
    assert!(all_equal(&dispositions, ProtocolDisposition::Invalid));
    assert_eq!(control_units(&budget), 2);
}

#[test]
fn unknown_parents_and_unrelated_entries_are_left_alone() {
    let (orphan, child, outsider) = (id(20), id(21), id(22));
    let parents = parents_of(vec![(orphan, Some(id(30))), (child, Some(orphan))]);
    let mut dispositions = dispositions_of(vec![
        (orphan, ProtocolDisposition::Accepted),
        (child, ProtocolDisposition::Excluded),
        (outsider, ProtocolDisposition::Pending),
        (id(30), ProtocolDisposition::UnsupportedRevision),
    ]);
    let mut budget = WorkBudget::new(0, 10);
    assert_eq!(
        propagate_control_parent_dispositions(&parents, &mut dispositions, &mut budget, &NeverCancelled),
        Ok(())
    );
    assert_eq!(dispositions.get(&orphan), Some(&ProtocolDisposition::Invalid));
    assert_eq!(dispositions.get(&child), Some(&ProtocolDisposition::Invalid));
    assert_eq!(dispositions.get(&outsider), Some(&ProtocolDisposition::Pending));
    assert_eq!(dispositions.get(&id(30)), Some(&ProtocolDisposition::UnsupportedRevision));
    assert_eq!(control_units(&budget), 2);
}

#[test]
fn a_tail_leading_into_a_cycle_is_invalid() {
    let (a, b, tail) = (id(1), id(2), id(3));
    let parents = parents_of(vec![(a, Some(b)), (b, Some(a)), (tail, Some(a))]);
    let mut dispositions = dispositions_of(vec![(tail, ProtocolDisposition::Accepted)]);
    assert_eq!(
        propagate_control_parent_dispositions(&parents, &mut dispositions, &mut WorkBudget::new(0, 10), &NeverCancelled),
        Ok(())
    );
    assert_eq!(dispositions.len(), 3);
    assert!(all_equal(&dispositions, ProtocolDisposition::Invalid));
}

fn hash(byte: u8) -> ChangeHash {
    ChangeHash::from_bytes([byte; 32])
}

fn one<V>(key: ChangeHash, value: V) -> OrdMap<ChangeHash, V> {
    let mut map = OrdMap::new();
    map.insert(key, value);
    map
}

fn operations(budget: &WorkBudget) -> u64 {
    budget.consumed().get(WorkCounter::GraphNode) + budget.consumed().get(WorkCounter::GraphEdge)
}

/// A budget that stops after `capacity` units, by exhaustion or by cancellation.
fn stopping_after(capacity: u64, cancel: bool) -> (WorkBudget, CancelAfter) {
    if cancel {
        (WorkBudget::new(0, 10_000), CancelAfter { remaining: Cell::new(capacity) })
    } else {
        (WorkBudget::new(0, capacity), CancelAfter { remaining: Cell::new(u64::MAX) })
    }
}

#[test]
fn branch_local_extension_owns_preparation_and_publication() {
    const DEPTH: u8 = 64;
    let target = hash(0);
    let mut parent_prior = PriorKnowledgeState::from_local(one(target, PriorChangeKnowledge::KnownInvalid));
    let mut parent_dispositions = PersistentDeltaMap::from_local(one(target, ProtocolDisposition::Excluded));
    for value in 1..DEPTH {
        parent_prior = parent_prior.extend_local(one(hash(value), PriorChangeKnowledge::KnownOtherControl));
        parent_dispositions = parent_dispositions.extend_local(one(hash(value), ProtocolDisposition::Excluded));
    }

    let additional = one(target, PriorChangeKnowledge::AcceptedInBase);
    let prior_exact = 2_u64 + 1 + u64::from(DEPTH) + 1;
    for cancel in [false, true] {
        for capacity in 0..=prior_exact + 1 {
            let (mut budget, cancellation) = stopping_after(capacity, cancel);
            let result =
                extend_prior_knowledge_metered(&parent_prior, OrdMap::new(), Some(&additional), &mut budget, &cancellation);
            if capacity < prior_exact {
                let stop = if cancel { WorkStop::Cancelled } else { WorkStop::BudgetExhausted };
                assert_eq!(result.err(), Some(stop));
                assert_eq!(operations(&budget), capacity);
                assert_eq!(parent_prior.get(&target), Some(&PriorChangeKnowledge::KnownInvalid));
            } else {
                let state = result.ok().expect("extension completes");
                assert_eq!(state.get(&target), Some(&PriorChangeKnowledge::AcceptedInBase));
                assert_eq!(operations(&budget), prior_exact);
            }
        }
    }

    let mut validated = OrdSet::new();
    validated.insert(target);
    let disposition_exact = 2 * (1_u64 + u64::from(DEPTH) + 1);
    for cancel in [false, true] {
        for capacity in 0..=disposition_exact + 1 {
            let (mut budget, cancellation) = stopping_after(capacity, cancel);
            let result = extend_branch_dispositions_metered(
                &parent_dispositions,
                None,
                &validated,
                &OrdMap::new(),
                &mut budget,
                &cancellation,
            );
            if capacity < disposition_exact {
                let stop = if cancel { WorkStop::Cancelled } else { WorkStop::BudgetExhausted };
                assert_eq!(result.err(), Some(stop));
                assert_eq!(operations(&budget), capacity);
                assert_eq!(parent_dispositions.get(&target), Some(&ProtocolDisposition::Excluded));
            } else {
                let state = result.ok().expect("extension completes");
                assert_eq!(state.get(&target), Some(&ProtocolDisposition::Accepted));
                assert_eq!(operations(&budget), disposition_exact);
            }
        }
    }
}

#[test]
fn local_knowledge_wins_over_additional_knowledge() {
    let parent = PriorKnowledgeState::from_local(one(hash(1), PriorChangeKnowledge::Unknown));
    let local = one(hash(2), PriorChangeKnowledge::SameEpochCandidate);
    let mut additional = one(hash(2), PriorChangeKnowledge::KnownInvalid);
    additional.insert(hash(3), PriorChangeKnowledge::KnownUnsupported);
    let state = extend_prior_knowledge_metered(&parent, local, Some(&additional), &mut WorkBudget::new(0, 100), &NeverCancelled)
        .ok()
        .expect("extension completes");
    assert_eq!(state.get(&hash(1)), Some(&PriorChangeKnowledge::Unknown));
    assert_eq!(state.get(&hash(2)), Some(&PriorChangeKnowledge::SameEpochCandidate));
    assert_eq!(state.get(&hash(3)), Some(&PriorChangeKnowledge::KnownUnsupported));
}

#[test]
fn later_branch_steps_override_earlier_ones_only_where_they_differ() {
    let mut parent_map = OrdMap::new();
    parent_map.insert(hash(1), ProtocolDisposition::Accepted);
    parent_map.insert(hash(2), ProtocolDisposition::Accepted);
    parent_map.insert(hash(3), ProtocolDisposition::Pending);
    let parent = PersistentDeltaMap::from_local(parent_map);
    let mut parent_accepted = OrdSet::new();
    parent_accepted.insert(hash(1));
    parent_accepted.insert(hash(2));
    let mut validated = OrdSet::new();
    validated.insert(hash(1));
    let mut epoch = OrdMap::new();
    epoch.insert(hash(2), ProtocolDisposition::Accepted);
    epoch.insert(hash(3), ProtocolDisposition::Invalid);
    epoch.insert(hash(4), ProtocolDisposition::Pending);
    let state = extend_branch_dispositions_metered(
        &parent,
        Some(&parent_accepted),
        &validated,
        &epoch,
        &mut WorkBudget::new(0, 1000),
        &NeverCancelled,
    )
    .ok()
    .expect("extension completes");
    assert_eq!(state.get(&hash(1)), Some(&ProtocolDisposition::Accepted));
    // The carried exclusion stays: the epoch's verdict equals the parent's and adds nothing.
    assert_eq!(state.get(&hash(2)), Some(&ProtocolDisposition::Excluded));
    assert_eq!(state.get(&hash(3)), Some(&ProtocolDisposition::Invalid));
    assert_eq!(state.get(&hash(4)), Some(&ProtocolDisposition::Pending));
}
