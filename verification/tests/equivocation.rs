use std::cell::Cell;

use nostr_automerge::graph::change_candidate::ChangeCandidate;
use nostr_automerge::graph::dependency_graph::build_graph;
use nostr_automerge::graph::equivocation::{
    detect_equivocations, publish_quarantine_dispositions_metered,
    quarantine_equivocation_descendants as quarantine_descendants, QuarantineError,
    QuarantineResult,
};
use nostr_automerge::integrity::IntegrityAlert;
use nostr_automerge::ordered::{OrdMap, OrdSet};
use nostr_automerge::types::{ActorId, ChangeHash, DevicePublicKey, EventId, ProtocolDisposition};
use nostr_automerge::work_budget::{
    CancellationCheck, NeverCancelled, WorkBudget, WorkCounter, WorkStop,
};

struct AlwaysCancelled;

impl CancellationCheck for AlwaysCancelled {
    fn is_cancelled(&self) -> bool {
        true
    }
}

struct CancelAfter {
    remaining: Cell<u64>,
    observed: Cell<u64>,
}

impl CancelAfter {
    fn new(remaining: u64) -> Self {
        CancelAfter { remaining: Cell::new(remaining), observed: Cell::new(0) }
    }
}

impl CancellationCheck for CancelAfter {
    fn is_cancelled(&self) -> bool {
        let left = self.remaining.get();
        if left == 0 {
            return true;
        }
        self.remaining.set(left - 1);
        self.observed.set(self.observed.get() + 1);
        false
    }
}

fn candidate(actor: u8, sequence: u64, start: u64, count: u64) -> ChangeCandidate {
    ChangeCandidate {
        change_hash: ChangeHash::from_bytes([u8::try_from(sequence).unwrap_or_default(); 32]),
        actor: ActorId::from_bytes([actor; 32]),
        sequence,
        start_op: start,
        operation_count: count,
        dependencies: Vec::new(),
        control_id: EventId::from_bytes([9; 32]),
        author: DevicePublicKey::from_bytes([actor; 32]),
        valid_carriers: vec![EventId::from_bytes([actor; 32])],
    }
}

fn h(byte: u8) -> ChangeHash {
    ChangeHash::from_bytes([byte; 32])
}

fn set(values: &[ChangeHash]) -> OrdSet<ChangeHash> {
    let mut s = OrdSet::new();
    for value in values {
        s.insert(*value);
    }
    s
}

fn same_result(a: &QuarantineResult, b: &QuarantineResult) -> bool {
    a.quarantined.to_vec() == b.quarantined.to_vec() && a.alerts == b.alerts
}

fn operations(budget: &WorkBudget) -> u64 {
    budget.consumed().get(WorkCounter::GraphNode) + budget.consumed().get(WorkCounter::GraphEdge)
}

#[test]
fn quarantine_overlay_charges_each_pull_and_insert_before_work() {
    let quarantined = set(&[h(1), h(2), h(3)]);
    let mut ample_dispositions = OrdMap::new();
    let mut ample_budget = WorkBudget::new(0, u64::MAX);
    let ample = publish_quarantine_dispositions_metered(
        &quarantined,
        &mut ample_dispositions,
        &mut ample_budget,
        &NeverCancelled,
    );
    assert_eq!(ample, Ok(()));
    let total = operations(&ample_budget);
    assert_eq!(total, 6);
    assert_eq!(
        ample_dispositions.entries(),
        vec![
            (h(1), ProtocolDisposition::Excluded),
            (h(2), ProtocolDisposition::Excluded),
            (h(3), ProtocolDisposition::Excluded),
        ]
    );
    for allowance in 0..total {
        let mut dispositions = OrdMap::new();
        let mut budget = WorkBudget::new(0, allowance);
        let result =
            publish_quarantine_dispositions_metered(&quarantined, &mut dispositions, &mut budget, &NeverCancelled);
        assert_eq!(result, Err(WorkStop::BudgetExhausted));
        assert_eq!(operations(&budget), allowance);
        assert_eq!(dispositions.len() as u64, allowance / 2, "no insertion before its charge");

        let mut dispositions = OrdMap::new();
        let mut budget = WorkBudget::new(0, u64::MAX);
        let cancel = CancelAfter::new(allowance);
        let result =
            publish_quarantine_dispositions_metered(&quarantined, &mut dispositions, &mut budget, &cancel);
        assert_eq!(result, Err(WorkStop::Cancelled));
        assert_eq!(operations(&budget), allowance);
        assert_eq!(dispositions.len() as u64, allowance / 2, "no insertion before its charge");
    }
}

#[test]
fn detect_device_equivocation_groups() {
    let first = candidate(1, 1, 1, 1);
    let detect = |candidates: Vec<ChangeCandidate>| {
        detect_equivocations(&candidates, &mut WorkBudget::new(0, 1_000), &NeverCancelled)
            .unwrap_or_default()
    };
    assert!(detect(vec![first.clone()]).is_empty());
    assert!(detect(vec![first.clone(), first.clone()]).is_empty());

    let mut conflict = first.clone();
    conflict.change_hash = h(2);
    conflict.valid_carriers = vec![EventId::from_bytes([8; 32])];
    let mut third = conflict.clone();
    third.change_hash = h(3);
    let mut later = conflict.clone();
    later.sequence = 2;
    later.change_hash = h(4);
    let groups = detect(vec![later, third, conflict, first]);
    assert_eq!(groups.len(), 1);
    assert_eq!(groups[0].first_sequence, 1);
    assert_eq!(groups[0].conflicting_changes.len(), 3);
    assert!(groups[0].carrier_event_ids.contains(&EventId::from_bytes([8; 32])));
}

#[test]
fn first_conflicting_sequence_wins() {
    let first = candidate(1, 1, 1, 1);
    let mut first_conflict = first.clone();
    first_conflict.change_hash = h(2);
    let mut later = candidate(1, 2, 2, 1);
    later.change_hash = h(3);
    let mut later_conflict = later.clone();
    later_conflict.change_hash = h(4);
    let groups = detect_equivocations(
        &vec![later_conflict, first_conflict.clone(), later, first.clone()],
        &mut WorkBudget::new(0, 1_000),
        &NeverCancelled,
    )
    .unwrap_or_default();
    assert_eq!(groups.len(), 1);
    assert_eq!(groups[0].first_sequence, 1);
    assert_eq!(
        groups[0].conflicting_changes.to_vec(),
        vec![first.change_hash, first_conflict.change_hash]
    );
}

#[test]
fn quarantine_equivocation_descendants() {
    let first = candidate(1, 1, 1, 1);
    let mut conflict = first.clone();
    conflict.change_hash = h(2);
    let mut later_same_actor = candidate(1, 2, 2, 1);
    later_same_actor.change_hash = h(3);
    later_same_actor.dependencies = vec![first.change_hash];
    let mut cross_actor = candidate(2, 1, 1, 1);
    cross_actor.change_hash = h(4);
    cross_actor.dependencies = vec![later_same_actor.change_hash];
    let mut independent = candidate(3, 1, 1, 1);
    independent.change_hash = h(5);
    let input = vec![
        independent.clone(),
        cross_actor.clone(),
        later_same_actor.clone(),
        conflict.clone(),
        first.clone(),
    ];
    let graph = build_graph(input.clone(), OrdSet::new());
    assert!(graph.is_ok());
    let Ok(graph) = graph else { return };
    let mut budget = WorkBudget::new(0, 1_000);
    let result = quarantine_descendants(input.clone(), &graph, &mut budget, &NeverCancelled);
    assert!(result.is_ok());
    let Ok(result) = result else { return };
    assert_eq!(
        result.quarantined.to_vec(),
        vec![first.change_hash, conflict.change_hash, later_same_actor.change_hash, cross_actor.change_hash]
    );
    assert!(!result.quarantined.contains(&independent.change_hash));
    assert_eq!(result.alerts.len(), 1);
    assert!(budget.consumed().get(WorkCounter::GraphNode) > 9);
    assert!(budget.consumed().get(WorkCounter::GraphEdge) >= 2);
    assert!(matches!(result.alerts[0], IntegrityAlert::DeviceEquivocation(_)));
    let IntegrityAlert::DeviceEquivocation(alert) = &result.alerts[0] else {
        return;
    };
    assert_eq!(alert.first_sequence(), 1);
    assert_eq!(alert.affected_descendants(), &[later_same_actor.change_hash, cross_actor.change_hash]);

    let mut reversed = input.clone();
    reversed.reverse();
    let again = quarantine_descendants(reversed, &graph, &mut WorkBudget::new(0, 1_000), &NeverCancelled);
    assert!(again.as_ref().is_ok_and(|again| same_result(again, &result)));

    let mut deep = independent;
    deep.change_hash = h(6);
    deep.dependencies = vec![cross_actor.change_hash];
    let mut extended = input;
    extended.push(deep.clone());
    let graph = build_graph(extended.clone(), OrdSet::new());
    assert!(graph.is_ok());
    let Ok(graph) = graph else { return };
    let extended_result =
        quarantine_descendants(extended.clone(), &graph, &mut WorkBudget::new(0, 1_000), &NeverCancelled);
    assert!(extended_result.as_ref().is_ok_and(|result| result.quarantined.contains(&deep.change_hash)));
    assert!(matches!(
        quarantine_descendants(extended.clone(), &graph, &mut WorkBudget::new(0, 0), &NeverCancelled),
        Err(QuarantineError::BudgetExhausted)
    ));
    assert!(matches!(
        quarantine_descendants(extended, &graph, &mut WorkBudget::new(0, 1_000), &AlwaysCancelled),
        Err(QuarantineError::Cancelled)
    ));
}

#[test]
fn quarantine_later_actor_changes() {
    let first = candidate(7, 1, 1, 1);
    let mut conflict = first.clone();
    conflict.change_hash = h(2);
    let mut dependent = candidate(7, 2, 2, 1);
    dependent.change_hash = h(3);
    dependent.dependencies = vec![first.change_hash];
    let mut independent = candidate(7, 3, 3, 1);
    independent.change_hash = h(4);
    let inputs = vec![independent.clone(), dependent.clone(), conflict.clone(), first.clone()];
    let graph = build_graph(inputs.clone(), OrdSet::new());
    assert!(graph.is_ok());
    let Ok(graph) = graph else { return };
    let result = quarantine_descendants(inputs, &graph, &mut WorkBudget::new(0, 1_000), &NeverCancelled);
    assert!(result.is_ok_and(|result| {
        [first.change_hash, conflict.change_hash, dependent.change_hash, independent.change_hash]
            .iter()
            .all(|hash| result.quarantined.contains(hash))
    }));
}

#[test]
fn quarantine_traversal_has_exact_prefix_and_cancellation_boundaries() {
    let first = candidate(1, 1, 1, 1);
    let mut conflict = first.clone();
    conflict.change_hash = h(2);
    let mut dependent = candidate(1, 2, 2, 1);
    dependent.change_hash = h(3);
    dependent.dependencies = vec![first.change_hash];
    let input = vec![dependent, conflict, first];
    let graph = build_graph(input.clone(), OrdSet::new());
    assert!(graph.is_ok());
    let Ok(graph) = graph else { return };

    let mut ample = WorkBudget::new(0, 10_000);
    let expected = quarantine_descendants(input.clone(), &graph, &mut ample, &NeverCancelled);
    assert!(expected.is_ok());
    let expected = expected.unwrap();
    let expected_items = operations(&ample);
    assert!(expected_items > 0);

    for capacity in [expected_items - 1, expected_items, expected_items + 1] {
        let mut budget = WorkBudget::new(0, capacity);
        let result = quarantine_descendants(input.clone(), &graph, &mut budget, &NeverCancelled);
        if capacity < expected_items {
            assert!(matches!(result, Err(QuarantineError::BudgetExhausted)));
        } else {
            assert!(result.as_ref().is_ok_and(|result| same_result(result, &expected)));
        }
        assert_eq!(operations(&budget), capacity.min(expected_items));
    }

    for cancel_at in 0..expected_items {
        let cancellation = CancelAfter::new(cancel_at);
        let result =
            quarantine_descendants(input.clone(), &graph, &mut WorkBudget::new(0, expected_items + 1), &cancellation);
        assert!(matches!(result, Err(QuarantineError::Cancelled)));
        assert_eq!(cancellation.observed.get(), cancel_at);
    }
}

#[test]
fn detection_does_not_depend_on_candidate_order() {
    let first = candidate(1, 1, 1, 1);
    let mut conflict = first.clone();
    conflict.change_hash = h(2);
    conflict.valid_carriers = vec![EventId::from_bytes([8; 32])];
    let other_actor = candidate(2, 3, 3, 1);
    let mut other_conflict = other_actor.clone();
    other_conflict.change_hash = h(7);
    let forward = vec![first.clone(), conflict.clone(), other_actor.clone(), other_conflict.clone()];
    let backward = vec![other_conflict, conflict, other_actor, first];
    let a = detect_equivocations(&forward, &mut WorkBudget::new(0, 1_000), &NeverCancelled).ok().expect("detects");
    let b = detect_equivocations(&backward, &mut WorkBudget::new(0, 1_000), &NeverCancelled).ok().expect("detects");
    assert_eq!(a.len(), 2);
    assert_eq!(a.len(), b.len());
    for (x, y) in a.iter().zip(b.iter()) {
        assert_eq!(x.actor, y.actor);
        assert_eq!(x.first_sequence, y.first_sequence);
        assert_eq!(x.conflicting_changes.to_vec(), y.conflicting_changes.to_vec());
        assert_eq!(x.carrier_event_ids.to_vec(), y.carrier_event_ids.to_vec());
    }
}

#[test]
fn detection_and_quarantine_stop_on_an_exhausted_budget() {
    let first = candidate(1, 1, 1, 1);
    let mut conflict = first.clone();
    conflict.change_hash = h(2);
    let input = vec![conflict.clone(), first.clone()];

    let mut empty_budget = WorkBudget::new(0, 0);
    let detected = detect_equivocations(&input, &mut empty_budget, &NeverCancelled);
    assert!(matches!(detected, Err(QuarantineError::BudgetExhausted)));
    assert_eq!(operations(&empty_budget), 0);

    let nothing: Vec<ChangeCandidate> = Vec::new();
    let detected = detect_equivocations(&nothing, &mut WorkBudget::new(0, 0), &NeverCancelled);
    assert!(matches!(detected, Ok(groups) if groups.is_empty()));

    let graph = build_graph(input.clone(), OrdSet::new());
    assert!(graph.is_ok());
    let Ok(graph) = graph else { return };
    let mut empty_budget = WorkBudget::new(0, 0);
    let result = quarantine_descendants(input.clone(), &graph, &mut empty_budget, &NeverCancelled);
    assert!(matches!(result, Err(QuarantineError::BudgetExhausted)));

    let mut ample = WorkBudget::new(0, 10_000);
    let result = quarantine_descendants(input, &graph, &mut ample, &NeverCancelled);
    assert!(result.is_ok());
    let Ok(result) = result else { return };
    assert_eq!(result.quarantined.to_vec(), vec![h(1), h(2)]);
}
