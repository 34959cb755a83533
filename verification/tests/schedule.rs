use std::cell::Cell;

use nostr_automerge::graph::change_candidate::ChangeCandidate;
use nostr_automerge::graph::schedule::{schedule_candidates, Schedule};
use nostr_automerge::ordered::OrdSet;
use nostr_automerge::types::{ActorId, ChangeHash, DevicePublicKey, EventId};
use nostr_automerge::work_budget::{
    CancellationCheck, NeverCancelled, WorkBudget, WorkCounter, WorkStop,
};

struct AlwaysCancelled;

impl CancellationCheck for AlwaysCancelled {
    fn is_cancelled(&self) -> bool {
        true
    }
}

struct CancelAfter {
    remaining: Cell<u64>,
}

impl CancellationCheck for CancelAfter {
    fn is_cancelled(&self) -> bool {
        let left = self.remaining.get();
        if left == 0 {
            return true;
        }
        self.remaining.set(left - 1);
        false
    }
}

fn candidate(actor: u8, sequence: u64, start: u64, count: u64) -> ChangeCandidate {
    ChangeCandidate {
        change_hash: ChangeHash::from_bytes([u8::try_from(sequence).unwrap_or_default(); 32]),
        actor: ActorId::from_bytes([actor; 32]),
        sequence,
        start_op: start,
        operation_count: count,
        dependencies: Vec::new(),
        control_id: EventId::from_bytes([9; 32]),
        author: DevicePublicKey::from_bytes([actor; 32]),
        valid_carriers: vec![EventId::from_bytes([actor; 32])],
    }
}

fn h(byte: u8) -> ChangeHash {
    ChangeHash::from_bytes([byte; 32])
}

fn set(values: &[ChangeHash]) -> OrdSet<ChangeHash> {
    let mut s = OrdSet::new();
    for value in values {
        s.insert(*value);
    }
    s
}

fn evaluate(candidates: Vec<ChangeCandidate>, limit: u64) -> Result<Schedule, WorkStop> {
    schedule_candidates(candidates, &OrdSet::new(), &mut WorkBudget::new(0, limit), &NeverCancelled)
}

fn parts(s: &Schedule) -> (Vec<ChangeHash>, Vec<ChangeHash>, Vec<ChangeHash>, Vec<ChangeHash>) {
    (s.ordered.clone(), s.pending.to_vec(), s.missing_dependencies.to_vec(), s.cyclic.to_vec())
}

fn operations(budget: &WorkBudget) -> u64 {
    let used = budget.consumed();
    used.get(WorkCounter::GraphNode) + used.get(WorkCounter::GraphEdge)
}

#[test]
fn implement_deterministic_candidate_scheduling() {
    let mut low = candidate(1, 1, 1, 1);
    low.change_hash = h(1);
    let mut high = candidate(2, 1, 1, 1);
    high.change_hash = h(2);
    let mut dependant = candidate(1, 2, 2, 1);
    dependant.change_hash = h(3);
    dependant.dependencies = vec![high.change_hash];
    let first = evaluate(vec![dependant.clone(), high.clone(), low.clone()], 10_000);
    let second = evaluate(vec![low.clone(), high.clone(), dependant.clone()], 10_000);
    assert_eq!(first.as_ref().map(parts).ok(), second.as_ref().map(parts).ok());
    assert_eq!(
        first.map(|schedule| schedule.ordered).ok(),
        Some(vec![low.change_hash, high.change_hash, dependant.change_hash])
    );
    let mut measured = WorkBudget::new(0, 10_000);
    let schedule = schedule_candidates(
        vec![high.clone(), dependant.clone()],
        &OrdSet::new(),
        &mut measured,
        &NeverCancelled,
    );
    assert!(schedule.is_ok());
    assert!(measured.consumed().get(WorkCounter::GraphNode) > 4);
    assert!(measured.consumed().get(WorkCounter::GraphEdge) > 2);
    let missing_hash = h(9);
    let mut missing = high.clone();
    missing.dependencies = vec![missing_hash];
    let missing_schedule = evaluate(vec![missing], 10_000)
        .map(|schedule| (schedule.pending.to_vec(), schedule.missing_dependencies.to_vec(), schedule.cyclic.to_vec()));
    assert_eq!(missing_schedule.ok(), Some((vec![high.change_hash], vec![missing_hash], vec![])));
    let mut cycle_low = low.clone();
    cycle_low.dependencies = vec![high.change_hash];
    let mut cycle_high = high.clone();
    cycle_high.dependencies = vec![low.change_hash];
    assert_eq!(
        evaluate(vec![cycle_high, cycle_low], 10_000)
            .map(|schedule| (schedule.pending.to_vec(), schedule.cyclic.to_vec()))
            .ok(),
        Some((vec![], vec![low.change_hash, high.change_hash]))
    );
    let mut fan_out = candidate(3, 1, 1, 1);
    fan_out.change_hash = h(4);
    fan_out.dependencies = vec![low.change_hash];
    let mut fan_in = candidate(4, 1, 1, 1);
    fan_in.change_hash = h(5);
    fan_in.dependencies = vec![dependant.change_hash, fan_out.change_hash];
    assert_eq!(
        evaluate(
            vec![fan_in.clone(), fan_out.clone(), dependant.clone(), high.clone(), low.clone()],
            10_000
        )
        .map(|schedule| schedule.ordered)
        .ok(),
        Some(vec![h(1), h(2), h(3), h(4), h(5)])
    );
    assert_eq!(
        schedule_candidates(vec![low.clone()], &OrdSet::new(), &mut WorkBudget::new(0, 0), &NeverCancelled)
            .err(),
        Some(WorkStop::BudgetExhausted)
    );
    assert_eq!(
        schedule_candidates(vec![low], &OrdSet::new(), &mut WorkBudget::new(0, 10), &AlwaysCancelled)
            .err(),
        Some(WorkStop::Cancelled)
    );
}

#[test]
fn dependency_cycle_is_invalid() {
    let mut left = candidate(1, 1, 1, 1);
    left.change_hash = h(1);
    let mut right = candidate(2, 1, 1, 1);
    right.change_hash = h(2);
    left.dependencies = vec![right.change_hash];
    right.dependencies = vec![left.change_hash];
    let mut descendant = candidate(3, 1, 1, 1);
    descendant.change_hash = h(3);
    descendant.dependencies = vec![right.change_hash];
    assert_eq!(
        evaluate(vec![descendant.clone(), right.clone(), left.clone()], 100)
            .map(|schedule| schedule.cyclic.to_vec())
            .ok(),
        Some(vec![left.change_hash, right.change_hash, descendant.change_hash])
    );

    let mut third = candidate(3, 1, 1, 1);
    third.change_hash = h(4);
    right.dependencies = vec![third.change_hash];
    third.dependencies = vec![left.change_hash];
    assert_eq!(
        evaluate(vec![third.clone(), right, left.clone()], 100)
            .map(|schedule| schedule.cyclic.to_vec())
            .ok(),
        Some(vec![left.change_hash, h(2), third.change_hash])
    );

    let mut self_cycle = candidate(4, 1, 1, 1);
    self_cycle.change_hash = h(5);
    self_cycle.dependencies = vec![self_cycle.change_hash];
    assert_eq!(
        evaluate(vec![self_cycle.clone()], 100).map(|schedule| schedule.cyclic.to_vec()).ok(),
        Some(vec![self_cycle.change_hash])
    );
}

#[test]
fn scheduling_charges_immediately_before_every_operation_and_preserves_typed_stops() {
    let make = |value: u8, dependencies: Vec<ChangeHash>| {
        let mut item = candidate(value, 1, 1, 1);
        item.change_hash = h(value);
        item.dependencies = dependencies;
        item
    };
    let missing = h(99);
    let accepted = h(100);
    let inputs = vec![
        make(1, vec![]),
        make(2, vec![]),
        make(3, vec![h(1)]),
        make(4, vec![h(1)]),
        make(5, vec![h(3), h(4)]),
        make(6, vec![missing]),
        make(7, vec![h(6)]),
        make(8, vec![h(9)]),
        make(9, vec![h(8)]),
        make(10, vec![accepted]),
    ];
    let accepted_base = set(&[accepted]);
    let mut ample_budget = WorkBudget::new(0, u64::MAX);
    let ample = schedule_candidates(inputs.clone(), &accepted_base, &mut ample_budget, &NeverCancelled);
    assert!(ample.is_ok());
    let ample = ample.unwrap();
    assert_eq!(ample.ordered, vec![h(1), h(2), h(3), h(4), h(5), h(10)]);
    assert_eq!(ample.pending.to_vec(), vec![h(6), h(7)]);
    assert_eq!(ample.missing_dependencies.to_vec(), vec![missing]);
    assert_eq!(ample.cyclic.to_vec(), vec![h(8), h(9)]);
    let total = operations(&ample_budget);
    assert!(total > 0);

    for allowance in 0..total {
        let mut budget = WorkBudget::new(0, allowance);
        let result = schedule_candidates(inputs.clone(), &accepted_base, &mut budget, &NeverCancelled);
        assert_eq!(result.err(), Some(WorkStop::BudgetExhausted), "budget at {allowance}");
        assert_eq!(operations(&budget), allowance);

        let mut budget = WorkBudget::new(0, u64::MAX);
        let cancel = CancelAfter { remaining: Cell::new(allowance) };
        let result = schedule_candidates(inputs.clone(), &accepted_base, &mut budget, &cancel);
        assert_eq!(result.err(), Some(WorkStop::Cancelled), "cancel at {allowance}");
        assert_eq!(operations(&budget), allowance);
    }
    let mut exact = WorkBudget::new(0, total);
    let reverse = schedule_candidates(
        inputs.into_iter().rev().collect(),
        &accepted_base,
        &mut exact,
        &NeverCancelled,
    );
    assert_eq!(reverse.as_ref().map(parts).ok(), Some(parts(&ample)));
}

#[test]
fn finding_100_schedule_readiness_work_reproduction() {
    let inputs = (1..=64)
        .rev()
        .map(|value| {
            let mut item = candidate(value, 1, 1, 1);
            item.change_hash = h(value);
            item
        })
        .collect::<Vec<_>>();
    let expected = (1..=64).map(h).collect::<Vec<_>>();
    let scheduled = evaluate(inputs, 10_000);
    assert_eq!(scheduled.map(|value| value.ordered).ok(), Some(expected));
}

#[test]
fn finding_100_schedule_publication_work_reproduction() {
    let item = candidate(1, 1, 1, 1);
    let result = evaluate(vec![item.clone()], 1_000);
    assert_eq!(result.map(|value| value.ordered).ok(), Some(vec![item.change_hash]));
}

#[test]
fn last_candidate_with_a_hash_is_the_one_scheduled() {
    let mut first = candidate(1, 1, 1, 1);
    first.dependencies = vec![h(7)];
    let second = candidate(1, 1, 1, 1);
    let result = evaluate(vec![first.clone(), second.clone()], 1_000);
    assert_eq!(result.as_ref().map(parts).ok(), Some((vec![h(1)], vec![], vec![], vec![])));
    let result = evaluate(vec![second, first], 1_000);
    assert_eq!(result.as_ref().map(parts).ok(), Some((vec![], vec![h(1)], vec![h(7)], vec![])));
}
