use std::cell::Cell;

use nostr_automerge::graph::actor_state::{
    initialize_actor_states_metered, reference_apply_empty_counter,
    reference_apply_nonempty_counter, ActorStateError, EpochActorState, MeteredActorStateError,
    TrustedEpochProjection,
};
use nostr_automerge::graph::change_candidate::ChangeCandidate;
use nostr_automerge::ordered::{OrdMap, OrdSet};
use nostr_automerge::types::{ActorId, ChangeHash, DevicePublicKey, EventId};
use nostr_automerge::work_budget::{
    CancellationCheck, NeverCancelled, WorkBudget, WorkCounter, WorkStop,
};

/// Cancels once `remaining` checks have passed.
struct CancelAfter {
    remaining: Cell<u64>,
}

impl CancelAfter {
    fn new(remaining: u64) -> Self {
        CancelAfter { remaining: Cell::new(remaining) }
    }
}

impl CancellationCheck for CancelAfter {
    fn is_cancelled(&self) -> bool {
        let left = self.remaining.get();
        if left == 0 {
            return true;
        }
        self.remaining.set(left - 1);
        false
    }
}

fn candidate(actor: u8, sequence: u64, start: u64, count: u64) -> ChangeCandidate {
    ChangeCandidate {
        change_hash: ChangeHash::from_bytes([u8::try_from(sequence).unwrap_or_default(); 32]),
        actor: ActorId::from_bytes([actor; 32]),
        sequence,
        start_op: start,
        operation_count: count,
        dependencies: Vec::new(),
        control_id: EventId::from_bytes([9; 32]),
        author: DevicePublicKey::from_bytes([actor; 32]),
        valid_carriers: vec![EventId::from_bytes([actor; 32])],
    }
}

fn h(byte: u8) -> ChangeHash {
    ChangeHash::from_bytes([byte; 32])
}

fn hashes(items: &[ChangeCandidate]) -> OrdSet<ChangeHash> {
    let mut s = OrdSet::new();
    for item in items {
        s.insert(item.change_hash);
    }
    s
}

fn by_hash(items: &[ChangeCandidate]) -> OrdMap<ChangeHash, ChangeCandidate> {
    let mut map = OrdMap::new();
    for item in items {
        map.insert(item.change_hash, item.clone());
    }
    map
}

fn ample() -> WorkBudget {
    WorkBudget::new(0, u64::MAX)
}

fn operations(budget: &WorkBudget) -> u64 {
    let used = budget.consumed();
    used.get(WorkCounter::GraphNode) + used.get(WorkCounter::GraphEdge)
}

fn project<'a>(
    closure: &'a OrdSet<ChangeHash>,
    changes: &'a OrdMap<ChangeHash, ChangeCandidate>,
) -> Result<TrustedEpochProjection<'a>, MeteredActorStateError> {
    initialize_actor_states_metered(closure, changes, &mut ample(), &NeverCancelled)
}

/// The actor states of a closure made of exactly `items`.
fn initialize_actor_states(
    items: Vec<ChangeCandidate>,
) -> Result<OrdMap<ActorId, EpochActorState>, ActorStateError> {
    let closure = hashes(&items);
    let changes = by_hash(&items);
    match project(&closure, &changes) {
        Ok(projection) => Ok(projection.into_accepted_state_parts().2),
        Err(MeteredActorStateError::State(e)) => Err(e),
        Err(MeteredActorStateError::Work(stop)) => panic!("ample budget stopped: {stop:?}"),
    }
}

/// A projection whose causal counter is `next`: one change of actor 90
/// starting at one with `next - 1` operations.
fn projection_with_counter(next: u64) -> (OrdSet<ChangeHash>, OrdMap<ChangeHash, ChangeCandidate>) {
    let mut change = candidate(90, 1, 1, next - 1);
    change.change_hash = h(90);
    (hashes(&[change.clone()]), by_hash(&[change]))
}

fn state(states: &OrdMap<ActorId, EpochActorState>, actor: u8) -> EpochActorState {
    *states.get(&ActorId::from_bytes([actor; 32])).unwrap()
}

#[test]
fn initialize_actor_state_from_epoch_base() {
    let mut first = candidate(1, 1, 1, 2);
    first.change_hash = h(9);
    let mut empty_second = candidate(1, 2, 3, 0);
    empty_second.change_hash = h(1);
    empty_second.dependencies = vec![first.change_hash];
    let mut other_actor = candidate(2, 1, 1, 0);
    other_actor.change_hash = h(8);
    let states = initialize_actor_states(vec![empty_second.clone(), other_actor, first.clone()]);
    assert!(states.is_ok());
    let states = match states {
        Ok(states) => states,
        Err(_) => return,
    };
    assert_eq!(state(&states, 1).last_sequence, 2);
    assert_eq!(state(&states, 1).next_op, 3);
    assert_eq!(state(&states, 1).highest_change, empty_second.change_hash);
    assert_eq!(
        initialize_actor_states(vec![candidate(1, 2, 1, 1)]).err(),
        Some(ActorStateError::SequenceGap)
    );
    let mut conflict = candidate(1, 1, 1, 1);
    conflict.change_hash = h(8);
    assert_eq!(
        initialize_actor_states(vec![candidate(1, 1, 1, 1), conflict]).err(),
        Some(ActorStateError::Equivocation)
    );

    let mut missing = candidate(3, 1, 1, 1);
    missing.dependencies = vec![h(7)];
    assert_eq!(initialize_actor_states(vec![missing]).err(), Some(ActorStateError::MissingDependency));

    let mut left = candidate(3, 1, 1, 1);
    left.change_hash = h(3);
    let mut right = candidate(4, 1, 1, 1);
    right.change_hash = h(4);
    left.dependencies = vec![right.change_hash];
    right.dependencies = vec![left.change_hash];
    assert_eq!(initialize_actor_states(vec![right, left]).err(), Some(ActorStateError::DependencyCycle));
}

#[test]
fn metered_actor_projection_borrows_a_candidate_superset() {
    let first = candidate(1, 1, 1, 1);
    let mut ignored = candidate(2, 1, 1, 1);
    ignored.change_hash = h(2);
    let closure = hashes(&[first.clone()]);
    let candidates = by_hash(&[first.clone(), ignored]);
    let mut budget = ample();
    let result = initialize_actor_states_metered(&closure, &candidates, &mut budget, &NeverCancelled);
    assert!(result.is_ok());
    let projection = result.unwrap();
    assert_eq!(budget.consumed().get(WorkCounter::GraphNode), 31);
    assert_eq!(budget.consumed().get(WorkCounter::GraphEdge), 1);
    // The first change is already accepted: its actor expects sequence two
    // and the closure's causal counter is two.
    assert_eq!(
        projection.actor_sequence_decision_metered(&first, &mut ample(), &NeverCancelled),
        Err(MeteredActorStateError::State(ActorStateError::SequenceRollback))
    );
    assert_eq!(
        projection.causal_next_decision_metered(&first, &mut ample(), &NeverCancelled),
        Err(MeteredActorStateError::State(ActorStateError::OperationCounter))
    );
    let mut lookups = ample();
    assert!(projection.actor_sequence_decision_metered(&first, &mut lookups, &NeverCancelled).is_err());
    assert_eq!(operations(&lookups), 4);
    assert_eq!(projection.dependency_count(&first.change_hash), 0);
    assert!(projection.dependencies(&first.change_hash).is_empty());
    assert_eq!(projection.frontier_heads(), vec![first.change_hash]);
    assert_eq!(projection.writer_contributions(), vec![(first.actor, first.change_hash)]);
    let (frontier, dependencies, states, writers) = projection.into_accepted_state_parts();
    assert_eq!(frontier.to_vec(), vec![first.change_hash]);
    assert_eq!(dependencies.len(), 1);
    assert_eq!(
        states.entries(),
        vec![(first.actor, EpochActorState { last_sequence: 1, next_op: 2, highest_change: first.change_hash })]
    );
    assert_eq!(writers.entries(), vec![(first.actor, first.change_hash)]);
}

#[test]
fn projected_actor_sequence_decision_is_nonmutating_and_complete() {
    let genesis = candidate(1, 1, 1, 1);
    let empty_closure = OrdSet::new();
    let empty_changes = OrdMap::new();
    let empty = project(&empty_closure, &empty_changes);
    assert!(empty.is_ok());
    let empty = empty.unwrap();
    assert!(empty.actor_sequence_decision_metered(&genesis, &mut ample(), &NeverCancelled).is_ok());

    let first = candidate(1, 1, 1, 1);
    let mut bridge = candidate(2, 1, 2, 1);
    bridge.change_hash = h(2);
    bridge.dependencies = vec![first.change_hash];
    let closure = hashes(&[first.clone(), bridge.clone()]);
    let changes = by_hash(&[first.clone(), bridge.clone()]);
    let projection = project(&closure, &changes);
    assert!(projection.is_ok());
    let projection = projection.unwrap();

    let mut deep = candidate(1, 2, 3, 1);
    deep.change_hash = h(3);
    deep.dependencies = vec![bridge.change_hash];
    assert!(projection.actor_sequence_decision_metered(&deep, &mut ample(), &NeverCancelled).is_ok());

    let mut independent = candidate(2, 1, 1, 1);
    independent.change_hash = h(4);
    let unrelated_closure = hashes(&[first.clone(), independent.clone()]);
    let unrelated_changes = by_hash(&[first.clone(), independent.clone()]);
    let unrelated_projection = project(&unrelated_closure, &unrelated_changes);
    assert!(unrelated_projection.is_ok());
    let unrelated_projection = unrelated_projection.unwrap();
    let mut unrelated = deep.clone();
    unrelated.change_hash = h(6);
    unrelated.dependencies = vec![independent.change_hash];
    assert!(unrelated_projection.actor_sequence_decision_metered(&unrelated, &mut ample(), &NeverCancelled).is_ok());

    let mut gap = deep.clone();
    gap.sequence = 3;
    assert_eq!(
        projection.actor_sequence_decision_metered(&gap, &mut ample(), &NeverCancelled),
        Err(MeteredActorStateError::State(ActorStateError::MissingPredecessor))
    );
    let mut rollback = deep.clone();
    rollback.sequence = 1;
    assert_eq!(
        projection.actor_sequence_decision_metered(&rollback, &mut ample(), &NeverCancelled),
        Err(MeteredActorStateError::State(ActorStateError::SequenceRollback))
    );
    let mut duplicate = first.clone();
    duplicate.change_hash = h(5);
    assert_eq!(
        projection.actor_sequence_decision_metered(&duplicate, &mut ample(), &NeverCancelled),
        Err(MeteredActorStateError::State(ActorStateError::SequenceRollback))
    );

    let lookup_charges: u64 = 4;
    for successful in 0..lookup_charges {
        let mut budget = WorkBudget::new(0, successful);
        assert_eq!(
            projection.actor_sequence_decision_metered(&deep, &mut budget, &NeverCancelled),
            Err(MeteredActorStateError::Work(WorkStop::BudgetExhausted))
        );
        assert_eq!(operations(&budget), successful);
        let mut budget = ample();
        assert_eq!(
            projection.actor_sequence_decision_metered(&deep, &mut budget, &CancelAfter::new(successful)),
            Err(MeteredActorStateError::Work(WorkStop::Cancelled))
        );
        assert_eq!(operations(&budget), successful);
    }
    for allowance in [lookup_charges, lookup_charges + 1] {
        let mut budget = WorkBudget::new(0, allowance);
        assert!(projection.actor_sequence_decision_metered(&deep, &mut budget, &NeverCancelled).is_ok());
        assert_eq!(operations(&budget), lookup_charges);
    }
    let (_, _, states, _) = projection.into_accepted_state_parts();
    assert_eq!(state(&states, 1).last_sequence, 1);
}

#[test]
fn actor_identity_and_sequence_relations_are_owned_immediate_and_short_circuiting() {
    let first = candidate(1, 1, 1, 1);
    let closure = hashes(&[first.clone()]);
    let changes = by_hash(&[first.clone()]);
    let projection = project(&closure, &changes);
    assert!(projection.is_ok());
    let projection = projection.unwrap();
    let mut next = candidate(1, 2, 2, 1);
    next.change_hash = h(2);
    next.dependencies = vec![first.change_hash];
    let mut complete = ample();
    assert_eq!(projection.actor_sequence_decision_metered(&next, &mut complete, &NeverCancelled), Ok(()));
    assert_eq!(complete.consumed().get(WorkCounter::GraphNode), 4);
    assert_eq!(complete.consumed().get(WorkCounter::GraphEdge), 0);

    for successful in 0..4 {
        let mut budget = WorkBudget::new(0, successful);
        assert_eq!(
            projection.actor_sequence_decision_metered(&next, &mut budget, &NeverCancelled),
            Err(MeteredActorStateError::Work(WorkStop::BudgetExhausted))
        );
        assert_eq!(operations(&budget), successful);
        let mut budget = ample();
        assert_eq!(
            projection.actor_sequence_decision_metered(&next, &mut budget, &CancelAfter::new(successful)),
            Err(MeteredActorStateError::Work(WorkStop::Cancelled))
        );
        assert_eq!(operations(&budget), successful);
    }
    for allowance in [4, 5] {
        let mut budget = WorkBudget::new(0, allowance);
        assert_eq!(projection.actor_sequence_decision_metered(&next, &mut budget, &NeverCancelled), Ok(()));
        assert_eq!(operations(&budget), 4);
    }

    // A candidate of a new actor that does not start at sequence one has no
    // predecessor: the decision stops after the identity stage.
    let stranger = candidate(2, 2, 2, 1);
    let mut budget = ample();
    assert_eq!(
        projection.actor_sequence_decision_metered(&stranger, &mut budget, &NeverCancelled),
        Err(MeteredActorStateError::State(ActorStateError::MissingPredecessor))
    );
    assert_eq!(operations(&budget), 3);
}

#[test]
fn projected_causal_next_decision_is_checked_constant_size_and_exactly_metered() {
    let empty_closure = OrdSet::new();
    let empty_changes = OrdMap::new();
    let empty = project(&empty_closure, &empty_changes);
    assert!(empty.is_ok());
    let empty = empty.unwrap();
    let empty_change = candidate(1, 1, 1, 0);
    assert_eq!(empty.causal_next_decision_metered(&empty_change, &mut ample(), &NeverCancelled), Ok(1));

    let many = (1_u8..=64)
        .map(|actor| {
            let mut change = candidate(actor, 1, 1, u64::from(actor));
            change.change_hash = h(actor);
            change
        })
        .collect::<Vec<_>>();
    let many_closure = hashes(&many);
    let many_changes = by_hash(&many);
    let many_projection = project(&many_closure, &many_changes);
    assert!(many_projection.is_ok());
    let many_projection = many_projection.unwrap();
    let mut next = candidate(100, 1, 65, 1);
    next.change_hash = h(100);
    assert_eq!(many_projection.causal_next_decision_metered(&next, &mut ample(), &NeverCancelled), Ok(66));

    let mut gap = next.clone();
    gap.start_op = 66;
    assert_eq!(
        many_projection.causal_next_decision_metered(&gap, &mut ample(), &NeverCancelled),
        Err(MeteredActorStateError::State(ActorStateError::OperationCounter))
    );
    let mut duplicate = next.clone();
    duplicate.start_op = 64;
    assert_eq!(
        many_projection.causal_next_decision_metered(&duplicate, &mut ample(), &NeverCancelled),
        Err(MeteredActorStateError::State(ActorStateError::OperationCounter))
    );

    let (max_closure, max_changes) = projection_with_counter(u64::MAX);
    let max_projection = project(&max_closure, &max_changes);
    assert!(max_projection.is_ok());
    let max_projection = max_projection.unwrap();
    let mut max_empty = candidate(201, 1, u64::MAX, 0);
    max_empty.change_hash = h(201);
    assert_eq!(
        max_projection.causal_next_decision_metered(&max_empty, &mut ample(), &NeverCancelled),
        Ok(u64::MAX)
    );
    let mut overflow = max_empty.clone();
    overflow.operation_count = 1;
    assert_eq!(
        max_projection.causal_next_decision_metered(&overflow, &mut ample(), &NeverCancelled),
        Err(MeteredActorStateError::State(ActorStateError::OperationCounter))
    );

    let decision_charges: u64 = 3;
    for successful in 0..decision_charges {
        let mut budget = WorkBudget::new(0, successful);
        assert_eq!(
            many_projection.causal_next_decision_metered(&next, &mut budget, &NeverCancelled),
            Err(MeteredActorStateError::Work(WorkStop::BudgetExhausted))
        );
        assert_eq!(operations(&budget), successful);
        let mut budget = ample();
        assert_eq!(
            many_projection.causal_next_decision_metered(&next, &mut budget, &CancelAfter::new(successful)),
            Err(MeteredActorStateError::Work(WorkStop::Cancelled))
        );
        assert_eq!(operations(&budget), successful);
    }
    for allowance in [decision_charges, decision_charges + 1] {
        let mut budget = WorkBudget::new(0, allowance);
        assert_eq!(many_projection.causal_next_decision_metered(&next, &mut budget, &NeverCancelled), Ok(66));
        assert_eq!(budget.consumed().get(WorkCounter::GraphNode), decision_charges);
    }
}

#[test]
fn causal_consumer_stored_counter_read_is_owned() {
    let (closure, changes) = projection_with_counter(7);
    let projection = project(&closure, &changes).unwrap();
    let candidate = candidate(1, 1, 7, 1);
    let mut blocked = WorkBudget::new(0, 0);
    assert_eq!(
        projection.causal_next_decision_metered(&candidate, &mut blocked, &NeverCancelled),
        Err(MeteredActorStateError::Work(WorkStop::BudgetExhausted))
    );
    assert_eq!(operations(&blocked), 0);
    let mut admitted = ample();
    assert_eq!(
        projection.causal_next_decision_metered(&candidate, &mut admitted, &CancelAfter::new(1)),
        Err(MeteredActorStateError::Work(WorkStop::Cancelled))
    );
    assert_eq!(operations(&admitted), 1);
}

#[test]
fn causal_consumer_expected_start_comparison_is_owned() {
    let (closure, changes) = projection_with_counter(7);
    let projection = project(&closure, &changes).unwrap();
    let mut candidate = candidate(1, 1, 7, 1);
    candidate.start_op = 8;
    let mut blocked = WorkBudget::new(0, 1);
    assert_eq!(
        projection.causal_next_decision_metered(&candidate, &mut blocked, &NeverCancelled),
        Err(MeteredActorStateError::Work(WorkStop::BudgetExhausted))
    );
    assert_eq!(operations(&blocked), 1);
    let mut admitted = ample();
    assert_eq!(
        projection.causal_next_decision_metered(&candidate, &mut admitted, &CancelAfter::new(2)),
        Err(MeteredActorStateError::State(ActorStateError::OperationCounter))
    );
    assert_eq!(operations(&admitted), 2);
}

#[test]
fn causal_consumer_checked_advance_is_owned() {
    let (closure, changes) = projection_with_counter(7);
    let projection = project(&closure, &changes).unwrap();
    let candidate = candidate(1, 1, 7, 1);
    let mut blocked = ample();
    assert_eq!(
        projection.causal_next_decision_metered(&candidate, &mut blocked, &CancelAfter::new(2)),
        Err(MeteredActorStateError::Work(WorkStop::Cancelled))
    );
    assert_eq!(operations(&blocked), 2);
    let mut admitted = WorkBudget::new(0, 3);
    assert_eq!(projection.causal_next_decision_metered(&candidate, &mut admitted, &NeverCancelled), Ok(8));
    assert_eq!(operations(&admitted), 3);
}

#[test]
fn validate_next_op_for_nonempty_changes() {
    let actor = ActorId::from_bytes([1; 32]);
    let mut states = OrdMap::new();
    let first = candidate(1, 1, 1, 2);
    assert_eq!(reference_apply_nonempty_counter(&mut states, &first), Ok(()));
    assert_eq!(states.get(&actor).map(|s| s.next_op), Some(3));
    let second = candidate(1, 2, 3, 1);
    assert_eq!(reference_apply_nonempty_counter(&mut states, &second), Ok(()));

    let mut gap = candidate(1, 3, 5, 1);
    let mut copy = OrdMap::new();
    for (a, s) in states.entries() {
        copy.insert(a, s);
    }
    assert_eq!(reference_apply_nonempty_counter(&mut copy, &gap), Err(ActorStateError::OperationCounter));
    gap.start_op = 2;
    assert_eq!(reference_apply_nonempty_counter(&mut copy, &gap), Err(ActorStateError::OperationCounter));
    let mut overflow_states = OrdMap::new();
    overflow_states.insert(
        actor,
        EpochActorState { last_sequence: 1, next_op: u64::MAX, highest_change: first.change_hash },
    );
    let overflow = candidate(1, 2, u64::MAX, 1);
    assert_eq!(
        reference_apply_nonempty_counter(&mut overflow_states, &overflow),
        Err(ActorStateError::OperationCounter)
    );
    assert_eq!(reference_apply_nonempty_counter(&mut states, &candidate(2, 1, 4, 1)), Ok(()));
}

#[test]
fn nonempty_change_advances_counter() {
    let actor = ActorId::from_bytes([5; 32]);
    let first = candidate(5, 1, 1, 2);
    let second = candidate(5, 2, 3, 4);
    let mut states = OrdMap::new();
    assert_eq!(reference_apply_nonempty_counter(&mut states, &first), Ok(()));
    assert_eq!(reference_apply_nonempty_counter(&mut states, &second), Ok(()));
    let current = *states.get(&actor).unwrap();
    assert_eq!(current.last_sequence, 2);
    assert_eq!(current.next_op, 7);
    assert_eq!(current.highest_change, second.change_hash);

    let mut overflow = OrdMap::new();
    overflow.insert(actor, EpochActorState { last_sequence: 2, next_op: u64::MAX, highest_change: second.change_hash });
    assert_eq!(
        reference_apply_nonempty_counter(&mut overflow, &candidate(5, 3, u64::MAX, 1)),
        Err(ActorStateError::OperationCounter)
    );
}

#[test]
fn causal_operation_clock_allows_concurrent_actors() {
    let mut base = candidate(1, 1, 1, 1);
    base.change_hash = h(1);
    let mut left = candidate(2, 1, 2, 1);
    left.change_hash = h(2);
    left.dependencies = vec![base.change_hash];
    let mut right = candidate(3, 1, 2, 1);
    right.change_hash = h(3);
    right.dependencies = vec![base.change_hash];
    let mut merge = candidate(4, 1, 3, 0);
    merge.change_hash = h(4);
    merge.dependencies = vec![left.change_hash, right.change_hash];
    let states = initialize_actor_states(vec![merge, right, base, left]);
    assert!(states.is_ok());
}

#[test]
fn validate_empty_merge_change_counters() {
    let mut states = OrdMap::new();
    let first = candidate(1, 1, 1, 2);
    assert_eq!(reference_apply_nonempty_counter(&mut states, &first), Ok(()));
    let first_head = h(7);
    let mut empty = candidate(1, 2, 3, 0);
    empty.change_hash = h(2);
    empty.dependencies = vec![first_head];
    let mut heads = OrdSet::new();
    heads.insert(first_head);
    assert_eq!(reference_apply_empty_counter(&mut states, &empty, &heads), Ok(()));
    assert_eq!(states.get(&ActorId::from_bytes([1; 32])).map(|s| s.next_op), Some(3));

    let mut second_empty = candidate(1, 3, 3, 0);
    second_empty.change_hash = h(3);
    second_empty.dependencies = vec![empty.change_hash];
    let mut heads = OrdSet::new();
    heads.insert(empty.change_hash);
    assert_eq!(reference_apply_empty_counter(&mut states, &second_empty, &heads), Ok(()));
    let mut wrong_start = candidate(1, 4, 4, 0);
    wrong_start.dependencies = vec![second_empty.change_hash];
    let mut heads = OrdSet::new();
    heads.insert(second_empty.change_hash);
    let before = states.entries();
    assert_eq!(
        reference_apply_empty_counter(&mut states, &wrong_start, &heads),
        Err(ActorStateError::OperationCounter)
    );
    assert_eq!(states.entries(), before);
    assert_eq!(
        reference_apply_empty_counter(&mut states, &wrong_start, &OrdSet::new()),
        Err(ActorStateError::DependencyFrontier)
    );
}

#[test]
fn finding_100_actor_predecessor_scan_reproduction() {
    let mut items = Vec::new();
    let mut previous: Option<ChangeHash> = None;
    for sequence in 1..=64 {
        let mut change = candidate(1, sequence, sequence, 1);
        change.dependencies = previous.into_iter().collect();
        previous = Some(change.change_hash);
        items.push(change);
    }
    let mut unrelated = candidate(2, 1, 65, 1);
    unrelated.change_hash = h(200);
    unrelated.dependencies = previous.into_iter().collect();
    items.push(unrelated.clone());
    let mut next = candidate(1, 65, 65, 1);
    next.start_op = 66;
    next.dependencies = vec![unrelated.change_hash];
    let closure = hashes(&items);
    let accepted = by_hash(&items);
    let projection = project(&closure, &accepted);
    assert!(projection.is_ok(), "{:?}", projection.as_ref().err());
    let projection = projection.unwrap();
    assert!(
        projection.actor_sequence_decision_metered(&next, &mut ample(), &NeverCancelled).is_ok(),
        "the actor predecessor is accepted transitively and need not be a direct dependency"
    );
}

#[test]
fn finding_100_causal_next_op_scan_reproduction() {
    let items = (1_u8..=64)
        .map(|actor| {
            let mut change = candidate(actor, 1, 1, u64::from(actor));
            change.change_hash = h(actor);
            change
        })
        .collect::<Vec<_>>();
    let closure = hashes(&items);
    let accepted = by_hash(&items);
    let projection = project(&closure, &accepted);
    assert!(projection.is_ok());
    let projection = projection.unwrap();
    let mut next = candidate(100, 1, 65, 1);
    next.change_hash = h(100);
    assert_eq!(projection.causal_next_decision_metered(&next, &mut ample(), &NeverCancelled), Ok(66));
}

#[test]
fn projection_causal_maximum_is_charged_once_per_accepted_change() {
    let cases: Vec<(Vec<ChangeCandidate>, u64)> = vec![
        (Vec::new(), 1),
        (vec![candidate(1, 1, 1, 2)], 3),
        (
            (1_u8..=4)
                .map(|actor| {
                    let mut value = candidate(actor, 1, 1, u64::from(actor));
                    value.change_hash = h(actor);
                    value
                })
                .collect(),
            5,
        ),
    ];
    for (items, expected_next) in cases {
        let closure = hashes(&items);
        let changes = by_hash(&items);
        let projection = project(&closure, &changes);
        assert!(projection.is_ok());
        let projection = projection.unwrap();
        let probe = candidate(250, 1, expected_next, 0);
        assert_eq!(
            projection.causal_next_decision_metered(&probe, &mut ample(), &NeverCancelled),
            Ok(expected_next)
        );
    }
}

#[test]
fn projection_operation_families_have_exact_n_minus_one_n_and_n_plus_one_stops() {
    let first = candidate(1, 1, 1, 1);
    let mut second = candidate(1, 2, 2, 1);
    second.change_hash = h(2);
    second.dependencies = vec![first.change_hash];
    let accepted = hashes(&[first.clone(), second.clone()]);
    let changes = by_hash(&[first, second]);
    let mut complete = ample();
    assert!(initialize_actor_states_metered(&accepted, &changes, &mut complete, &NeverCancelled).is_ok());
    let total = operations(&complete);
    assert_eq!(total, 74);
    for allowance in 0..total {
        let mut budget = WorkBudget::new(0, allowance);
        assert_eq!(
            initialize_actor_states_metered(&accepted, &changes, &mut budget, &NeverCancelled).err(),
            Some(MeteredActorStateError::Work(WorkStop::BudgetExhausted))
        );
        assert_eq!(operations(&budget), allowance);
        let mut budget = ample();
        assert_eq!(
            initialize_actor_states_metered(&accepted, &changes, &mut budget, &CancelAfter::new(allowance)).err(),
            Some(MeteredActorStateError::Work(WorkStop::Cancelled))
        );
        assert_eq!(operations(&budget), allowance);
    }
    for allowance in [total, total + 1] {
        let mut budget = WorkBudget::new(0, allowance);
        assert!(initialize_actor_states_metered(&accepted, &changes, &mut budget, &NeverCancelled).is_ok());
        assert_eq!(operations(&budget), total);
    }
}

#[test]
fn charged_projection_traversal_stops_before_every_source_read() {
    let first = candidate(1, 1, 1, 1);
    let mut second = candidate(1, 2, 2, 1);
    second.dependencies = vec![first.change_hash];
    let closure = hashes(&[first.clone(), second.clone()]);
    let changes = by_hash(&[first, second]);
    let mut complete = ample();
    let ample_result = initialize_actor_states_metered(&closure, &changes, &mut complete, &NeverCancelled);
    assert!(ample_result.is_ok());
    let total = operations(&complete);
    for allowance in 0..total {
        let mut budget = WorkBudget::new(0, allowance);
        let before = initialize_actor_states_metered(&closure, &changes, &mut budget, &NeverCancelled);
        assert_eq!(before.err(), Some(MeteredActorStateError::Work(WorkStop::BudgetExhausted)));
        let mut budget = ample();
        let cancelled = initialize_actor_states_metered(&closure, &changes, &mut budget, &CancelAfter::new(allowance));
        assert_eq!(cancelled.err(), Some(MeteredActorStateError::Work(WorkStop::Cancelled)));
    }
}

#[test]
fn projection_rejects_noncanonical_members_and_dependencies_without_repair() {
    let first = candidate(1, 1, 1, 1);
    let mut second = candidate(2, 1, 1, 1);
    second.change_hash = h(2);
    let mut third = candidate(3, 1, 2, 1);
    third.change_hash = h(3);
    let closure = hashes(&[first.clone(), second.clone(), third.clone()]);
    for dependencies in [vec![second.change_hash, first.change_hash], vec![first.change_hash, first.change_hash]] {
        third.dependencies = dependencies;
        let changes = by_hash(&[first.clone(), second.clone(), third.clone()]);
        assert_eq!(
            project(&closure, &changes).err(),
            Some(MeteredActorStateError::State(ActorStateError::NoncanonicalInput))
        );
    }

    let mut mismatched = OrdMap::new();
    mismatched.insert(first.change_hash, second);
    let mut only_first = OrdSet::new();
    only_first.insert(first.change_hash);
    assert_eq!(
        project(&only_first, &mismatched).err(),
        Some(MeteredActorStateError::State(ActorStateError::NoncanonicalInput))
    );
}

/// A projection whose frontier and closure are the given independent
/// genesis changes, one actor each.
fn genesis_closure(heads: &[u8]) -> (OrdSet<ChangeHash>, OrdMap<ChangeHash, ChangeCandidate>) {
    let items = heads
        .iter()
        .map(|byte| {
            let mut change = candidate(*byte, 1, 1, 1);
            change.change_hash = h(*byte);
            change
        })
        .collect::<Vec<_>>();
    (hashes(&items), by_hash(&items))
}

fn heads(bytes: &[u8]) -> OrdSet<ChangeHash> {
    let mut s = OrdSet::new();
    for byte in bytes {
        s.insert(h(*byte));
    }
    s
}

#[test]
fn empty_frontier_comparison_is_streaming_exact_and_immediately_metered() {
    let projected_first = h(10);
    let base_only = h(20);
    let projected_last = h(30);
    let (accepted, changes) = genesis_closure(&[10, 30]);
    let projection = project(&accepted, &changes).unwrap();
    assert_eq!(projection.frontier_heads(), vec![projected_first, projected_last]);
    let base_frontier = heads(&[10, 20]);
    let mut exact = candidate(1, 1, 1, 0);
    exact.dependencies = vec![projected_first, base_only, projected_last];
    assert!(projection.empty_frontier_decision_metered(&exact, &base_frontier, &mut ample(), &NeverCancelled).is_ok());

    let empty_closure = OrdSet::new();
    let empty_changes = OrdMap::new();
    let empty_projection = project(&empty_closure, &empty_changes).unwrap();
    let empty = candidate(1, 1, 1, 0);
    assert!(empty_projection
        .empty_frontier_decision_metered(&empty, &OrdSet::new(), &mut ample(), &NeverCancelled)
        .is_ok());

    let mut nonempty = exact.clone();
    nonempty.operation_count = 1;
    nonempty.dependencies = vec![h(99)];
    let mut one = ample();
    assert_eq!(projection.empty_frontier_decision_metered(&nonempty, &base_frontier, &mut one, &NeverCancelled), Ok(()));
    assert_eq!(one.consumed().get(WorkCounter::GraphNode), 1);
    assert_eq!(operations(&one), 1);

    for dependencies in [
        vec![projected_first, base_only],
        vec![projected_first, base_only, h(25), projected_last],
        vec![projected_first, base_only, base_only, projected_last],
        vec![projected_first, projected_last, base_only],
    ] {
        let mut malformed = exact.clone();
        malformed.dependencies = dependencies;
        assert_eq!(
            projection.empty_frontier_decision_metered(&malformed, &base_frontier, &mut ample(), &NeverCancelled),
            Err(MeteredActorStateError::State(ActorStateError::DependencyFrontier))
        );
    }

    let mut complete = ample();
    assert_eq!(projection.empty_frontier_decision_metered(&exact, &base_frontier, &mut complete, &NeverCancelled), Ok(()));
    let operation_count = operations(&complete);
    assert!(operation_count > 3);
    for successful in 0..operation_count {
        let mut budget = WorkBudget::new(0, successful);
        assert_eq!(
            projection.empty_frontier_decision_metered(&exact, &base_frontier, &mut budget, &NeverCancelled),
            Err(MeteredActorStateError::Work(WorkStop::BudgetExhausted))
        );
        assert_eq!(operations(&budget), successful);
        let mut budget = ample();
        assert_eq!(
            projection.empty_frontier_decision_metered(&exact, &base_frontier, &mut budget, &CancelAfter::new(successful)),
            Err(MeteredActorStateError::Work(WorkStop::Cancelled))
        );
        assert_eq!(operations(&budget), successful);
    }
    for allowance in [operation_count, operation_count + 1] {
        let mut budget = WorkBudget::new(0, allowance);
        assert_eq!(projection.empty_frontier_decision_metered(&exact, &base_frontier, &mut budget, &NeverCancelled), Ok(()));
        assert_eq!(operations(&budget), operation_count);
    }
}

#[test]
fn complete_candidate_semantics_preserve_precedence_and_every_stop_boundary() {
    let first = candidate(1, 1, 1, 1);
    let closure = hashes(&[first.clone()]);
    let changes = by_hash(&[first.clone()]);
    let projection = project(&closure, &changes);
    assert!(projection.is_ok());
    let projection = projection.unwrap();
    let base_frontier = OrdSet::new();
    let mut valid = candidate(1, 2, 2, 0);
    valid.change_hash = h(2);
    valid.dependencies = vec![first.change_hash];

    let mut complete = ample();
    assert_eq!(projection.candidate_semantics_decision_metered(&valid, &base_frontier, &mut complete, &NeverCancelled), Ok(()));
    let charges = operations(&complete);
    let mut actor_only = ample();
    assert!(projection.actor_sequence_decision_metered(&valid, &mut actor_only, &NeverCancelled).is_ok());
    let mut counter_only = ample();
    assert!(projection.causal_next_decision_metered(&valid, &mut counter_only, &NeverCancelled).is_ok());
    let mut frontier_only = ample();
    assert!(projection.empty_frontier_decision_metered(&valid, &base_frontier, &mut frontier_only, &NeverCancelled).is_ok());
    assert!(operations(&actor_only) > 0 && operations(&counter_only) > 0 && operations(&frontier_only) > 0);
    assert_eq!(charges, operations(&actor_only) + operations(&counter_only) + operations(&frontier_only));

    for successful in 0..charges {
        let mut budget = WorkBudget::new(0, successful);
        assert_eq!(
            projection.candidate_semantics_decision_metered(&valid, &base_frontier, &mut budget, &NeverCancelled),
            Err(MeteredActorStateError::Work(WorkStop::BudgetExhausted))
        );
        assert_eq!(operations(&budget), successful);
        let mut budget = ample();
        assert_eq!(
            projection.candidate_semantics_decision_metered(&valid, &base_frontier, &mut budget, &CancelAfter::new(successful)),
            Err(MeteredActorStateError::Work(WorkStop::Cancelled))
        );
        assert_eq!(operations(&budget), successful);
    }
    for allowance in [charges, charges + 1] {
        let mut budget = WorkBudget::new(0, allowance);
        assert_eq!(projection.candidate_semantics_decision_metered(&valid, &base_frontier, &mut budget, &NeverCancelled), Ok(()));
        assert_eq!(operations(&budget), charges);
    }

    let mut actor_invalid = valid.clone();
    actor_invalid.sequence = 3;
    actor_invalid.start_op = 9;
    actor_invalid.dependencies = Vec::new();
    assert_eq!(
        projection.candidate_semantics_decision_metered(&actor_invalid, &base_frontier, &mut ample(), &NeverCancelled),
        Err(MeteredActorStateError::State(ActorStateError::MissingPredecessor))
    );
    let mut counter_invalid = valid.clone();
    counter_invalid.start_op = 9;
    counter_invalid.dependencies = Vec::new();
    assert_eq!(
        projection.candidate_semantics_decision_metered(&counter_invalid, &base_frontier, &mut ample(), &NeverCancelled),
        Err(MeteredActorStateError::State(ActorStateError::OperationCounter))
    );
    let mut frontier_invalid = valid;
    frontier_invalid.dependencies = Vec::new();
    assert_eq!(
        projection.candidate_semantics_decision_metered(&frontier_invalid, &base_frontier, &mut ample(), &NeverCancelled),
        Err(MeteredActorStateError::State(ActorStateError::DependencyFrontier))
    );
}

#[test]
fn v16_actor_failure_performs_zero_causal_counter_work() {
    let first = candidate(1, 1, 1, 1);
    let closure = hashes(&[first.clone()]);
    let changes = by_hash(&[first.clone()]);
    let projection = project(&closure, &changes).unwrap();
    let mut invalid = candidate(1, 3, 99, 1);
    invalid.change_hash = h(3);
    invalid.dependencies = Vec::new();
    let mut budget = WorkBudget::new(0, 8);
    assert_eq!(
        projection.actor_sequence_decision_metered(&invalid, &mut budget, &NeverCancelled),
        Err(MeteredActorStateError::State(ActorStateError::MissingPredecessor))
    );
    assert!(operations(&budget) < 8);
    let actor_work = operations(&budget);
    let mut budget = ample();
    assert_eq!(
        projection.candidate_semantics_decision_metered(&invalid, &OrdSet::new(), &mut budget, &NeverCancelled),
        Err(MeteredActorStateError::State(ActorStateError::MissingPredecessor))
    );
    assert_eq!(operations(&budget), actor_work);
}

#[test]
fn finding_100_empty_frontier_work_reproduction() {
    let current_heads = heads(&[10, 20, 30]);
    let mut empty = candidate(1, 1, 1, 0);
    empty.dependencies = current_heads.to_vec();
    let closure = OrdSet::new();
    let changes = OrdMap::new();
    let projection = project(&closure, &changes).unwrap();
    assert!(projection.empty_frontier_decision_metered(&empty, &current_heads, &mut ample(), &NeverCancelled).is_ok());
}

#[test]
fn projection_semantic_matrix_is_complete_and_order_invariant() {
    let first = candidate(1, 1, 1, 1);
    let mut inherited_other = candidate(2, 1, 2, 1);
    inherited_other.change_hash = h(2);
    inherited_other.dependencies = vec![first.change_hash];
    let mut unrelated_other = candidate(2, 1, 1, 1);
    unrelated_other.change_hash = h(4);

    let mut deep_query = candidate(1, 2, 3, 1);
    deep_query.change_hash = h(3);
    deep_query.dependencies = vec![inherited_other.change_hash];
    let mut unrelated_query = candidate(1, 2, 2, 1);
    unrelated_query.change_hash = h(5);
    unrelated_query.dependencies = vec![unrelated_other.change_hash];

    // (name, accepted, query, sequence decision, causal counter, frontier, writers)
    let cases: Vec<(
        &str,
        Vec<ChangeCandidate>,
        ChangeCandidate,
        Result<(), MeteredActorStateError>,
        u64,
        Vec<ChangeHash>,
        Vec<(ActorId, ChangeHash)>,
    )> = vec![
        ("empty", Vec::new(), candidate(1, 1, 1, 1), Ok(()), 1, Vec::new(), Vec::new()),
        (
            "single",
            vec![first.clone()],
            candidate(1, 2, 2, 1),
            Ok(()),
            2,
            vec![first.change_hash],
            vec![(first.actor, first.change_hash)],
        ),
        (
            "deep_predecessor",
            vec![first.clone(), inherited_other.clone()],
            deep_query.clone(),
            Ok(()),
            3,
            vec![inherited_other.change_hash],
            vec![(first.actor, first.change_hash), (inherited_other.actor, inherited_other.change_hash)],
        ),
        (
            "unrelated_dependency",
            vec![first.clone(), unrelated_other.clone()],
            unrelated_query.clone(),
            Ok(()),
            2,
            vec![first.change_hash, unrelated_other.change_hash],
            vec![(first.actor, first.change_hash), (unrelated_other.actor, unrelated_other.change_hash)],
        ),
        (
            "actor_gap",
            vec![first.clone()],
            candidate(1, 3, 2, 1),
            Err(MeteredActorStateError::State(ActorStateError::MissingPredecessor)),
            2,
            vec![first.change_hash],
            vec![(first.actor, first.change_hash)],
        ),
        (
            "actor_rollback",
            vec![first.clone()],
            candidate(1, 1, 2, 1),
            Err(MeteredActorStateError::State(ActorStateError::SequenceRollback)),
            2,
            vec![first.change_hash],
            vec![(first.actor, first.change_hash)],
        ),
    ];

    for (name, accepted, query, sequence, causal_next_op, frontier, writers) in cases {
        let closure = hashes(&accepted);
        let reversed: Vec<ChangeCandidate> = accepted.iter().rev().cloned().collect();
        for order in [accepted.clone(), reversed] {
            let changes = by_hash(&order);
            let projection = project(&closure, &changes);
            assert!(projection.is_ok(), "{name}");
            let projection = projection.unwrap();
            assert_eq!(
                projection.actor_sequence_decision_metered(&query, &mut ample(), &NeverCancelled),
                sequence,
                "{name}"
            );
            assert_eq!(
                projection.causal_next_decision_metered(&query, &mut ample(), &NeverCancelled),
                Ok(causal_next_op + query.operation_count),
                "{name}"
            );
            assert_eq!(projection.frontier_heads(), frontier, "{name}");
            assert_eq!(projection.writer_contributions(), writers, "{name}");
        }
    }

    let wide: Vec<ChangeCandidate> = (1_u8..=8)
        .map(|index| {
            let mut change = candidate(index, 1, 1, 1);
            change.change_hash = h(index);
            change
        })
        .collect();
    let wide_hashes = hashes(&wide);
    let wide_changes = by_hash(&wide);
    let wide_projection = project(&wide_hashes, &wide_changes);
    assert!(wide_projection.is_ok());
    let wide_projection = wide_projection.unwrap();
    let expected: Vec<ChangeHash> = (1_u8..=8).map(h).collect();
    assert_eq!(wide_projection.frontier_heads(), expected);
    assert_eq!(wide_projection.writer_contributions().len(), 8);
}

#[test]
fn projection_succeeds_within_its_quadratic_bound() {
    let first = candidate(1, 1, 1, 1);
    let mut second = candidate(1, 2, 2, 1);
    second.dependencies = vec![first.change_hash];
    let closure = hashes(&[first.clone(), second.clone()]);
    let changes = by_hash(&[first, second]);
    // Two members: 6 + 2 * ((9 + 8 + 7 * 2) + (20 + 9 * 2)) units at most.
    let mut budget = WorkBudget::new(0, 144);
    let projection = initialize_actor_states_metered(&closure, &changes, &mut budget, &NeverCancelled);
    assert!(projection.is_ok());
    assert!(operations(&budget) <= 144);
}
