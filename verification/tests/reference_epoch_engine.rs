use std::cell::Cell;

use nostr_automerge::ordered::{OrdMap, OrdSet};
use nostr_automerge::graph::change_candidate::ChangeCandidate;
use nostr_automerge::reference::epoch_engine::{
    clone_candidate_maps_metered, collect_eligible_candidates_metered, metered_hash_sets_equal,
    prior_dependencies_valid_metered, project_accepted_candidates_metered, PriorChangeKnowledge, PriorKnowledgeState,
};
use nostr_automerge::types::{ActorId, ChangeHash, DevicePublicKey, EventId, ProtocolDisposition};
use nostr_automerge::work_budget::{
    charge_one, CancellationCheck, NeverCancelled, WorkBudget, WorkCounter, WorkStop,
};

struct CancelAfter {
    remaining: Cell<u64>,
}

impl CancellationCheck for CancelAfter {
    fn is_cancelled(&self) -> bool {
        let left = self.remaining.get();
        if left == 0 {
            return true;
        }
        self.remaining.set(left - 1);
        false
    }
}

fn hash(byte: u8) -> ChangeHash {
    ChangeHash::from_bytes([byte; 32])
}

fn single(key: ChangeHash, value: PriorChangeKnowledge) -> OrdMap<ChangeHash, PriorChangeKnowledge> {
    let mut map = OrdMap::new();
    map.insert(key, value);
    map
}

fn set_of(items: Vec<ChangeHash>) -> OrdSet<ChangeHash> {
    let mut set = OrdSet::new();
    for item in items {
        set.insert(item);
    }
    set
}

fn operations(budget: &WorkBudget) -> u64 {
    budget.consumed().get(WorkCounter::GraphEdge) + budget.consumed().get(WorkCounter::GraphNode)
}

#[test]
fn only_known_impossible_dependency_states_invalidate() {
    for usable in [
        PriorChangeKnowledge::AcceptedInBase,
        PriorChangeKnowledge::SameEpochCandidate,
        PriorChangeKnowledge::Unknown,
    ] {
        assert!(!usable.is_known_impossible());
    }
    for impossible in [
        PriorChangeKnowledge::PrunedCanonicalAncestor,
        PriorChangeKnowledge::KnownOtherControl,
        PriorChangeKnowledge::KnownInvalid,
        PriorChangeKnowledge::KnownUnsupported,
        PriorChangeKnowledge::PriorEquivocationExcluded,
    ] {
        assert!(impossible.is_known_impossible());
    }
}

#[test]
fn dependency_lookup_charges_before_outer_reads_and_persistent_nodes() {
    const DEPTH: u8 = 64;
    let target = hash(0);
    let mut prior: PriorKnowledgeState =
        PriorKnowledgeState::from_local(single(target, PriorChangeKnowledge::KnownInvalid));
    for value in 1..DEPTH {
        prior = prior.extend_local(single(hash(value), PriorChangeKnowledge::KnownOtherControl));
    }
    let exact = 1_u64 + u64::from(DEPTH);
    for (declared, missing) in [(vec![target], set_of(Vec::new())), (Vec::new(), set_of(vec![target]))] {
        for cancel in [false, true] {
            for capacity in 0..=exact + 1 {
                let (mut budget, cancellation) = if cancel {
                    (WorkBudget::new(0, 1000), CancelAfter { remaining: Cell::new(capacity) })
                } else {
                    (WorkBudget::new(0, capacity), CancelAfter { remaining: Cell::new(u64::MAX) })
                };
                let result =
                    prior_dependencies_valid_metered(&prior, &declared, &missing, &mut budget, &cancellation);
                if capacity < exact {
                    let stop = if cancel { WorkStop::Cancelled } else { WorkStop::BudgetExhausted };
                    assert_eq!(result, Err(stop));
                    assert_eq!(operations(&budget), capacity);
                } else {
                    assert_eq!(result, Ok(false));
                    assert_eq!(budget.consumed().get(WorkCounter::GraphEdge), 1);
                    assert_eq!(budget.consumed().get(WorkCounter::GraphNode), u64::from(DEPTH));
                }
            }
        }
    }
}

#[test]
fn usable_and_unknown_dependencies_pass() {
    let mut prior = PriorKnowledgeState::from_local(single(hash(1), PriorChangeKnowledge::AcceptedInBase));
    prior = prior.extend_local(single(hash(2), PriorChangeKnowledge::SameEpochCandidate));
    let mut budget = WorkBudget::new(0, 100);
    let result = prior_dependencies_valid_metered(
        &prior,
        &vec![hash(1), hash(2)],
        &set_of(vec![hash(3)]),
        &mut budget,
        &NeverCancelled,
    );
    assert_eq!(result, Ok(true));
    assert_eq!(budget.consumed().get(WorkCounter::GraphEdge), 3);
    assert_eq!(budget.consumed().get(WorkCounter::GraphNode), 2 + 1 + 2);

    prior = prior.extend_local(single(hash(3), PriorChangeKnowledge::PriorEquivocationExcluded));
    let blocked = prior_dependencies_valid_metered(
        &prior,
        &vec![hash(1)],
        &set_of(vec![hash(3)]),
        &mut WorkBudget::new(0, 100),
        &NeverCancelled,
    );
    assert_eq!(blocked, Ok(false));
}

#[test]
fn hash_sets_compare_member_by_member() {
    let left = set_of(vec![hash(1), hash(2), hash(3)]);
    let same = set_of(vec![hash(3), hash(2), hash(1)]);
    let other = set_of(vec![hash(1), hash(2), hash(4)]);
    let shorter = set_of(vec![hash(1), hash(2)]);

    let mut budget = WorkBudget::new(0, 100);
    assert_eq!(metered_hash_sets_equal(&left, &same, &mut budget, &NeverCancelled), Ok(true));
    assert_eq!(budget.consumed().get(WorkCounter::GraphNode), 3);

    let mut budget = WorkBudget::new(0, 100);
    assert_eq!(metered_hash_sets_equal(&left, &other, &mut budget, &NeverCancelled), Ok(false));
    assert_eq!(budget.consumed().get(WorkCounter::GraphNode), 3);

    let mut budget = WorkBudget::new(0, 100);
    assert_eq!(metered_hash_sets_equal(&left, &shorter, &mut budget, &NeverCancelled), Ok(false));
    assert_eq!(budget.consumed().get(WorkCounter::GraphNode), 0);

    let mut budget = WorkBudget::new(0, 2);
    assert_eq!(
        metered_hash_sets_equal(&left, &same, &mut budget, &NeverCancelled),
        Err(WorkStop::BudgetExhausted)
    );
    assert_eq!(budget.consumed().get(WorkCounter::GraphNode), 2);
}

fn projection_candidate(hash_byte: u8) -> ChangeCandidate {
    ChangeCandidate {
        change_hash: hash(hash_byte),
        actor: ActorId::from_bytes([6; 32]),
        sequence: 1,
        start_op: 1,
        operation_count: 1,
        dependencies: Vec::new(),
        control_id: EventId::from_bytes([3; 32]),
        author: DevicePublicKey::from_bytes([7; 32]),
        valid_carriers: Vec::new(),
    }
}

type ProjectionRun = (
    OrdMap<ChangeHash, ChangeCandidate>,
    Vec<ChangeCandidate>,
    (OrdSet<ChangeHash>, OrdMap<ChangeHash, ChangeCandidate>),
);

/// Four charged steps that stage one epoch candidate, then the three projections.
fn projection_run(
    base: &OrdMap<ChangeHash, ChangeCandidate>,
    local: &OrdMap<ChangeHash, ChangeCandidate>,
    accepted: &OrdSet<ChangeHash>,
    dispositions: &OrdMap<ChangeHash, ProtocolDisposition>,
    budget: &mut WorkBudget,
    cancellation: &impl CancellationCheck,
) -> Result<ProjectionRun, WorkStop> {
    for _ in 0..4 {
        charge_one(budget, cancellation, WorkCounter::GraphNode)?;
    }
    let all = clone_candidate_maps_metered(base, local, budget, cancellation)?;
    let eligible = collect_eligible_candidates_metered(&all, accepted, dispositions, budget, cancellation)?;
    let projected = project_accepted_candidates_metered(&all, accepted, dispositions, budget, cancellation)?;
    Ok((all, eligible, projected))
}

#[test]
fn candidate_projections_charge_before_each_owned_entry() {
    let first = projection_candidate(5);
    let second = projection_candidate(8);
    let mut base = OrdMap::new();
    base.insert(first.change_hash, first.clone());
    let mut local = OrdMap::new();
    local.insert(second.change_hash, second.clone());
    let accepted = set_of(vec![first.change_hash]);
    let mut dispositions = OrdMap::new();
    dispositions.insert(second.change_hash, ProtocolDisposition::Accepted);

    let mut unlimited = WorkBudget::new(0, 1000);
    let complete = projection_run(&base, &local, &accepted, &dispositions, &mut unlimited, &NeverCancelled);
    let (all, eligible, projected) = complete.ok().expect("projection completes");
    assert_eq!(all.len(), 2);
    assert_eq!(eligible.len(), 2);
    assert_eq!(projected.0.len(), 2);
    assert_eq!(projected.1.len(), 2);
    let total = unlimited.consumed().get(WorkCounter::GraphNode);
    assert_eq!(total, 36);

    for allowance in 0..total {
        for cancel in [false, true] {
            let (mut budget, cancellation) = if cancel {
                (WorkBudget::new(0, 1000), CancelAfter { remaining: Cell::new(allowance) })
            } else {
                (WorkBudget::new(0, allowance), CancelAfter { remaining: Cell::new(u64::MAX) })
            };
            let result = projection_run(&base, &local, &accepted, &dispositions, &mut budget, &cancellation);
            let stop = if cancel { WorkStop::Cancelled } else { WorkStop::BudgetExhausted };
            assert_eq!(result.err(), Some(stop));
            assert_eq!(budget.consumed().get(WorkCounter::GraphNode), allowance);
        }
    }

    let mut short = WorkBudget::new(0, 1);
    assert_eq!(
        clone_candidate_maps_metered(&base, &local, &mut short, &NeverCancelled).err(),
        Some(WorkStop::BudgetExhausted)
    );
    assert_eq!(short.consumed().get(WorkCounter::GraphNode), 1);

    let mut exact = WorkBudget::new(0, 32);
    let all = clone_candidate_maps_metered(&base, &local, &mut exact, &NeverCancelled)
        .ok()
        .expect("copy completes");
    let eligible = collect_eligible_candidates_metered(&all, &accepted, &dispositions, &mut exact, &NeverCancelled);
    assert_eq!(eligible.as_ref().map(Vec::len), Ok(2));
    let projected = project_accepted_candidates_metered(&all, &accepted, &dispositions, &mut exact, &NeverCancelled)
        .ok()
        .expect("projection completes");
    assert_eq!(projected.0.len(), 2);
    assert_eq!(projected.1.len(), 2);
    assert_eq!(exact.consumed().get(WorkCounter::GraphNode), 32);
}

#[test]
fn projections_keep_accepted_candidates_and_drop_excluded_ones() {
    let mut candidates = OrdMap::new();
    for byte in [1_u8, 2, 3, 4] {
        candidates.insert(hash(byte), projection_candidate(byte));
    }
    let accepted = set_of(vec![hash(1), hash(2)]);
    let mut dispositions = OrdMap::new();
    dispositions.insert(hash(2), ProtocolDisposition::Excluded);
    dispositions.insert(hash(3), ProtocolDisposition::Accepted);
    dispositions.insert(hash(4), ProtocolDisposition::Pending);

    let eligible =
        collect_eligible_candidates_metered(&candidates, &accepted, &dispositions, &mut WorkBudget::new(0, 100), &NeverCancelled)
            .ok()
            .expect("collection completes");
    let hashes: Vec<ChangeHash> = eligible.iter().map(|c| c.change_hash).collect();
    assert_eq!(hashes, vec![hash(1), hash(2), hash(3)]);

    let (closure, projected) =
        project_accepted_candidates_metered(&candidates, &accepted, &dispositions, &mut WorkBudget::new(0, 100), &NeverCancelled)
            .ok()
            .expect("projection completes");
    assert_eq!(closure.to_vec(), vec![hash(1), hash(3)]);
    assert_eq!(projected.len(), 2);
    assert_eq!(projected.get(&hash(3)).map(|c| c.change_hash), Some(hash(3)));
    assert!(projected.get(&hash(2)).is_none());

    let mut replacement = projection_candidate(1);
    replacement.sequence = 9;
    let mut local = OrdMap::new();
    local.insert(hash(1), replacement);
    let merged = clone_candidate_maps_metered(&candidates, &local, &mut WorkBudget::new(0, 100), &NeverCancelled)
        .ok()
        .expect("copy completes");
    assert_eq!(merged.len(), 4);
    assert_eq!(merged.get(&hash(1)).map(|c| c.sequence), Some(9));
}

