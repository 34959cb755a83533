use std::cell::Cell;

use nostr_automerge::graph::change_candidate::ChangeCandidate;
use nostr_automerge::graph::closure::{
    ancestor_closure, candidate_dependency_closure, CandidateDependencyClosure, ClosureError,
};
use nostr_automerge::graph::dependency_graph::DependencyGraph;
use nostr_automerge::ordered::{OrdMap, OrdSet};
use nostr_automerge::types::{ActorId, ChangeHash, DevicePublicKey, EventId};
use nostr_automerge::work_budget::{
    CancellationCheck, NeverCancelled, WorkBudget, WorkCounter, WorkStop,
};

struct AlwaysCancelled;

impl CancellationCheck for AlwaysCancelled {
    fn is_cancelled(&self) -> bool {
        true
    }
}

/// Cancels once `remaining` checks have passed.
struct CancelAfter {
    remaining: Cell<usize>,
}

impl CancellationCheck for CancelAfter {
    fn is_cancelled(&self) -> bool {
        let left = self.remaining.get();
        if left == 0 {
            return true;
        }
        self.remaining.set(left - 1);
        false
    }
}

fn hash(value: u16) -> ChangeHash {
    let mut bytes = [0; 32];
    bytes[..2].copy_from_slice(&value.to_be_bytes());
    ChangeHash::from_bytes(bytes)
}

fn candidate(actor: u8, sequence: u64, start: u64, count: u64) -> ChangeCandidate {
    ChangeCandidate {
        change_hash: ChangeHash::from_bytes([u8::try_from(sequence).unwrap_or_default(); 32]),
        actor: ActorId::from_bytes([actor; 32]),
        sequence,
        start_op: start,
        operation_count: count,
        dependencies: Vec::new(),
        control_id: EventId::from_bytes([9; 32]),
        author: DevicePublicKey::from_bytes([actor; 32]),
        valid_carriers: vec![EventId::from_bytes([actor; 32])],
    }
}

fn set(values: &[ChangeHash]) -> OrdSet<ChangeHash> {
    let mut s = OrdSet::new();
    for value in values {
        s.insert(*value);
    }
    s
}

fn by_hash(items: &[ChangeCandidate]) -> OrdMap<ChangeHash, ChangeCandidate> {
    let mut map = OrdMap::new();
    for item in items {
        map.insert(item.change_hash, item.clone());
    }
    map
}

fn closure_ok(
    query: &ChangeCandidate,
    candidates: &OrdMap<ChangeHash, ChangeCandidate>,
    operation_limit: u64,
) -> Option<CandidateDependencyClosure> {
    let mut budget = WorkBudget::new(0, operation_limit);
    candidate_dependency_closure(query, candidates, &mut budget, &NeverCancelled).ok()
}

#[test]
fn implement_iterative_ancestor_closure() {
    let mut nodes = OrdMap::new();
    nodes.insert(hash(2), set(&[hash(1)]));
    nodes.insert(hash(3), set(&[hash(1)]));
    nodes.insert(hash(4), set(&[hash(2), hash(3)]));
    for value in 5..1_000 {
        nodes.insert(hash(value), set(&[hash(value - 1)]));
    }
    let graph = DependencyGraph {
        nodes,
        dependants: OrdMap::new(),
        indegrees: OrdMap::new(),
        accepted_base: set(&[hash(1)]),
        edge_count: 999,
    };
    let mut budget = WorkBudget::new(0, 2_000);
    let closure = ancestor_closure(&graph, vec![hash(999)], &mut budget, &NeverCancelled);
    assert_eq!(closure.as_ref().map(|c| c.len()).ok(), Some(999));
    assert_eq!(budget.consumed().get(WorkCounter::GraphNode), 999);
    assert_eq!(budget.consumed().get(WorkCounter::GraphEdge), 999);
    let mut missing_budget = WorkBudget::new(0, 10);
    assert_eq!(
        ancestor_closure(&graph, vec![hash(1_001)], &mut missing_budget, &NeverCancelled).err(),
        Some(ClosureError::Missing(hash(1_001)))
    );
    let mut exhausted = WorkBudget::new(0, 1);
    assert_eq!(
        ancestor_closure(&graph, vec![hash(2)], &mut exhausted, &NeverCancelled).err(),
        Some(ClosureError::BudgetExhausted)
    );
    assert_eq!(exhausted.consumed().get(WorkCounter::GraphNode), 1);
    assert_eq!(exhausted.consumed().get(WorkCounter::GraphEdge), 0);
    let mut cancelled = WorkBudget::new(0, 10);
    assert_eq!(
        ancestor_closure(&graph, vec![hash(2)], &mut cancelled, &AlwaysCancelled).err(),
        Some(ClosureError::Cancelled)
    );
}

#[test]
fn candidate_dependency_closure_covers_all_graph_shapes() {
    let mut root = candidate(1, 1, 1, 1);
    root.change_hash = hash(1);
    let mut left = candidate(2, 1, 1, 1);
    left.change_hash = hash(2);
    left.dependencies = vec![root.change_hash];
    let mut right = candidate(3, 1, 1, 1);
    right.change_hash = hash(3);
    right.dependencies = vec![root.change_hash];
    let mut diamond = candidate(4, 1, 1, 1);
    diamond.change_hash = hash(4);
    diamond.dependencies = vec![left.change_hash, right.change_hash];
    let candidates = by_hash(&[root.clone(), left.clone(), right.clone(), diamond.clone()]);
    let closure = closure_ok(&diamond, &candidates, 10_000);
    let Some(closure) = closure else {
        panic!("closure");
    };
    assert_eq!(closure.known.to_vec(), vec![hash(1), hash(2), hash(3)]);
    assert_eq!(closure.ordered, vec![hash(1), hash(2), hash(3)]);
    assert!(closure.missing.is_empty() && closure.cyclic.is_empty());

    let mut multiple_roots = diamond.clone();
    multiple_roots.dependencies = vec![left.change_hash, right.change_hash, hash(9)];
    let closure = closure_ok(&multiple_roots, &candidates, 10_000);
    let Some(closure) = closure else {
        panic!("closure");
    };
    assert_eq!(closure.missing.to_vec(), vec![hash(9)]);

    let mut cycle_left = left;
    let mut cycle_right = right;
    cycle_left.dependencies = vec![cycle_right.change_hash];
    cycle_right.dependencies = vec![cycle_left.change_hash];
    let cycle_candidates = by_hash(&[cycle_left.clone(), cycle_right.clone()]);
    let mut cycle_root = root;
    cycle_root.dependencies = vec![cycle_left.change_hash];
    let closure = closure_ok(&cycle_root, &cycle_candidates, 10_000);
    let Some(closure) = closure else {
        panic!("closure");
    };
    assert_eq!(closure.cyclic.to_vec(), vec![hash(2), hash(3)]);
    assert!(closure.ordered.is_empty());

    assert_eq!(
        candidate_dependency_closure(
            &diamond,
            &candidates,
            &mut WorkBudget::new(0, 0),
            &NeverCancelled
        )
        .err(),
        Some(WorkStop::BudgetExhausted)
    );
    assert_eq!(
        candidate_dependency_closure(
            &diamond,
            &candidates,
            &mut WorkBudget::new(0, 100),
            &AlwaysCancelled
        )
        .err(),
        Some(WorkStop::Cancelled)
    );
}

#[test]
fn candidate_dependency_closure_charges_immediately_before_every_target_operation() {
    let mut first = candidate(1, 1, 1, 1);
    first.change_hash = hash(1);
    let mut second = candidate(2, 1, 1, 1);
    second.change_hash = hash(2);
    second.dependencies = vec![first.change_hash];
    let mut third = candidate(3, 1, 1, 1);
    third.change_hash = hash(3);
    third.dependencies = vec![first.change_hash];
    let mut cycle_left = candidate(5, 1, 1, 1);
    cycle_left.change_hash = hash(5);
    cycle_left.dependencies = vec![hash(6)];
    let mut cycle_right = candidate(6, 1, 1, 1);
    cycle_right.change_hash = hash(6);
    cycle_right.dependencies = vec![hash(5)];
    let candidates = by_hash(&[first, second.clone(), third.clone(), cycle_left, cycle_right]);
    let mut query = candidate(4, 1, 1, 1);
    query.change_hash = hash(4);
    query.dependencies = vec![second.change_hash, third.change_hash, hash(5), hash(9)];

    let mut ample_budget = WorkBudget::new(0, u64::MAX);
    let ample = candidate_dependency_closure(&query, &candidates, &mut ample_budget, &NeverCancelled);
    assert!(ample.is_ok());
    let ample = ample.unwrap();
    assert_eq!(ample.known.to_vec(), vec![hash(1), hash(2), hash(3), hash(5), hash(6)]);
    assert_eq!(ample.missing.to_vec(), vec![hash(9)]);
    assert_eq!(ample.ordered, vec![hash(1), hash(2), hash(3)]);
    assert_eq!(ample.cyclic.to_vec(), vec![hash(5), hash(6)]);
    let usage = ample_budget.consumed();
    let operations = usage.get(WorkCounter::GraphNode) + usage.get(WorkCounter::GraphEdge);
    assert!(operations > 0);

    for allowance in 0..operations {
        let mut budget = WorkBudget::new(0, allowance);
        let result = candidate_dependency_closure(&query, &candidates, &mut budget, &NeverCancelled);
        assert_eq!(result.err(), Some(WorkStop::BudgetExhausted), "budget {allowance}");
        let used = budget.consumed();
        assert_eq!(
            used.get(WorkCounter::GraphNode) + used.get(WorkCounter::GraphEdge),
            allowance,
            "budget {allowance}"
        );

        let mut budget = WorkBudget::new(0, u64::MAX);
        let cancel = CancelAfter { remaining: Cell::new(allowance as usize) };
        let result = candidate_dependency_closure(&query, &candidates, &mut budget, &cancel);
        assert_eq!(result.err(), Some(WorkStop::Cancelled), "cancel {allowance}");
        let used = budget.consumed();
        assert_eq!(
            used.get(WorkCounter::GraphNode) + used.get(WorkCounter::GraphEdge),
            allowance,
            "cancel {allowance}"
        );
    }

    let mut exact_budget = WorkBudget::new(0, operations);
    let exact = candidate_dependency_closure(&query, &candidates, &mut exact_budget, &NeverCancelled);
    assert!(exact.is_ok());
    let exact = exact.unwrap();
    assert_eq!(exact.known.to_vec(), ample.known.to_vec());
    assert_eq!(exact.missing.to_vec(), ample.missing.to_vec());
    assert_eq!(exact.ordered, ample.ordered);
    assert_eq!(exact.cyclic.to_vec(), ample.cyclic.to_vec());
}

#[test]
fn candidate_dependency_closure_scales_across_deep_wide_cycle_and_missing_graphs() {
    let mut items = Vec::new();
    for value in 1_u16..=64 {
        let actor = u8::try_from(value).unwrap();
        let mut item = candidate(actor, 1, 1, 1);
        item.change_hash = hash(value);
        if value > 1 {
            item.dependencies = vec![hash(value - 1)];
        }
        items.push(item);
    }
    let candidates = by_hash(&items);
    let mut deep = candidate(65, 1, 1, 1);
    deep.change_hash = hash(65);
    deep.dependencies = vec![hash(64)];
    let closure = closure_ok(&deep, &candidates, 100_000);
    assert!(closure.is_some());
    let closure = closure.unwrap();
    assert_eq!(closure.known.len(), 64);
    assert_eq!(closure.ordered, (1..=64).map(hash).collect::<Vec<_>>());

    let missing = (100..164).map(hash).collect::<Vec<_>>();
    let mut wide = candidate(66, 1, 1, 1);
    wide.change_hash = hash(66);
    wide.dependencies = missing.clone();
    let closure = closure_ok(&wide, &candidates, 100_000);
    assert!(closure.is_some());
    let closure = closure.unwrap();
    assert_eq!(closure.missing.to_vec(), missing);
    assert!(closure.known.is_empty() && closure.ordered.is_empty());

    let mut cycle_left = candidate(200, 1, 1, 1);
    cycle_left.change_hash = hash(200);
    cycle_left.dependencies = vec![hash(201)];
    let mut cycle_right = candidate(201, 1, 1, 1);
    cycle_right.change_hash = hash(201);
    cycle_right.dependencies = vec![hash(200)];
    let cycle_candidates = by_hash(&[cycle_left, cycle_right]);
    let mut cycle = candidate(202, 1, 1, 1);
    cycle.change_hash = hash(202);
    cycle.dependencies = vec![hash(200)];
    let closure = closure_ok(&cycle, &cycle_candidates, 10_000);
    assert!(closure.is_some());
    let closure = closure.unwrap();
    assert_eq!(closure.cyclic.to_vec(), vec![hash(200), hash(201)]);
    assert!(closure.ordered.is_empty());
}

#[test]
fn finding_100_dependency_closure_work_reproduction() {
    let dependencies = (1..=64).map(hash).collect::<Vec<_>>();
    let mut root = candidate(65, 1, 1, 1);
    root.change_hash = hash(65);
    root.dependencies = dependencies.clone();
    let closure = closure_ok(&root, &OrdMap::new(), 10_000);
    assert!(closure.is_some_and(|value| {
        value.known.is_empty() && value.missing.to_vec() == dependencies && value.ordered.is_empty()
    }));
}
