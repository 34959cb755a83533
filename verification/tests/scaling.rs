use nostr_automerge::graph::change_candidate::ChangeCandidate;
use nostr_automerge::graph::dependency_graph::{build_graph, GraphBuildError};
use nostr_automerge::graph::equivocation::quarantine_equivocation_descendants;
use nostr_automerge::graph::schedule::schedule_candidates;
use nostr_automerge::ordered::OrdSet;
use nostr_automerge::types::{ActorId, ChangeHash, DevicePublicKey, EventId};
use nostr_automerge::work_budget::{NeverCancelled, WorkBudget, WorkCounter};

fn hash(value: u16) -> ChangeHash {
    let mut bytes = [0; 32];
    bytes[..2].copy_from_slice(&value.to_be_bytes());
    ChangeHash::from_bytes(bytes)
}

fn candidate(value: u16, dependencies: Vec<ChangeHash>) -> ChangeCandidate {
    let mut bytes = [0; 32];
    bytes[..2].copy_from_slice(&value.to_be_bytes());
    ChangeCandidate {
        change_hash: hash(value),
        actor: ActorId::from_bytes([1; 32]),
        sequence: u64::from(value),
        start_op: u64::from(value),
        operation_count: 1,
        dependencies,
        control_id: EventId::from_bytes([2; 32]),
        author: DevicePublicKey::from_bytes([3; 32]),
        valid_carriers: vec![EventId::from_bytes(bytes)],
    }
}

fn measured(candidates: Vec<ChangeCandidate>) -> (usize, usize, u64, u64) {
    let mut budget = WorkBudget::new(0, 100_000);
    let schedule = schedule_candidates(candidates, &OrdSet::new(), &mut budget, &NeverCancelled);
    assert!(schedule.is_ok());
    let schedule = schedule.unwrap();
    (
        schedule.ordered.len(),
        schedule.pending.len() + schedule.cyclic.len(),
        budget.consumed().get(WorkCounter::GraphNode),
        budget.consumed().get(WorkCounter::GraphEdge),
    )
}

fn chain(size: u16) -> Vec<ChangeCandidate> {
    (1..=size)
        .map(|value| candidate(value, if value > 1 { vec![hash(value - 1)] } else { vec![] }))
        .collect()
}

#[test]
fn graph_scaling_regression_models_are_proportional() {
    let small = measured(chain(64));
    let large = measured(chain(128));
    assert_eq!((large.0, large.1), (128, 0));
    assert_eq!((small.0, small.1), (64, 0));
    assert!(large.2 <= small.2 * 2 + 16 && large.3 <= small.3 * 2 + 16, "{small:?} {large:?}");
    assert!(large.3 > 0 && large.2 >= 256);

    let fan_out = std::iter::once(candidate(1, vec![]))
        .chain((2..=128).map(|value| candidate(value, vec![hash(1)])))
        .collect::<Vec<_>>();
    let fan_out = measured(fan_out);
    assert_eq!((fan_out.0, fan_out.1), (128, 0));
    assert!(fan_out.2 <= large.2 + 16 && fan_out.3 <= large.3 + 16, "{fan_out:?} {large:?}");

    let fan_in = (1..=127)
        .map(|value| candidate(value, vec![]))
        .chain(std::iter::once(candidate(128, (1..=127).map(hash).collect())))
        .collect::<Vec<_>>();
    let fan_in = measured(fan_in);
    assert_eq!((fan_in.0, fan_in.1), (128, 0));
    assert!(fan_in.2 <= large.2 + 16 && fan_in.3 <= large.3 + 16, "{fan_in:?} {large:?}");

    let missing = measured(vec![candidate(1, vec![hash(999)])]);
    assert_eq!((missing.0, missing.1), (0, 1));
    let cycle = measured(vec![candidate(1, vec![hash(2)]), candidate(2, vec![hash(1)])]);
    assert_eq!((cycle.0, cycle.1), (0, 2));

    assert_eq!(
        build_graph(vec![candidate(1, vec![]), candidate(1, vec![])], OrdSet::new()).err(),
        Some(GraphBuildError::DuplicateNode)
    );
}

#[test]
fn expanded_control_actor_conflict_and_projection_models_are_bounded() {
    let small = measured(chain(64));
    let large = measured(chain(128));
    assert_eq!((small.0, small.1), (64, 0));
    assert_eq!((large.0, large.1), (128, 0));
    assert!(large.2 <= small.2 * 2 + 16 && large.3 <= small.3 * 2 + 16);

    let actor_work = |actors: u8, conflicts: bool| {
        let mut candidates = Vec::new();
        for actor in 1..=actors {
            let mut first = candidate(u16::from(actor) * 2, Vec::new());
            first.actor = ActorId::from_bytes([actor; 32]);
            candidates.push(first.clone());
            if conflicts {
                let mut conflict = first;
                conflict.change_hash = hash(u16::from(actor) * 2 + 1);
                candidates.push(conflict);
            }
        }
        let graph = build_graph(candidates.clone(), OrdSet::new());
        assert!(graph.is_ok());
        let graph = graph.unwrap();
        let mut budget = WorkBudget::new(0, 1_000_000);
        let result = quarantine_equivocation_descendants(candidates, &graph, &mut budget, &NeverCancelled);
        assert!(result.is_ok());
        (budget.consumed().get(WorkCounter::GraphNode), budget.consumed().get(WorkCounter::GraphEdge))
    };
    for conflicts in [false, true] {
        let small = actor_work(32, conflicts);
        let large = actor_work(64, conflicts);
        assert!(large.0 <= small.0 * 2 + 64, "{small:?} {large:?}");
        assert!(large.1 <= small.1 * 2 + 64, "{small:?} {large:?}");
    }
}
