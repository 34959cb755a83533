use nostr_automerge::graph::change_candidate::ChangeCandidate;
use nostr_automerge::graph::dependency_graph::{
    build_graph, build_graph_metered, build_graph_with_limits, GraphBuildError,
    MeteredGraphBuildError,
};
use nostr_automerge::ordered::OrdSet;
use nostr_automerge::types::{ActorId, ChangeHash, DevicePublicKey, EventId};
use nostr_automerge::work_budget::{NeverCancelled, WorkBudget, WorkCounter, WorkStop};

fn candidate(hash: u8, dependencies: Vec<u8>) -> ChangeCandidate {
    ChangeCandidate {
        change_hash: ChangeHash::from_bytes([hash; 32]),
        actor: ActorId::from_bytes([1; 32]),
        sequence: u64::from(hash),
        start_op: u64::from(hash),
        operation_count: 1,
        dependencies: dependencies
            .into_iter()
            .map(|byte| ChangeHash::from_bytes([byte; 32]))
            .collect::<Vec<_>>(),
        control_id: EventId::from_bytes([2; 32]),
        author: DevicePublicKey::from_bytes([3; 32]),
        valid_carriers: vec![EventId::from_bytes([hash; 32])],
    }
}

fn h(byte: u8) -> ChangeHash {
    ChangeHash::from_bytes([byte; 32])
}

fn diamond() -> Vec<ChangeCandidate> {
    vec![
        candidate(1, vec![]),
        candidate(2, vec![1]),
        candidate(3, vec![1]),
        candidate(4, vec![2, 3]),
    ]
}

#[test]
fn build_deterministic_dependency_graph() {
    assert_eq!(build_graph(vec![], OrdSet::new()).map(|g| g.nodes.len()).ok(), Some(0));
    let graph = build_graph(diamond(), OrdSet::new());
    assert!(graph.is_ok());
    let graph = match graph {
        Ok(graph) => graph,
        Err(_) => return,
    };
    assert_eq!(graph.nodes.get(&h(4)).map(|deps| deps.len()), Some(2));
    assert_eq!(graph.edge_count, 4);
    assert_eq!(graph.indegrees.entries(), vec![(h(1), 0), (h(2), 1), (h(3), 1), (h(4), 2)]);
    assert_eq!(graph.dependants.get(&h(1)).map(|s| s.to_vec()), Some(vec![h(2), h(3)]));
    assert_eq!(graph.dependants.get(&h(2)).map(|s| s.to_vec()), Some(vec![h(4)]));
    assert_eq!(
        build_graph(vec![candidate(1, vec![1])], OrdSet::new()).err(),
        Some(GraphBuildError::SelfDependency)
    );
    assert_eq!(
        build_graph(vec![candidate(2, vec![1, 1])], OrdSet::new()).err(),
        Some(GraphBuildError::DuplicateDependency)
    );
    assert_eq!(
        build_graph_with_limits(vec![candidate(1, vec![])], OrdSet::new(), 0, 0).err(),
        Some(GraphBuildError::Limit)
    );
}

#[test]
fn ordinary_graph_limits_are_not_checkpoint_limits() {
    let ordinary = build_graph(vec![candidate(1, vec![]), candidate(2, vec![1])], OrdSet::new());
    assert!(ordinary.is_ok());
    assert_eq!(
        build_graph_with_limits(
            vec![candidate(1, vec![]), candidate(2, vec![1])],
            OrdSet::new(),
            1,
            1,
        )
        .err(),
        Some(GraphBuildError::Limit)
    );
}

#[test]
fn metered_graph_matches_unmetered_topology_and_charges_each_pass() {
    let candidates = diamond();
    let expected = build_graph(diamond(), OrdSet::new());
    assert!(expected.is_ok());
    let expected = expected.unwrap();
    let mut budget = WorkBudget::new(u64::MAX, u64::MAX);
    let measured = build_graph_metered(&candidates, &OrdSet::new(), &mut budget, &NeverCancelled);
    assert!(measured.is_ok());
    let measured = measured.unwrap();
    assert_eq!(measured.edge_count, expected.edge_count);
    assert_eq!(measured.indegrees.entries(), expected.indegrees.entries());
    assert_eq!(measured.nodes.len(), expected.nodes.len());
    assert_eq!(measured.dependants.len(), expected.dependants.len());
    assert_eq!(budget.consumed().get(WorkCounter::GraphNode), 8);
    assert_eq!(budget.consumed().get(WorkCounter::GraphEdge), 8);
}

#[test]
fn metered_graph_stops_exactly_at_its_operation_count() {
    let candidates = diamond();
    for allowance in 0..16 {
        let mut budget = WorkBudget::new(u64::MAX, allowance);
        let result = build_graph_metered(&candidates, &OrdSet::new(), &mut budget, &NeverCancelled);
        assert_eq!(
            result.err(),
            Some(MeteredGraphBuildError::Work(WorkStop::BudgetExhausted)),
            "allowance:{allowance}"
        );
    }
    let mut budget = WorkBudget::new(u64::MAX, 16);
    assert!(build_graph_metered(&candidates, &OrdSet::new(), &mut budget, &NeverCancelled).is_ok());
}

#[test]
fn duplicate_nodes_and_edge_limits_are_refused_in_order() {
    assert_eq!(
        build_graph(vec![candidate(1, vec![]), candidate(1, vec![])], OrdSet::new()).err(),
        Some(GraphBuildError::DuplicateNode)
    );
    assert_eq!(
        build_graph_with_limits(diamond(), OrdSet::new(), 4, 3).err(),
        Some(GraphBuildError::Limit)
    );
    assert!(build_graph_with_limits(diamond(), OrdSet::new(), 4, 4).is_ok());
    let mut budget = WorkBudget::new(u64::MAX, u64::MAX);
    assert_eq!(
        build_graph_metered(
            &vec![candidate(1, vec![]), candidate(1, vec![])],
            &OrdSet::new(),
            &mut budget,
            &NeverCancelled
        )
        .err(),
        Some(MeteredGraphBuildError::Graph(GraphBuildError::DuplicateNode))
    );
}
