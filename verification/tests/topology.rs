use nostr_automerge::graph::dependency_graph::DependencyGraph;
use nostr_automerge::graph::topology::{validate_topology, TopologyError};
use nostr_automerge::ordered::{OrdMap, OrdSet};
use nostr_automerge::types::ChangeHash;

fn hash(byte: u8) -> ChangeHash {
    ChangeHash::from_bytes([byte; 32])
}

fn set(bytes: &[u8]) -> OrdSet<ChangeHash> {
    let mut s = OrdSet::new();
    for byte in bytes {
        s.insert(hash(*byte));
    }
    s
}

fn graph(nodes: &[(u8, &[u8])], base: &[u8], edge_count: u64) -> DependencyGraph {
    let mut map = OrdMap::new();
    for (node, deps) in nodes {
        map.insert(hash(*node), set(deps));
    }
    DependencyGraph {
        nodes: map,
        dependants: OrdMap::new(),
        indegrees: OrdMap::new(),
        accepted_base: set(base),
        edge_count,
    }
}

#[test]
fn detect_cycles_and_malformed_dependencies() {
    let valid = graph(&[(1, &[]), (2, &[1])], &[], 1);
    assert_eq!(validate_topology(&valid).map(|topology| topology.order).ok(), Some(vec![hash(1), hash(2)]));
    let missing = graph(&[(2, &[9])], &[], 1);
    assert_eq!(validate_topology(&missing).err(), Some(TopologyError::PendingMissing(vec![hash(9)])));
    let cycle = graph(&[(1, &[2]), (2, &[1])], &[], 2);
    assert_eq!(validate_topology(&cycle).err(), Some(TopologyError::Cycle(vec![hash(1), hash(2)])));
    let self_cycle = graph(&[(3, &[3])], &[], 1);
    assert_eq!(validate_topology(&self_cycle).err(), Some(TopologyError::Cycle(vec![hash(3)])));
}

#[test]
fn accepted_dependencies_are_not_missing_and_order_is_least_first() {
    let g = graph(&[(5, &[9]), (3, &[5]), (4, &[5])], &[9], 3);
    assert_eq!(
        validate_topology(&g).map(|topology| topology.order).ok(),
        Some(vec![hash(5), hash(3), hash(4)])
    );
    let g = graph(&[(5, &[9, 8]), (3, &[7])], &[], 3);
    assert_eq!(
        validate_topology(&g).err(),
        Some(TopologyError::PendingMissing(vec![hash(7), hash(8), hash(9)]))
    );
    let g = graph(&[(1, &[]), (2, &[3]), (3, &[2]), (4, &[3])], &[], 3);
    assert_eq!(
        validate_topology(&g).err(),
        Some(TopologyError::Cycle(vec![hash(2), hash(3), hash(4)]))
    );
}
