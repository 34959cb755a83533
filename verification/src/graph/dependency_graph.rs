//! The dependency graph of a batch of change candidates.

use vstd::prelude::*;
use crate::graph::change_candidate::ChangeCandidate;
use crate::graph::schedule::max_deps;
use crate::ordered::{OrdMap, OrdSet, ensure_set_entry, insert_into_set_entry, sets_view, sets_wf};
use crate::types::ChangeHash;
use crate::work_budget::{CancellationCheck, WorkBudget, affords, WorkCounter, WorkStop, budget_grew, charge_from, is_byte_counter, lemma_budget_grew_trans, operations_exhausted};

verus! {

/// Each candidate's dependencies, its dependants and in-batch in-degrees.
#[derive(Debug)]
pub struct DependencyGraph {
    /// Each candidate's dependency set.
    pub nodes: OrdMap<ChangeHash, OrdSet<ChangeHash>>,
    /// For every node and every named dependency, the nodes that depend on it.
    pub dependants: OrdMap<ChangeHash, OrdSet<ChangeHash>>,
    /// For every node, how many of its dependencies are nodes.
    pub indegrees: OrdMap<ChangeHash, u64>,
    /// Changes accepted before this batch.
    pub accepted_base: OrdSet<ChangeHash>,
    /// The total number of dependency edges.
    pub edge_count: u64,
}

/// Why a dependency graph cannot be built.
#[derive(Clone, Copy, Debug, PartialEq, Eq, Structural)]
pub enum GraphBuildError {
    /// Two candidates share a change hash.
    DuplicateNode,
    /// A candidate names one dependency twice.
    DuplicateDependency,
    /// A candidate depends on itself.
    SelfDependency,
    /// A count does not fit its integer width.
    Limit,
}

impl DependencyGraph {
    /// All collections are well formed.
    pub open spec fn wf(&self) -> bool {
        &&& sets_wf(self.nodes)
        &&& sets_wf(self.dependants)
        &&& self.indegrees.wf()
        &&& self.accepted_base.wf()
    }

    /// Each node's dependency set.
    pub open spec fn node_sets(&self) -> Map<ChangeHash, Set<ChangeHash>> {
        sets_view(self.nodes)
    }
}

/// The change hashes of the first `n` candidates.
pub open spec fn hashes_of(cs: Seq<ChangeCandidate>, n: int) -> Set<ChangeHash> {
    Set::new(|h: ChangeHash| exists|j: int| 0 <= j < n && #[trigger] cs[j].change_hash == h)
}

/// The number of dependency edges named by the first `n` candidates.
pub open spec fn edge_total(cs: Seq<ChangeCandidate>, n: int) -> int
    decreases n,
{
    if n <= 0 {
        0
    } else {
        edge_total(cs, n - 1) + cs[n - 1].dependencies@.len()
    }
}

/// Whether the first `n` candidates exceed the node and edge limits, if any.
pub open spec fn over_limits(cs: Seq<ChangeCandidate>, n: int, limits: Option<(u64, u64)>) -> bool {
    match limits {
        Some((node_limit, edge_limit)) => edge_total(cs, n) > edge_limit || n > node_limit,
        None => false,
    }
}

/// The first problem candidate `i` raises under optional node and edge
/// limits, given the candidates before it.
pub open spec fn candidate_problem_limited(
    cs: Seq<ChangeCandidate>,
    i: int,
    limits: Option<(u64, u64)>,
) -> Option<GraphBuildError> {
    if !cs[i].dependencies@.no_duplicates() {
        Some(GraphBuildError::DuplicateDependency)
    } else if cs[i].dependencies@.contains(cs[i].change_hash) {
        Some(GraphBuildError::SelfDependency)
    } else if edge_total(cs, i + 1) > u64::MAX || over_limits(cs, i + 1, limits) {
        Some(GraphBuildError::Limit)
    } else if hashes_of(cs, i).contains(cs[i].change_hash) {
        Some(GraphBuildError::DuplicateNode)
    } else {
        None
    }
}

/// The first problem among the first `n` candidates under optional limits,
/// in input order.
pub open spec fn first_problem_limited(
    cs: Seq<ChangeCandidate>,
    n: int,
    limits: Option<(u64, u64)>,
) -> Option<GraphBuildError>
    decreases n,
{
    if n <= 0 {
        None
    } else {
        match first_problem_limited(cs, n - 1, limits) {
            Some(e) => Some(e),
            None => candidate_problem_limited(cs, n - 1, limits),
        }
    }
}

/// The first problem candidate `i` raises, given the candidates before it.
pub open spec fn candidate_problem(cs: Seq<ChangeCandidate>, i: int) -> Option<GraphBuildError> {
    candidate_problem_limited(cs, i, None)
}

/// The first problem among the first `n` candidates, in input order.
pub open spec fn first_problem(cs: Seq<ChangeCandidate>, n: int) -> Option<GraphBuildError> {
    first_problem_limited(cs, n, None)
}

/// For every node and every dependency it names, the nodes naming it.
pub open spec fn dependants_of(nodes: Map<ChangeHash, Set<ChangeHash>>) -> Map<
    ChangeHash,
    Set<ChangeHash>,
> {
    Map::new(
        |x: ChangeHash|
            nodes.contains_key(x) || exists|h: ChangeHash| #[trigger]
                nodes.contains_key(h) && nodes[h].contains(x),
        |x: ChangeHash| Set::new(|h: ChangeHash| nodes.contains_key(h) && nodes[h].contains(x)),
    )
}

/// How many members of `s` belong to `m`.
pub open spec fn count_in(s: Seq<ChangeHash>, m: Set<ChangeHash>) -> nat
    decreases s.len(),
{
    if s.len() == 0 {
        0
    } else {
        count_in(s.drop_last(), m) + if m.contains(s.last()) {
            1nat
        } else {
            0nat
        }
    }
}

/// The graph that a problem-free candidate list describes.
pub open spec fn describes(g: DependencyGraph, cs: Seq<ChangeCandidate>, base: Set<ChangeHash>) -> bool {
    &&& g.wf()
    &&& g.node_sets().dom() == hashes_of(cs, cs.len() as int)
    &&& forall|j: int|
        0 <= j < cs.len() ==> #[trigger] g.node_sets()[cs[j].change_hash]
            == cs[j].dependencies@.to_set()
    &&& sets_view(g.dependants) == dependants_of(g.node_sets())
    &&& g.indegrees@.dom() == g.node_sets().dom()
    &&& forall|h: ChangeHash| #[trigger]
        g.indegrees@.contains_key(h) ==> g.indegrees@[h] == count_in(
            g.nodes@[h].seq(),
            g.node_sets().dom(),
        )
    &&& g.accepted_base@ == base
    &&& g.edge_count == edge_total(cs, cs.len() as int)
}

/// The set of a vector's members, and whether the vector has no duplicates.
pub fn digest_set(v: &Vec<ChangeHash>) -> (r: (OrdSet<ChangeHash>, bool))
    ensures
        r.0.wf(),
        r.0@ == v@.to_set(),
        r.1 == v@.no_duplicates(),
{
    let mut s: OrdSet<ChangeHash> = OrdSet::new();
    let n = v.len();
    let mut distinct = true;
    for i in 0..n
        invariant
            n == v@.len(),
            s.wf(),
            s@ == v@.subrange(0, i as int).to_set(),
            distinct == v@.subrange(0, i as int).no_duplicates(),
    {
        let ghost prefix = v@.subrange(0, i as int);
        let added = s.insert(v[i]);
        proof {
            let next = v@.subrange(0, i + 1);
            assert(next =~= prefix.push(v@[i as int]));
            prefix.lemma_push_to_set_commute(v@[i as int]);
            if !added {
                assert(prefix.contains(v@[i as int]));
                let k = choose|k: int| 0 <= k < prefix.len() && prefix[k] == v@[i as int];
                assert(next[k] == next[i as int]);
                assert(!next.no_duplicates());
            } else {
                if prefix.no_duplicates() {
                    assert forall|a: int, b: int| 0 <= a < next.len() && 0 <= b < next.len() && a != b implies next[a]
                        != next[b] by {
                        if a == i {
                            assert(prefix.contains(next[b]) || b == i);
                        } else if b == i {
                            assert(prefix.contains(next[a]));
                        }
                    }
                } else {
                    let (a, b) = choose|a: int, b: int| 0 <= a < prefix.len() && 0 <= b < prefix.len() && a != b && prefix[a] == prefix[b];
                    assert(next[a] == next[b]);
                }
            }
        }
        distinct = distinct && added;
    }
    assert(v@.subrange(0, n as int) =~= v@);
    (s, distinct)
}

} // verus!

verus! {

/// `first_problem` is `None` exactly when no candidate raises a problem.
pub proof fn lemma_first_problem_none(cs: Seq<ChangeCandidate>, n: int, limits: Option<(u64, u64)>)
    requires
        0 <= n,
        first_problem_limited(cs, n, limits) is None,
    ensures
        forall|j: int| 0 <= j < n ==> #[trigger] candidate_problem_limited(cs, j, limits) is None,
    decreases n,
{
    if n > 0 {
        lemma_first_problem_none(cs, n - 1, limits);
    }
}

/// The edge total grows with the prefix.
pub proof fn lemma_edge_total_monotone(cs: Seq<ChangeCandidate>, a: int, b: int)
    requires
        0 <= a <= b,
    ensures
        edge_total(cs, a) <= edge_total(cs, b),
    decreases b - a,
{
    if a < b {
        lemma_edge_total_monotone(cs, a, b - 1);
    }
}

fn build_nodes(candidates: &Vec<ChangeCandidate>, limits: Option<(u64, u64)>) -> (r: Result<
    (OrdMap<ChangeHash, OrdSet<ChangeHash>>, u64),
    GraphBuildError,
>)
    ensures
        r matches Err(e) ==> first_problem_limited(candidates@, candidates@.len() as int, limits) == Some(e),
        r is Ok ==> first_problem_limited(candidates@, candidates@.len() as int, limits) is None,
        r matches Ok((nodes, edges)) ==> {
            &&& sets_wf(nodes)
            &&& sets_view(nodes).dom() == hashes_of(candidates@, candidates@.len() as int)
            &&& forall|j: int|
                0 <= j < candidates@.len() ==> #[trigger] sets_view(nodes)[candidates@[j].change_hash]
                    == candidates@[j].dependencies@.to_set()
            &&& edges == edge_total(candidates@, candidates@.len() as int)
        },
{
    let mut nodes: OrdMap<ChangeHash, OrdSet<ChangeHash>> = OrdMap::new();
    let mut edges: u64 = 0;
    let n = candidates.len();
    for i in 0..n
        invariant
            n == candidates@.len(),
            sets_wf(nodes),
            first_problem_limited(candidates@, i as int, limits) is None,
            sets_view(nodes).dom() == hashes_of(candidates@, i as int),
            forall|j: int|
                0 <= j < i ==> #[trigger] sets_view(nodes)[candidates@[j].change_hash]
                    == candidates@[j].dependencies@.to_set(),
            edges == edge_total(candidates@, i as int),
    {
        let ghost cs = candidates@;
        let candidate = &candidates[i];
        let (dependencies, distinct) = digest_set(&candidate.dependencies);
        if !distinct {
            proof {
                lemma_problem_prefix_stops(cs, i as int + 1, n as int, limits);
            }
            return Err(GraphBuildError::DuplicateDependency);
        }
        if dependencies.contains(&candidate.change_hash) {
            proof {
                lemma_problem_prefix_stops(cs, i as int + 1, n as int, limits);
            }
            return Err(GraphBuildError::SelfDependency);
        }
        let ghost dep_set = dependencies;
        let count = candidate.dependencies.len() as u64;
        if count > u64::MAX - edges {
            proof {
                assert(edge_total(cs, i + 1) == edge_total(cs, i as int) + cs[i as int].dependencies@.len());
                assert(candidate_problem_limited(cs, i as int, limits) == Some(GraphBuildError::Limit));
                lemma_problem_prefix_stops(cs, i as int + 1, n as int, limits);
            }
            return Err(GraphBuildError::Limit);
        }
        if let Some((node_limit, edge_limit)) = limits {
            if edges + count > edge_limit || i as u64 + 1 > node_limit {
                proof {
                    assert(edge_total(cs, i + 1) == edge_total(cs, i as int) + cs[i as int].dependencies@.len());
                    assert(candidate_problem_limited(cs, i as int, limits) == Some(GraphBuildError::Limit));
                    lemma_problem_prefix_stops(cs, i as int + 1, n as int, limits);
                }
                return Err(GraphBuildError::Limit);
            }
        }
        let ghost old_nodes = nodes;
        let inserted = nodes.insert(candidate.change_hash, dependencies);
        proof {
            assert(edge_total(cs, i + 1) == edge_total(cs, i as int) + cs[i as int].dependencies@.len());
        }
        if !inserted {
            proof {
                assert(hashes_of(cs, i as int).contains(cs[i as int].change_hash));
                assert(candidate_problem_limited(cs, i as int, limits) == Some(GraphBuildError::DuplicateNode));
                lemma_problem_prefix_stops(cs, i as int + 1, n as int, limits);
            }
            return Err(GraphBuildError::DuplicateNode);
        }
        edges = edges + count;
        proof {
            assert(!hashes_of(cs, i as int).contains(cs[i as int].change_hash));
            assert(candidate_problem_limited(cs, i as int, limits) is None);
            assert(sets_wf(nodes)) by {
                assert forall|k: ChangeHash| #[trigger] nodes@.contains_key(k) implies nodes@[k].wf() by {
                    if k != cs[i as int].change_hash {
                        assert(old_nodes@.contains_key(k));
                    }
                }
            }
            assert(sets_view(nodes).dom() =~= hashes_of(cs, i + 1)) by {
                assert forall|h: ChangeHash| hashes_of(cs, i + 1).contains(h) implies sets_view(nodes).dom().contains(h) by {
                    let j = choose|j: int| 0 <= j < i + 1 && #[trigger] cs[j].change_hash == h;
                    if j < i {
                        assert(hashes_of(cs, i as int).contains(h));
                    }
                }
                assert forall|h: ChangeHash| sets_view(nodes).dom().contains(h) implies hashes_of(cs, i + 1).contains(h) by {
                    if h != cs[i as int].change_hash {
                        assert(hashes_of(cs, i as int).contains(h));
                        let j = choose|j: int| 0 <= j < i && #[trigger] cs[j].change_hash == h;
                        assert(cs[j].change_hash == h);
                    } else {
                        assert(cs[i as int].change_hash == h);
                    }
                }
            }
            assert forall|j: int| 0 <= j < i + 1 implies #[trigger] sets_view(nodes)[cs[j].change_hash]
                == cs[j].dependencies@.to_set() by {
                if j < i {
                    assert(hashes_of(cs, i as int).contains(cs[j].change_hash));
                    assert(cs[j].change_hash != cs[i as int].change_hash);
                    assert(sets_view(old_nodes)[cs[j].change_hash] == cs[j].dependencies@.to_set());
                    assert(nodes@[cs[j].change_hash] == old_nodes@[cs[j].change_hash]);
                } else {
                    assert(nodes@[cs[j].change_hash] == dep_set);
                }
            }
        }
    }
    Ok((nodes, edges))
}

/// Once a prefix has a problem, every longer prefix reports the same problem.
pub proof fn lemma_problem_prefix_stops(
    cs: Seq<ChangeCandidate>,
    a: int,
    b: int,
    limits: Option<(u64, u64)>,
)
    requires
        1 <= a <= b,
        first_problem_limited(cs, a - 1, limits) is None ==> candidate_problem_limited(cs, a - 1, limits) is Some,
    ensures
        first_problem_limited(cs, b, limits) == first_problem_limited(cs, a, limits),
        first_problem_limited(cs, a, limits) is Some,
    decreases b - a,
{
    if a < b {
        lemma_problem_prefix_stops(cs, a, b - 1, limits);
    }
}

} // verus!

verus! {

/// The dependants map spanned by node keys and a set of processed (node, dependency) edges.
pub open spec fn edge_map(
    nodes: Map<ChangeHash, Set<ChangeHash>>,
    edges: Set<(ChangeHash, ChangeHash)>,
) -> Map<ChangeHash, Set<ChangeHash>> {
    Map::new(
        |x: ChangeHash| nodes.contains_key(x) || exists|h: ChangeHash| #[trigger] edges.contains((h, x)),
        |x: ChangeHash| Set::new(|h: ChangeHash| edges.contains((h, x))),
    )
}

/// The (node, dependency) edges of the first `i` nodes and the first `k` dependencies of node `i`.
pub open spec fn edges_upto(
    nodes: OrdMap<ChangeHash, OrdSet<ChangeHash>>,
    i: int,
    k: int,
) -> Set<(ChangeHash, ChangeHash)> {
    Set::new(
        |p: (ChangeHash, ChangeHash)|
            (exists|j: int|
                0 <= j < i && p.0 == nodes.key_seq()[j] && #[trigger] nodes.val_seq()[j]@.contains(p.1))
                || (i < nodes.key_seq().len() && p.0 == nodes.key_seq()[i] && exists|m: int|
                0 <= m < k && p.1 == #[trigger] nodes.val_seq()[i].seq()[m]),
    )
}

fn build_dependants(nodes: &OrdMap<ChangeHash, OrdSet<ChangeHash>>) -> (d: OrdMap<
    ChangeHash,
    OrdSet<ChangeHash>,
>)
    requires
        sets_wf(*nodes),
    ensures
        sets_wf(d),
        sets_view(d) == dependants_of(sets_view(*nodes)),
{
    let ghost nv = sets_view(*nodes);
    let mut d: OrdMap<ChangeHash, OrdSet<ChangeHash>> = OrdMap::new();
    let n = nodes.len();
    for i in 0..n
        invariant
            n == nodes.key_seq().len(),
            sets_wf(*nodes),
            sets_wf(d),
            sets_view(d) == Map::new(
                |x: ChangeHash| exists|j: int| 0 <= j < i && #[trigger] nodes.key_seq()[j] == x,
                |x: ChangeHash| Set::<ChangeHash>::empty(),
            ),
    {
        let ghost old_d = sets_view(d);
        let key = nodes.key_at(i);
        ensure_set_entry(&mut d, key);
        proof {
            assert(sets_view(d) =~= Map::new(
                |x: ChangeHash| exists|j: int| 0 <= j < i + 1 && #[trigger] nodes.key_seq()[j] == x,
                |x: ChangeHash| Set::<ChangeHash>::empty(),
            )) by {
                assert forall|x: ChangeHash| (exists|j: int| 0 <= j < i + 1 && #[trigger] nodes.key_seq()[j] == x)
                    implies sets_view(d).contains_key(x) by {
                    let j = choose|j: int| 0 <= j < i + 1 && #[trigger] nodes.key_seq()[j] == x;
                    if j < i {
                        assert(old_d.contains_key(x));
                    }
                }
                assert forall|x: ChangeHash| sets_view(d).contains_key(x) implies (exists|j: int| 0 <= j < i + 1 && #[trigger] nodes.key_seq()[j] == x) by {
                    if x != key {
                        assert(old_d.contains_key(x));
                    } else {
                        assert(nodes.key_seq()[i as int] == x);
                    }
                }
            }
        }
    }
    proof {
        nodes.lemma_len();
        assert(sets_view(d) =~= edge_map(nv, edges_upto(*nodes, 0, 0))) by {
            assert forall|x: ChangeHash| sets_view(d).contains_key(x) <==> edge_map(nv, edges_upto(*nodes, 0, 0)).contains_key(x) by {
                if sets_view(d).contains_key(x) {
                    let j = choose|j: int| 0 <= j < n && #[trigger] nodes.key_seq()[j] == x;
                    nodes.lemma_position(j);
                }
                if nv.contains_key(x) {
                    assert(nodes.key_seq().contains(x));
                    let j = choose|j: int| 0 <= j < n && nodes.key_seq()[j] == x;
                    assert(nodes.key_seq()[j] == x);
                }
            }
            assert forall|x: ChangeHash| sets_view(d).contains_key(x) implies sets_view(d)[x] =~= edge_map(nv, edges_upto(*nodes, 0, 0))[x] by {
            }
        }
    }
    for i in 0..n
        invariant
            n == nodes.key_seq().len(),
            nv == sets_view(*nodes),
            sets_wf(*nodes),
            sets_wf(d),
            sets_view(d) == edge_map(nv, edges_upto(*nodes, i as int, 0)),
    {
        let key = nodes.key_at(i);
        let deps = nodes.value_at(i);
        proof {
            nodes.lemma_position(i as int);
            assert(deps.wf());
        }
        let m = deps.len();
        for k in 0..m
            invariant
                n == nodes.key_seq().len(),
                0 <= i < n,
                nv == sets_view(*nodes),
                key == nodes.key_seq()[i as int],
                *deps == nodes.val_seq()[i as int],
                deps.wf(),
                m == deps.seq().len(),
                sets_wf(d),
                sets_view(d) == edge_map(nv, edges_upto(*nodes, i as int, k as int)),
        {
            let dep = deps.get(k);
            let ghost before = edges_upto(*nodes, i as int, k as int);
            let ghost old_view = sets_view(d);
            insert_into_set_entry(&mut d, dep, key);
            proof {
                let after = edges_upto(*nodes, i as int, k + 1);
                assert(after =~= before.insert((key, dep))) by {
                    assert forall|p: (ChangeHash, ChangeHash)| after.contains(p) implies before.insert((key, dep)).contains(p) by {
                        if p.0 == key && (exists|mm: int| 0 <= mm < k + 1 && p.1 == #[trigger] nodes.val_seq()[i as int].seq()[mm]) {
                            let mm = choose|mm: int| 0 <= mm < k + 1 && p.1 == #[trigger] nodes.val_seq()[i as int].seq()[mm];
                            if mm < k {
                                assert(before.contains(p));
                            }
                        }
                    }
                    assert forall|p: (ChangeHash, ChangeHash)| before.insert((key, dep)).contains(p) implies after.contains(p) by {
                        if p == (key, dep) {
                            assert(dep == nodes.val_seq()[i as int].seq()[k as int]);
                        }
                    }
                }
                let ev = edge_map(nv, after);
                let bv = edge_map(nv, before);
                assert(old_view == bv);
                assert forall|x: ChangeHash, h: ChangeHash| after.contains((h, x)) <==> (before.contains((h, x)) || (h == key && x == dep)) by {
                }
                assert(sets_view(d) =~= ev) by {
                    assert forall|x: ChangeHash| sets_view(d).contains_key(x) <==> ev.contains_key(x) by {
                        if x == dep {
                            assert(after.contains((key, dep)));
                        } else {
                            if exists|h: ChangeHash| #[trigger] after.contains((h, x)) {
                                let h = choose|h: ChangeHash| #[trigger] after.contains((h, x));
                                assert(before.contains((h, x)));
                            }
                            if exists|h: ChangeHash| #[trigger] before.contains((h, x)) {
                                let h = choose|h: ChangeHash| #[trigger] before.contains((h, x));
                                assert(after.contains((h, x)));
                            }
                        }
                    }
                    assert forall|x: ChangeHash| sets_view(d).contains_key(x) implies sets_view(d)[x] =~= ev[x] by {
                        if x == dep {
                            if old_view.contains_key(dep) {
                                assert(sets_view(d)[x] == old_view[dep].insert(key));
                                assert(old_view[dep] == bv[dep]);
                                assert forall|h: ChangeHash| sets_view(d)[x].contains(h) <==> ev[x].contains(h) by {
                                    if h != key {
                                        assert(after.contains((h, dep)) <==> before.contains((h, dep)));
                                    } else {
                                        assert(after.contains((key, dep)));
                                    }
                                }
                            } else {
                                assert forall|h: ChangeHash| !before.contains((h, dep)) by {
                                    if before.contains((h, dep)) {
                                        assert(bv.contains_key(dep));
                                    }
                                }
                                assert forall|h: ChangeHash| sets_view(d)[x].contains(h) <==> ev[x].contains(h) by {
                                }
                            }
                        } else {
                            assert forall|h: ChangeHash| sets_view(d)[x].contains(h) <==> ev[x].contains(h) by {
                            }
                        }
                    }
                }
            }
        }
        proof {
            assert(edges_upto(*nodes, i as int, m as int) =~= edges_upto(*nodes, i + 1, 0)) by {
                let a = edges_upto(*nodes, i as int, m as int);
                let b = edges_upto(*nodes, i + 1, 0);
                assert forall|p: (ChangeHash, ChangeHash)| a.contains(p) implies b.contains(p) by {
                    if p.0 == key && (exists|mm: int| 0 <= mm < m && p.1 == #[trigger] nodes.val_seq()[i as int].seq()[mm]) {
                        let mm = choose|mm: int| 0 <= mm < m && p.1 == #[trigger] nodes.val_seq()[i as int].seq()[mm];
                        assert(nodes.val_seq()[i as int]@.contains(p.1));
                    }
                }
                assert forall|p: (ChangeHash, ChangeHash)| b.contains(p) implies a.contains(p) by {
                    let j = choose|j: int| 0 <= j < i + 1 && p.0 == nodes.key_seq()[j] && #[trigger] nodes.val_seq()[j]@.contains(p.1);
                    if j == i {
                        let mm = choose|mm: int| 0 <= mm < m && deps.seq()[mm] == p.1;
                        assert(p.1 == nodes.val_seq()[i as int].seq()[mm]);
                    }
                }
            }
        }
    }
    proof {
        let e = edges_upto(*nodes, n as int, 0);
        assert(edge_map(nv, e) =~= dependants_of(nv)) by {
            assert forall|x: ChangeHash, h: ChangeHash| e.contains((h, x)) implies (nv.contains_key(h) && nv[h].contains(x)) by {
                let p = (h, x);
                let j = choose|j: int| 0 <= j < n && p.0 == nodes.key_seq()[j] && #[trigger] nodes.val_seq()[j]@.contains(p.1);
                nodes.lemma_position(j);
            }
            assert forall|x: ChangeHash, h: ChangeHash| (nv.contains_key(h) && nv[h].contains(x)) implies e.contains((h, x)) by {
                assert(nodes@.contains_key(h));
                assert(nodes.key_seq().contains(h));
                let j = choose|j: int| 0 <= j < n && nodes.key_seq()[j] == h;
                nodes.lemma_position(j);
                assert(nodes.val_seq()[j]@.contains(x));
                let p = (h, x);
                assert(p.0 == nodes.key_seq()[j] && nodes.val_seq()[j]@.contains(p.1));
            }
            assert forall|x: ChangeHash| edge_map(nv, e).contains_key(x) <==> dependants_of(nv).contains_key(x) by {
                if exists|h: ChangeHash| #[trigger] e.contains((h, x)) {
                    let h = choose|h: ChangeHash| #[trigger] e.contains((h, x));
                    assert(nv.contains_key(h) && nv[h].contains(x));
                }
                if exists|h: ChangeHash| #[trigger] nv.contains_key(h) && nv[h].contains(x) {
                    let h = choose|h: ChangeHash| #[trigger] nv.contains_key(h) && nv[h].contains(x);
                    assert(e.contains((h, x)));
                }
            }
            assert forall|x: ChangeHash| edge_map(nv, e).contains_key(x) implies edge_map(nv, e)[x] =~= dependants_of(nv)[x] by {
            }
        }
    }
    d
}

} // verus!

verus! {

/// `count_in` never exceeds the length of the counted sequence.
pub proof fn lemma_count_in_bound(s: Seq<ChangeHash>, m: Set<ChangeHash>)
    ensures
        count_in(s, m) <= s.len(),
    decreases s.len(),
{
    if s.len() > 0 {
        lemma_count_in_bound(s.drop_last(), m);
    }
}

/// Counts the members of the ascending set `deps` that are keys of `nodes`.
pub fn count_node_members(
    deps: &OrdSet<ChangeHash>,
    nodes: &OrdMap<ChangeHash, OrdSet<ChangeHash>>,
) -> (c: u64)
    requires
        deps.wf(),
        nodes.wf(),
    ensures
        c == count_in(deps.seq(), nodes@.dom()),
{
    let m = deps.len();
    let mut count: u64 = 0;
    for k in 0..m
        invariant
            m == deps.seq().len(),
            deps.wf(),
            nodes.wf(),
            count == count_in(deps.seq().take(k as int), nodes@.dom()),
    {
        let dep = deps.get(k);
        proof {
            let t = deps.seq().take(k + 1);
            assert(t.drop_last() =~= deps.seq().take(k as int));
            assert(t.last() == dep);
            lemma_count_in_bound(deps.seq().take(k as int), nodes@.dom());
        }
        if nodes.contains_key(&dep) {
            count = count + 1;
        }
    }
    assert(deps.seq().take(m as int) =~= deps.seq());
    count
}

fn build_indegrees(nodes: &OrdMap<ChangeHash, OrdSet<ChangeHash>>) -> (r: OrdMap<ChangeHash, u64>)
    requires
        sets_wf(*nodes),
    ensures
        r.wf(),
        r@.dom() == nodes@.dom(),
        forall|h: ChangeHash| #[trigger]
            r@.contains_key(h) ==> r@[h] == count_in(nodes@[h].seq(), nodes@.dom()),
{
    let mut indegrees: OrdMap<ChangeHash, u64> = OrdMap::new();
    let n = nodes.len();
    for i in 0..n
        invariant
            n == nodes.key_seq().len(),
            sets_wf(*nodes),
            indegrees.wf(),
            indegrees@.dom() == nodes.key_seq().take(i as int).to_set(),
            forall|h: ChangeHash| #[trigger]
                indegrees@.contains_key(h) ==> indegrees@[h] == count_in(nodes@[h].seq(), nodes@.dom()),
    {
        let key = nodes.key_at(i);
        let deps = nodes.value_at(i);
        proof {
            nodes.lemma_position(i as int);
        }
        let count = count_node_members(deps, nodes);
        indegrees.insert(key, count);
        proof {
            let t = nodes.key_seq().take(i + 1);
            assert(t =~= nodes.key_seq().take(i as int).push(key));
            nodes.key_seq().take(i as int).lemma_push_to_set_commute(key);
        }
    }
    proof {
        assert(nodes.key_seq().take(n as int) =~= nodes.key_seq());
        nodes.lemma_len();
    }
    indegrees
}

/// Builds the dependency graph of a batch of candidates.
///
/// Candidates are examined in input order; the first one that names a
/// dependency twice, depends on itself, overflows the edge count or repeats an
/// earlier change hash decides the error.
pub fn build_graph(candidates: Vec<ChangeCandidate>, accepted_base: OrdSet<ChangeHash>) -> (r: Result<
    DependencyGraph,
    GraphBuildError,
>)
    requires
        accepted_base.wf(),
    ensures
        r matches Err(e) ==> first_problem(candidates@, candidates@.len() as int) == Some(e),
        r is Ok <==> first_problem(candidates@, candidates@.len() as int) is None,
        r matches Ok(g) ==> describes(g, candidates@, accepted_base@),
{
    build_graph_within(candidates, accepted_base, None)
}

/// Builds the dependency graph of a batch of candidates, refusing it with
/// `Limit` once more than `node_limit` candidates or more than `edge_limit`
/// dependency edges have been read.
pub fn build_graph_with_limits(
    candidates: Vec<ChangeCandidate>,
    accepted_base: OrdSet<ChangeHash>,
    node_limit: u64,
    edge_limit: u64,
) -> (r: Result<DependencyGraph, GraphBuildError>)
    requires
        accepted_base.wf(),
    ensures
        r matches Err(e) ==> first_problem_limited(
            candidates@,
            candidates@.len() as int,
            Some((node_limit, edge_limit)),
        ) == Some(e),
        r is Ok <==> first_problem_limited(
            candidates@,
            candidates@.len() as int,
            Some((node_limit, edge_limit)),
        ) is None,
        r matches Ok(g) ==> describes(g, candidates@, accepted_base@),
{
    build_graph_within(candidates, accepted_base, Some((node_limit, edge_limit)))
}

fn build_graph_within(
    candidates: Vec<ChangeCandidate>,
    accepted_base: OrdSet<ChangeHash>,
    limits: Option<(u64, u64)>,
) -> (r: Result<DependencyGraph, GraphBuildError>)
    requires
        accepted_base.wf(),
    ensures
        r matches Err(e) ==> first_problem_limited(candidates@, candidates@.len() as int, limits) == Some(e),
        r is Ok <==> first_problem_limited(candidates@, candidates@.len() as int, limits) is None,
        r matches Ok(g) ==> describes(g, candidates@, accepted_base@),
{
    let (nodes, edge_count) = build_nodes(&candidates, limits)?;
    let dependants = build_dependants(&nodes);
    let indegrees = build_indegrees(&nodes);
    let g = DependencyGraph { nodes, dependants, indegrees, accepted_base, edge_count };
    proof {
        assert(g.indegrees@.dom() == g.node_sets().dom());
    }
    Ok(g)
}

} // verus!

verus! {

/// A graph build stopped by work accounting or by a graph problem.
#[derive(Clone, Copy, Debug, PartialEq, Eq, Structural)]
pub enum MeteredGraphBuildError {
    /// Work accounting stopped the build.
    Work(WorkStop),
    /// The candidates do not form a graph.
    Graph(GraphBuildError),
}

/// Charges one unit and lifts a stop into the graph-build error.
fn charge_graph(
    budget: &mut WorkBudget,
    cancellation: &impl CancellationCheck,
    counter: WorkCounter,
) -> (r: Result<(), MeteredGraphBuildError>)
    requires
        !is_byte_counter(counter),
    ensures
        budget_grew(*old(budget), *final(budget)),
        r matches Err(e) ==> e is Work,
        r == Err::<(), MeteredGraphBuildError>(MeteredGraphBuildError::Work(WorkStop::BudgetExhausted))
            ==> operations_exhausted(*final(budget)),
        r == Err::<(), MeteredGraphBuildError>(MeteredGraphBuildError::Work(WorkStop::Cancelled))
            ==> !cancellation.never_cancels(),
        final(budget).byte_limit() == old(budget).byte_limit(),
        final(budget).operation_limit() == old(budget).operation_limit(),
        r is Ok ==> old(budget).has_room(counter, 1) && final(budget).usage() == old(budget).charged(counter, 1),
        r is Err ==> final(budget).usage() == old(budget).usage(),
        r == Err::<(), MeteredGraphBuildError>(MeteredGraphBuildError::Work(WorkStop::BudgetExhausted))
            ==> !old(budget).has_room(counter, 1),
        r is Ok ==> final(budget).usage().operations() == old(budget).usage().operations() + 1,
{
    let ghost s0 = *budget;
    match charge_from(budget, cancellation, counter, Ghost(s0)) {
        Ok(()) => Ok(()),
        Err(stop) => Err(MeteredGraphBuildError::Work(stop)),
    }
}

fn build_nodes_metered(
    candidates: &Vec<ChangeCandidate>,
    budget: &mut WorkBudget,
    cancellation: &impl CancellationCheck,
) -> (r: Result<(OrdMap<ChangeHash, OrdSet<ChangeHash>>, u64), MeteredGraphBuildError>)
    ensures
        budget_grew(*old(budget), *final(budget)),
        r == Err::<(OrdMap<ChangeHash, OrdSet<ChangeHash>>, u64), MeteredGraphBuildError>(MeteredGraphBuildError::Work(WorkStop::BudgetExhausted))
            ==> operations_exhausted(*final(budget)),
        r == Err::<(OrdMap<ChangeHash, OrdSet<ChangeHash>>, u64), MeteredGraphBuildError>(MeteredGraphBuildError::Work(WorkStop::Cancelled))
            ==> !cancellation.never_cancels(),
        r matches Err(MeteredGraphBuildError::Graph(e)) ==> first_problem(candidates@, candidates@.len() as int) == Some(e),
        r is Ok ==> first_problem(candidates@, candidates@.len() as int) is None,
        r matches Ok((nodes, edges)) ==> {
            &&& sets_wf(nodes)
            &&& sets_view(nodes).dom() == hashes_of(candidates@, candidates@.len() as int)
            &&& forall|j: int|
                0 <= j < candidates@.len() ==> #[trigger] sets_view(nodes)[candidates@[j].change_hash]
                    == candidates@[j].dependencies@.to_set()
            &&& edges == edge_total(candidates@, candidates@.len() as int)
        },
        final(budget).usage().operations() <= old(budget).usage().operations() + candidates@.len() + edge_total(
            candidates@,
            candidates@.len() as int,
        ),
        cancellation.never_cancels() && affords(
            *old(budget),
            candidates@.len() + edge_total(candidates@, candidates@.len() as int),
        ) ==> !(r matches Err(MeteredGraphBuildError::Work(_))),
        cancellation.never_cancels() && operations_exhausted(*old(budget)) && candidates@.len() > 0 ==> r
            == Err::<(OrdMap<ChangeHash, OrdSet<ChangeHash>>, u64), MeteredGraphBuildError>(
            MeteredGraphBuildError::Work(WorkStop::BudgetExhausted),
        ),
{
    let ghost start = *old(budget);
    let mut nodes: OrdMap<ChangeHash, OrdSet<ChangeHash>> = OrdMap::new();
    let mut edges: u64 = 0;
    let n = candidates.len();
    proof {
        lemma_edge_total_monotone(candidates@, 0, n as int);
    }
    for i in 0..n
        invariant
            n == candidates@.len(),
            budget_grew(start, *budget),
            start == *old(budget),
            sets_wf(nodes),
            first_problem(candidates@, i as int) is None,
            sets_view(nodes).dom() == hashes_of(candidates@, i as int),
            forall|j: int|
                0 <= j < i ==> #[trigger] sets_view(nodes)[candidates@[j].change_hash]
                    == candidates@[j].dependencies@.to_set(),
            edges == edge_total(candidates@, i as int),
            budget.usage().operations() == start.usage().operations() + i + edge_total(candidates@, i as int),
            edge_total(candidates@, i as int) <= edge_total(candidates@, n as int),
            i > 0 ==> start.usage().operations() < start.operation_limit(),
    {
        proof {
            lemma_edge_total_monotone(candidates@, i + 1, n as int);
        }
        let ghost cs = candidates@;
        let ghost before_node = *budget;
        let charge_result = charge_graph(budget, cancellation, WorkCounter::GraphNode);
        proof { lemma_budget_grew_trans(start, before_node, *budget); }
        if let Err(e) = charge_result {
            return Err(e);
        }
        let candidate = &candidates[i];
        let mut dependencies: OrdSet<ChangeHash> = OrdSet::new();
        let m = candidate.dependencies.len();
        for k in 0..m
            invariant
                budget.usage().operations() == start.usage().operations() + i + edge_total(candidates@, i as int) + 1 + k,
                edge_total(candidates@, i + 1) <= edge_total(candidates@, n as int),
                edge_total(candidates@, i + 1) == edge_total(candidates@, i as int) + m,
                m == candidate.dependencies@.len(),
                n == candidates@.len(),
                0 <= i < n,
                cs == candidates@,
                *candidate == candidates@[i as int],
                first_problem(candidates@, i as int) is None,
                budget_grew(start, *budget),
                start == *old(budget),
                start.usage().operations() < start.operation_limit(),
                dependencies.wf(),
                dependencies@ == candidate.dependencies@.subrange(0, k as int).to_set(),
                candidate.dependencies@.subrange(0, k as int).no_duplicates(),
        {
            let ghost before_edge = *budget;
            let charge_result = charge_graph(budget, cancellation, WorkCounter::GraphEdge);
            proof { lemma_budget_grew_trans(start, before_edge, *budget); }
            if let Err(e) = charge_result {
                return Err(e);
            }
            let dependency = candidate.dependencies[k];
            let ghost prefix = candidate.dependencies@.subrange(0, k as int);
            let added = dependencies.insert(dependency);
            let ghost next = candidate.dependencies@.subrange(0, k + 1);
            proof {
                assert(next =~= prefix.push(dependency));
                prefix.lemma_push_to_set_commute(dependency);
            }
            if !added {
                proof {
                    let w = choose|w: int| 0 <= w < prefix.len() && prefix[w] == dependency;
                    assert(candidate.dependencies@[w] == candidate.dependencies@[k as int]);
                    assert(!cs[i as int].dependencies@.no_duplicates());
                    lemma_problem_prefix_stops(cs, i as int + 1, n as int, None);
                }
                return Err(MeteredGraphBuildError::Graph(GraphBuildError::DuplicateDependency));
            }
            proof {
                assert forall|a: int, b: int| 0 <= a < next.len() && 0 <= b < next.len() && a != b implies next[a]
                    != next[b] by {
                    if a == k {
                        assert(prefix.contains(next[b]) || b == k);
                    } else if b == k {
                        assert(prefix.contains(next[a]));
                    }
                }
            }
        }
        proof {
            assert(candidate.dependencies@.subrange(0, m as int) =~= candidate.dependencies@);
        }
        if dependencies.contains(&candidate.change_hash) {
            proof {
                lemma_problem_prefix_stops(cs, i as int + 1, n as int, None);
            }
            return Err(MeteredGraphBuildError::Graph(GraphBuildError::SelfDependency));
        }
        let ghost dep_set = dependencies;
        let count = candidate.dependencies.len() as u64;
        if count > u64::MAX - edges {
            proof {
                assert(edge_total(cs, i + 1) == edge_total(cs, i as int) + cs[i as int].dependencies@.len());
                lemma_problem_prefix_stops(cs, i as int + 1, n as int, None);
            }
            return Err(MeteredGraphBuildError::Graph(GraphBuildError::Limit));
        }
        let ghost old_nodes = nodes;
        let inserted = nodes.insert(candidate.change_hash, dependencies);
        proof {
            assert(edge_total(cs, i + 1) == edge_total(cs, i as int) + cs[i as int].dependencies@.len());
        }
        if !inserted {
            proof {
                assert(hashes_of(cs, i as int).contains(cs[i as int].change_hash));
                lemma_problem_prefix_stops(cs, i as int + 1, n as int, None);
            }
            return Err(MeteredGraphBuildError::Graph(GraphBuildError::DuplicateNode));
        }
        edges = edges + count;
        proof {
            assert(!hashes_of(cs, i as int).contains(cs[i as int].change_hash));
            assert(candidate_problem(cs, i as int) is None);
            assert(sets_wf(nodes)) by {
                assert forall|k: ChangeHash| #[trigger] nodes@.contains_key(k) implies nodes@[k].wf() by {
                    if k != cs[i as int].change_hash {
                        assert(old_nodes@.contains_key(k));
                    }
                }
            }
            assert(sets_view(nodes).dom() =~= hashes_of(cs, i + 1)) by {
                assert forall|h: ChangeHash| hashes_of(cs, i + 1).contains(h) implies sets_view(nodes).dom().contains(h) by {
                    let j = choose|j: int| 0 <= j < i + 1 && #[trigger] cs[j].change_hash == h;
                    if j < i {
                        assert(hashes_of(cs, i as int).contains(h));
                    }
                }
                assert forall|h: ChangeHash| sets_view(nodes).dom().contains(h) implies hashes_of(cs, i + 1).contains(h) by {
                    if h != cs[i as int].change_hash {
                        assert(hashes_of(cs, i as int).contains(h));
                        let j = choose|j: int| 0 <= j < i && #[trigger] cs[j].change_hash == h;
                        assert(cs[j].change_hash == h);
                    } else {
                        assert(cs[i as int].change_hash == h);
                    }
                }
            }
            assert forall|j: int| 0 <= j < i + 1 implies #[trigger] sets_view(nodes)[cs[j].change_hash]
                == cs[j].dependencies@.to_set() by {
                if j < i {
                    assert(hashes_of(cs, i as int).contains(cs[j].change_hash));
                    assert(cs[j].change_hash != cs[i as int].change_hash);
                    assert(sets_view(old_nodes)[cs[j].change_hash] == cs[j].dependencies@.to_set());
                    assert(nodes@[cs[j].change_hash] == old_nodes@[cs[j].change_hash]);
                } else {
                    assert(nodes@[cs[j].change_hash] == dep_set);
                }
            }
        }
    }
    Ok((nodes, edges))
}

/// The units building the graph of `n` candidates naming `e` dependencies in
/// all, none naming more than `d`, over `b` accepted changes, charges at most.
pub open spec fn graph_cost(n: int, e: int, d: int, b: int) -> int {
    n + e + n * (1 + d) + b
}

/// The hashes of the candidates are no more numerous than the candidates.
pub proof fn lemma_hashes_of_len(cs: Seq<ChangeCandidate>)
    ensures
        hashes_of(cs, cs.len() as int).len() <= cs.len(),
        hashes_of(cs, cs.len() as int).finite(),
{
    let hs = cs.map_values(|c: ChangeCandidate| c.change_hash);
    assert forall|h: ChangeHash| hashes_of(cs, cs.len() as int).contains(h) <==> hs.to_set().contains(h) by {
        if hashes_of(cs, cs.len() as int).contains(h) {
            let i = choose|i: int| 0 <= i < cs.len() && #[trigger] cs[i].change_hash == h;
            assert(hs[i] == h);
        }
        if hs.to_set().contains(h) {
            let i = choose|i: int| 0 <= i < hs.len() && hs[i] == h;
            assert(cs[i].change_hash == h);
        }
    }
    assert(hashes_of(cs, cs.len() as int) =~= hs.to_set());
    hs.lemma_cardinality_of_set();
    vstd::seq_lib::seq_to_set_is_finite(hs);
}

/// Builds the dependency graph, charging one node unit per candidate and per
/// node and base member, and one edge unit per dependency, before each step.
pub fn build_graph_metered(
    candidates: &Vec<ChangeCandidate>,
    accepted_base: &OrdSet<ChangeHash>,
    budget: &mut WorkBudget,
    cancellation: &impl CancellationCheck,
) -> (r: Result<DependencyGraph, MeteredGraphBuildError>)
    requires
        accepted_base.wf(),
    ensures
        budget_grew(*old(budget), *final(budget)),
        r == Err::<DependencyGraph, MeteredGraphBuildError>(MeteredGraphBuildError::Work(WorkStop::BudgetExhausted))
            ==> operations_exhausted(*final(budget)),
        r == Err::<DependencyGraph, MeteredGraphBuildError>(MeteredGraphBuildError::Work(WorkStop::Cancelled))
            ==> !cancellation.never_cancels(),
        r matches Err(MeteredGraphBuildError::Graph(e)) ==> first_problem(candidates@, candidates@.len() as int) == Some(e),
        r is Ok ==> first_problem(candidates@, candidates@.len() as int) is None,
        r matches Ok(g) ==> describes(g, candidates@, accepted_base@),
        final(budget).usage().operations() <= old(budget).usage().operations() + graph_cost(
            candidates@.len() as int,
            edge_total(candidates@, candidates@.len() as int),
            max_deps(candidates@) as int,
            accepted_base@.len() as int,
        ),
        cancellation.never_cancels() && affords(
            *old(budget),
            graph_cost(
                candidates@.len() as int,
                edge_total(candidates@, candidates@.len() as int),
                max_deps(candidates@) as int,
                accepted_base@.len() as int,
            ),
        ) ==> !(r matches Err(MeteredGraphBuildError::Work(_))),
        cancellation.never_cancels() && operations_exhausted(*old(budget)) && candidates@.len() > 0 ==> r
            == Err::<DependencyGraph, MeteredGraphBuildError>(MeteredGraphBuildError::Work(WorkStop::BudgetExhausted)),
{
    let ghost start = *old(budget);
    let ghost cs = candidates@;
    let ghost nc = cs.len() as int;
    let ghost dmax = max_deps(cs) as int;
    let ghost per: int = 1 + dmax;
    let ghost cost = graph_cost(nc, edge_total(cs, nc), dmax, accepted_base@.len() as int);
    let built = build_nodes_metered(candidates, budget, cancellation);
    let (nodes, edge_count) = match built {
        Ok(found) => found,
        Err(e) => {
            return Err(e);
        },
    };
    let ghost after_nodes = *budget;
    proof {
        if nc > 0 {
            assert(!(cancellation.never_cancels() && operations_exhausted(start)));
        }
    }
    let n = nodes.len();
    proof {
        lemma_hashes_of_len(cs);
        assert(sets_view(nodes).dom() =~= nodes@.dom());
        assert(n * per <= nc * per) by (nonlinear_arith)
            requires
                n <= nc,
                per >= 1,
        ;
        assert(after_nodes.usage().operations() + n * per + accepted_base@.len() <= start.usage().operations()
            + cost);
    }
    for i in 0..n
        invariant
            n == nodes.key_seq().len(),
            sets_wf(nodes),
            budget_grew(after_nodes, *budget),
            budget_grew(start, after_nodes),
            start == *old(budget),
            cs == candidates@,
            nc == cs.len(),
            dmax == max_deps(cs),
            per == 1 + dmax,
            cost == graph_cost(nc, edge_total(cs, nc), dmax, accepted_base@.len() as int),
            sets_view(nodes).dom() == hashes_of(cs, nc),
            forall|j: int|
                0 <= j < nc ==> #[trigger] sets_view(nodes)[cs[j].change_hash] == cs[j].dependencies@.to_set(),
            after_nodes.usage().operations() + n * per + accepted_base@.len() <= start.usage().operations() + cost,
            budget.usage().operations() <= after_nodes.usage().operations() + i * per,
    {
        proof {
            assert((i + 1) * per == i * per + per) by (nonlinear_arith);
            assert((i + 1) * per <= n * per) by (nonlinear_arith)
                requires
                    i + 1 <= n,
                    per >= 0,
            ;
        }
        let ghost b0 = *budget;
        let charge_result = charge_graph(budget, cancellation, WorkCounter::GraphNode);
        proof { lemma_budget_grew_trans(after_nodes, b0, *budget); }
        if let Err(e) = charge_result {
            return Err(e);
        }
        let deps = nodes.value_at(i);
        proof {
            nodes.lemma_position(i as int);
            let key = nodes.key_seq()[i as int];
            assert(sets_view(nodes).dom().contains(key));
            let jj = choose|jj: int| 0 <= jj < nc && #[trigger] cs[jj].change_hash == key;
            assert(sets_view(nodes)[cs[jj].change_hash] == cs[jj].dependencies@.to_set());
            assert(nodes@[key] == *deps);
            assert(sets_view(nodes)[key] == deps@);
            assert(deps@ == cs[jj].dependencies@.to_set());
            cs[jj].dependencies@.lemma_cardinality_of_set();
            crate::graph::schedule::lemma_max_deps(cs, jj);
        }
        let m = deps.len();
        for k in 0..m
            invariant
                cs == candidates@,
                nc == cs.len(),
                dmax == max_deps(cs),
                cost == graph_cost(nc, edge_total(cs, nc), dmax, accepted_base@.len() as int),
                m <= dmax,
                per == 1 + dmax,
                (i + 1) * per == i * per + per,
                (i + 1) * per <= n * per,
                after_nodes.usage().operations() + n * per + accepted_base@.len() <= start.usage().operations() + cost,
                budget.usage().operations() <= after_nodes.usage().operations() + i * per + 1 + k,
                budget_grew(after_nodes, *budget),
                budget_grew(start, after_nodes),
                start == *old(budget),
            budget_grew(start, after_nodes),
            start == *old(budget),
        {
            let ghost b1 = *budget;
            let charge_result = charge_graph(budget, cancellation, WorkCounter::GraphEdge);
            proof { lemma_budget_grew_trans(after_nodes, b1, *budget); }
            if let Err(e) = charge_result {
                return Err(e);
            }
        }
    }
    let dependants = build_dependants(&nodes);
    let indegrees = build_indegrees(&nodes);
    let b = accepted_base.len();
    for i in 0..b
        invariant
            b == accepted_base@.len(),
            cs == candidates@,
            nc == cs.len(),
            dmax == max_deps(cs),
            cost == graph_cost(nc, edge_total(cs, nc), dmax, accepted_base@.len() as int),
            after_nodes.usage().operations() + n * per + accepted_base@.len() <= start.usage().operations() + cost,
            budget.usage().operations() <= after_nodes.usage().operations() + n * per + i,
            budget_grew(after_nodes, *budget),
            budget_grew(start, after_nodes),
            start == *old(budget),
    {
        let ghost b2 = *budget;
        let charge_result = charge_graph(budget, cancellation, WorkCounter::GraphNode);
        proof { lemma_budget_grew_trans(after_nodes, b2, *budget); }
        if let Err(e) = charge_result {
            return Err(e);
        }
    }
    let base = accepted_base.duplicate();
    proof { lemma_budget_grew_trans(start, after_nodes, *budget); }
    let g = DependencyGraph { nodes, dependants, indegrees, accepted_base: base, edge_count };
    proof {
        assert(g.indegrees@.dom() == g.node_sets().dom());
    }
    Ok(g)
}

} // verus!
