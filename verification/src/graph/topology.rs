//! Whole-graph topology validation: every dependency is present, and the
//! graph orders without cycles.

use vstd::prelude::*;
use crate::graph::actor_state::{children_of_node, closed_done, counts_open, finite_deps};
use crate::graph::dependency_graph::DependencyGraph;
use crate::graph::order::{dependant_sets, greedy_order, greedy_prefix, is_least, is_ready, ready_set};
use crate::ordered::{OrdMap, OrdSet, insert_into_set_entry, sets_view, sets_wf, strictly_sorted};
use crate::types::{ChangeHash, OrderedKey};

verus! {

/// A dependency order of every node of a graph.
#[derive(Debug)]
pub struct Topology {
    /// The nodes, least-first in dependency order.
    pub order: Vec<ChangeHash>,
}

/// Why a graph has no complete dependency order.
#[derive(Clone, Debug, PartialEq, Eq)]
pub enum TopologyError {
    /// Dependencies that are neither nodes nor accepted, ascending.
    PendingMissing(Vec<ChangeHash>),
    /// Nodes that can never be ordered, ascending.
    Cycle(Vec<ChangeHash>),
}

/// Dependencies named by nodes that are neither nodes nor accepted.
pub open spec fn missing_dependencies(g: DependencyGraph) -> Set<ChangeHash> {
    Set::new(
        |x: ChangeHash|
            !g.node_sets().contains_key(x) && !g.accepted_base@.contains(x) && exists|h: ChangeHash| #[trigger]
                g.node_sets().contains_key(h) && g.node_sets()[h].contains(x),
    )
}

/// Each node's dependencies among the nodes.
pub open spec fn node_deps(g: DependencyGraph) -> Map<ChangeHash, Set<ChangeHash>> {
    Map::new(
        |h: ChangeHash| g.node_sets().contains_key(h),
        |h: ChangeHash| g.node_sets()[h].intersect(g.node_sets().dom()),
    )
}

fn release_unmetered(
    hash: ChangeHash,
    dependants: &OrdMap<ChangeHash, OrdSet<ChangeHash>>,
    remaining: &mut OrdMap<ChangeHash, usize>,
    ready: &mut OrdSet<ChangeHash>,
    Ghost(d): Ghost<Map<ChangeHash, Set<ChangeHash>>>,
    Ghost(done): Ghost<Set<ChangeHash>>,
)
    requires
        sets_wf(*dependants),
        sets_view(*dependants) == dependant_sets(d),
        finite_deps(d),
        is_ready(d, done, hash),
        closed_done(d, done),
        old(ready).wf(),
        old(ready)@ == ready_set(d, done).remove(hash),
        old(remaining).wf(),
        counts_open(d, done, old(remaining)@),
    ensures
        final(ready).wf(),
        final(ready)@ == ready_set(d, done.insert(hash)),
        final(remaining).wf(),
        counts_open(d, done.insert(hash), final(remaining)@),
{
    let ghost done2 = done.insert(hash);
    let ghost ready0 = ready@;
    let ghost kids = children_of_node(d, hash);
    match dependants.get(&hash) {
        None => {
            proof {
                assert(kids =~= Set::<ChangeHash>::empty()) by {
                    assert forall|c: ChangeHash| !kids.contains(c) by {
                        if kids.contains(c) {
                            assert(dependant_sets(d).contains_key(hash));
                        }
                    }
                }
                assert forall|c: ChangeHash| #[trigger] ready_set(d, done2).contains(c) <==> ready0.contains(c) by {
                    assert(!kids.contains(c));
                    if c != hash {
                        crate::graph::order::lemma_ready_step(d, done, hash, c);
                    }
                }
                assert(ready@ =~= ready_set(d, done2));
                assert forall|c: ChangeHash| #[trigger] remaining@.contains_key(c) && !done2.contains(c)
                    implies remaining@[c] == d[c].difference(done2).len() by {
                    assert(!kids.contains(c));
                    assert(d.contains_key(c));
                    crate::graph::order::lemma_open_step(d[c], done, hash);
                }
            }
        },
        Some(children) => {
            proof {
                assert(children.wf());
                assert(sets_view(*dependants)[hash] == children@);
                assert(dependant_sets(d).contains_key(hash));
                assert(dependant_sets(d)[hash] =~= kids);
                assert(children@ =~= kids);
            }
            let child_count = children.len();
            proof {
                crate::ordered::lemma_sorted_no_duplicates(children.seq());
                assert(children.seq().take(0).to_set() =~= Set::<ChangeHash>::empty());
                assert(ready@ =~= Set::new(|c: ChangeHash| (ready_set(d, done).contains(c) && c != hash)
                    || (children.seq().take(0).to_set().contains(c) && is_ready(d, done2, c))));
            }
            for k in 0..child_count
                invariant
                    children.wf(),
                    children@ == kids,
                    child_count == children.seq().len(),
                    children.seq().no_duplicates(),
                    kids == children_of_node(d, hash),
                    done2 == done.insert(hash),
                    finite_deps(d),
                    is_ready(d, done, hash),
                    closed_done(d, done),
                    remaining.wf(),
                    remaining@.dom() == d.dom(),
                    forall|c: ChangeHash| #[trigger] remaining@.contains_key(c) && !done2.contains(c)
                        ==> remaining@[c] == (if children.seq().take(k as int).to_set().contains(c) {
                            d[c].difference(done2).len()
                        } else {
                            d[c].difference(done).len()
                        }),
                    ready.wf(),
                    ready@ == Set::new(|c: ChangeHash| (ready_set(d, done).contains(c) && c != hash)
                        || (children.seq().take(k as int).to_set().contains(c) && is_ready(d, done2, c))),
            {
                let ghost taken = children.seq().take(k as int).to_set();
                let child = children.get(k);
                proof {
                    assert(children.seq().contains(child));
                    assert(kids.contains(child));
                    assert(!done.contains(child)) by {
                        if done.contains(child) {
                            assert(d[child].contains(hash));
                        }
                    }
                    assert(child != hash);
                    assert(!taken.contains(child)) by {
                        if taken.contains(child) {
                            let j = choose|j: int| 0 <= j < k && children.seq().take(k as int)[j] == child;
                            assert(children.seq()[j] == children.seq()[k as int]);
                        }
                    }
                    assert(children.seq().take(k + 1) =~= children.seq().take(k as int).push(child));
                    children.seq().take(k as int).lemma_push_to_set_commute(child);
                    assert(d[child].difference(done).contains(hash));
                    vstd::set::axiom_set_remove_len(d[child].difference(done), hash);
                    crate::graph::order::lemma_open_step(d[child], done, hash);
                    crate::graph::order::lemma_open_empty(d[child], done2);
                }
                let pos = match remaining.index_of(&child) {
                    Some(p) => p,
                    None => {
                        return;
                    },
                };
                let current = *remaining.value_at(pos);
                let updated = current - 1;
                let ghost old_remaining = *remaining;
                remaining.set_value_at(pos, updated);
                proof {
                    old_remaining.lemma_position(pos as int);
                }
                let ghost old_ready = ready@;
                if updated == 0 {
                    ready.insert(child);
                }
                proof {
                    let t2 = children.seq().take(k + 1).to_set();
                    assert(ready@ =~= Set::new(|c: ChangeHash| (ready_set(d, done).contains(c) && c != hash)
                        || (t2.contains(c) && is_ready(d, done2, c))));
                    assert forall|c: ChangeHash| #[trigger] remaining@.contains_key(c) && !done2.contains(c)
                        implies remaining@[c] == (if t2.contains(c) {
                            d[c].difference(done2).len()
                        } else {
                            d[c].difference(done).len()
                        }) by {
                        if c != child {
                            assert(old_remaining@.contains_key(c));
                        }
                    }
                }
            }
            proof {
                assert(children.seq().take(child_count as int) =~= children.seq());
                let t = children.seq().to_set();
                assert(t =~= kids);
                assert forall|c: ChangeHash| #[trigger] ready_set(d, done2).contains(c) <==> ready@.contains(c) by {
                    if !kids.contains(c) && c != hash {
                        crate::graph::order::lemma_ready_step(d, done, hash, c);
                    }
                }
                assert(ready@ =~= ready_set(d, done2));
                assert forall|c: ChangeHash| #[trigger] remaining@.contains_key(c) && !done2.contains(c)
                    implies remaining@[c] == d[c].difference(done2).len() by {
                    if !kids.contains(c) {
                        crate::graph::order::lemma_open_step(d[c], done, hash);
                    }
                }
            }
        },
    }
}

} // verus!

verus! {

fn collect_missing_dependencies(graph: &DependencyGraph) -> (missing: OrdSet<ChangeHash>)
    requires
        graph.wf(),
    ensures
        missing.wf(),
        missing@ == missing_dependencies(*graph),
{
    let ghost ns = graph.node_sets();
    let mut missing: OrdSet<ChangeHash> = OrdSet::new();
    let n = graph.nodes.len();
    for i in 0..n
        invariant
            graph.wf(),
            ns == graph.node_sets(),
            n == graph.nodes.key_seq().len(),
            missing.wf(),
            missing@ == Set::new(|x: ChangeHash| !ns.contains_key(x) && !graph.accepted_base@.contains(x)
                && exists|j: int| 0 <= j < i && #[trigger] graph.nodes.val_seq()[j]@.contains(x)),
    {
        let dependencies = graph.nodes.value_at(i);
        proof {
            graph.nodes.lemma_position(i as int);
            assert(dependencies.wf());
        }
        let m = dependencies.len();
        let ghost before = missing@;
        for k in 0..m
            invariant
                graph.wf(),
                ns == graph.node_sets(),
                0 <= i < n,
                n == graph.nodes.key_seq().len(),
                *dependencies == graph.nodes.val_seq()[i as int],
                dependencies.wf(),
                m == dependencies.seq().len(),
                missing.wf(),
                missing@ == before.union(Set::new(|x: ChangeHash| !ns.contains_key(x)
                    && !graph.accepted_base@.contains(x) && dependencies.seq().take(k as int).contains(x))),
        {
            let dependency = dependencies.get(k);
            if !graph.nodes.contains_key(&dependency) && !graph.accepted_base.contains(&dependency) {
                missing.insert(dependency);
            }
            proof {
                let s0 = dependencies.seq().take(k as int);
                let s1 = dependencies.seq().take(k + 1);
                assert forall|x: ChangeHash| s1.contains(x) <==> (s0.contains(x) || x == dependency) by {
                    if s1.contains(x) {
                        let idx = choose|idx: int| 0 <= idx < s1.len() && s1[idx] == x;
                        if idx < k {
                            assert(s0[idx] == x);
                        }
                    }
                    if s0.contains(x) {
                        let idx = choose|idx: int| 0 <= idx < s0.len() && s0[idx] == x;
                        assert(s1[idx] == x);
                    }
                    if x == dependency {
                        assert(s1[k as int] == x);
                    }
                }
                assert(missing@ =~= before.union(Set::new(|x: ChangeHash| !ns.contains_key(x)
                    && !graph.accepted_base@.contains(x) && s1.contains(x))));
            }
        }
        proof {
            assert(dependencies.seq().take(m as int) =~= dependencies.seq());
            assert forall|x: ChangeHash| #[trigger] missing@.contains(x) <==> (!ns.contains_key(x)
                && !graph.accepted_base@.contains(x) && exists|j: int| 0 <= j < i + 1
                && #[trigger] graph.nodes.val_seq()[j]@.contains(x)) by {
                if exists|j: int| 0 <= j < i + 1 && #[trigger] graph.nodes.val_seq()[j]@.contains(x) {
                    let j = choose|j: int| 0 <= j < i + 1 && #[trigger] graph.nodes.val_seq()[j]@.contains(x);
                    if j == i {
                        assert(dependencies.seq().contains(x));
                    }
                }
                if dependencies.seq().contains(x) {
                    assert(graph.nodes.val_seq()[i as int]@.contains(x));
                }
            }
            assert(missing@ =~= Set::new(|x: ChangeHash| !ns.contains_key(x) && !graph.accepted_base@.contains(x)
                && exists|j: int| 0 <= j < i + 1 && #[trigger] graph.nodes.val_seq()[j]@.contains(x)));
        }
    }
    proof {
        assert forall|x: ChangeHash| #[trigger] missing@.contains(x) <==> missing_dependencies(*graph).contains(x) by {
            if missing@.contains(x) {
                let j = choose|j: int| 0 <= j < n && #[trigger] graph.nodes.val_seq()[j]@.contains(x);
                graph.nodes.lemma_position(j);
                assert(ns.contains_key(graph.nodes.key_seq()[j]) && ns[graph.nodes.key_seq()[j]].contains(x));
            }
            if missing_dependencies(*graph).contains(x) {
                let h = choose|h: ChangeHash| #[trigger] ns.contains_key(h) && ns[h].contains(x);
                assert(graph.nodes@.contains_key(h));
                let j = choose|j: int| 0 <= j < n && graph.nodes.key_seq()[j] == h;
                graph.nodes.lemma_position(j);
                assert(graph.nodes.val_seq()[j]@.contains(x));
            }
        }
        assert(missing@ =~= missing_dependencies(*graph));
    }
    missing
}

} // verus!

verus! {

fn index_nodes(graph: &DependencyGraph) -> (r: (OrdMap<ChangeHash, usize>, OrdMap<ChangeHash, OrdSet<ChangeHash>>))
    requires
        graph.wf(),
    ensures
        r.0.wf(),
        r.0@.dom() == node_deps(*graph).dom(),
        forall|h: ChangeHash| #[trigger] r.0@.contains_key(h) ==> r.0@[h] == node_deps(*graph)[h].len(),
        sets_wf(r.1),
        sets_view(r.1) == dependant_sets(node_deps(*graph)),
{
    let ghost ns = graph.node_sets();
    let ghost nd = node_deps(*graph);
    let ghost ks = graph.nodes.key_seq();
    let mut indegree: OrdMap<ChangeHash, usize> = OrdMap::new();
    let mut dependants: OrdMap<ChangeHash, OrdSet<ChangeHash>> = OrdMap::new();
    let ghost mut dm: Map<ChangeHash, Set<ChangeHash>> = Map::new(
        |h: ChangeHash| ns.contains_key(h),
        |h: ChangeHash| Set::<ChangeHash>::empty(),
    );
    proof {
        assert(dependant_sets(dm) =~= Map::<ChangeHash, Set<ChangeHash>>::empty());
        assert(sets_view(dependants) =~= dependant_sets(dm));
        crate::ordered::lemma_sorted_no_duplicates(ks);
        graph.nodes.lemma_len();
    }
    let n = graph.nodes.len();
    for i in 0..n
        invariant
            graph.wf(),
            ns == graph.node_sets(),
            nd == node_deps(*graph),
            ks == graph.nodes.key_seq(),
            ks.no_duplicates(),
            ns.dom() == ks.to_set(),
            n == ks.len(),
            indegree.wf(),
            indegree@.dom() == ks.take(i as int).to_set(),
            forall|h: ChangeHash| #[trigger] indegree@.contains_key(h) ==> indegree@[h] == nd[h].len(),
            dm.dom() == ns.dom(),
            forall|j: int| 0 <= j < n ==> #[trigger] dm[ks[j]] == (if j < i {
                nd[ks[j]]
            } else {
                Set::<ChangeHash>::empty()
            }),
            sets_wf(dependants),
            sets_view(dependants) == dependant_sets(dm),
    {
        let hash = graph.nodes.key_at(i);
        let dependencies = graph.nodes.value_at(i);
        proof {
            graph.nodes.lemma_position(i as int);
            assert(dependencies.wf());
            assert(ns[hash] == dependencies@);
            crate::ordered::lemma_sorted_no_duplicates(dependencies.seq());
            assert(dependencies.seq().take(0).to_set().intersect(ns.dom()) =~= Set::<ChangeHash>::empty());
        }
        let m = dependencies.len();
        let mut count: usize = 0;
        for k in 0..m
            invariant
                graph.wf(),
                ns == graph.node_sets(),
                nd == node_deps(*graph),
                ks == graph.nodes.key_seq(),
                ks.no_duplicates(),
                n == ks.len(),
                0 <= i < n,
                hash == ks[i as int],
                dependencies.wf(),
                dependencies.seq().no_duplicates(),
                ns[hash] == dependencies@,
                m == dependencies.seq().len(),
                count == dependencies.seq().take(k as int).to_set().intersect(ns.dom()).len(),
                count <= k,
                dm.dom() == ns.dom(),
                dm[hash] == dependencies.seq().take(k as int).to_set().intersect(ns.dom()),
                forall|j: int| 0 <= j < n && j != i ==> #[trigger] dm[ks[j]] == (if j < i {
                    nd[ks[j]]
                } else {
                    Set::<ChangeHash>::empty()
                }),
                sets_wf(dependants),
                sets_view(dependants) == dependant_sets(dm),
        {
            let dependency = dependencies.get(k);
            let ghost s0 = dependencies.seq().take(k as int);
            let ghost before_dm = dm;
            proof {
                assert(dependencies.seq().take(k + 1) =~= s0.push(dependency));
                s0.lemma_push_to_set_commute(dependency);
                assert(!s0.contains(dependency)) by {
                    if s0.contains(dependency) {
                        let idx = choose|idx: int| 0 <= idx < s0.len() && s0[idx] == dependency;
                        assert(dependencies.seq()[idx] == dependencies.seq()[k as int]);
                    }
                }
                vstd::seq_lib::seq_to_set_is_finite(s0);
                vstd::set_lib::lemma_len_subset(s0.to_set().intersect(ns.dom()), s0.to_set());
                s0.unique_seq_to_set();
            }
            if graph.nodes.contains_key(&dependency) {
                count = count + 1;
                insert_into_set_entry(&mut dependants, dependency, hash);
                proof {
                    assert(s0.push(dependency).to_set().intersect(ns.dom()) =~= s0.to_set().intersect(ns.dom()).insert(dependency));
                    vstd::set::axiom_set_insert_len(s0.to_set().intersect(ns.dom()), dependency);
                    crate::graph::order::lemma_dependant_sets_add(before_dm, hash, dependency);
                    dm = before_dm.insert(hash, before_dm[hash].insert(dependency));
                    assert(dm[hash] =~= dependencies.seq().take(k + 1).to_set().intersect(ns.dom()));
                    assert forall|j: int| 0 <= j < n && j != i implies #[trigger] dm[ks[j]] == before_dm[ks[j]] by {
                        assert(ks[j] != ks[i as int]);
                    }
                }
            } else {
                proof {
                    assert(s0.push(dependency).to_set().intersect(ns.dom()) =~= s0.to_set().intersect(ns.dom()));
                }
            }
        }
        proof {
            assert(dependencies.seq().take(m as int) =~= dependencies.seq());
            assert(nd[hash] =~= dependencies@.intersect(ns.dom()));
            assert(ks.take(i + 1) =~= ks.take(i as int).push(hash));
            ks.take(i as int).lemma_push_to_set_commute(hash);
        }
        let ghost old_indegree = indegree@;
        indegree.insert(hash, count);
        proof {
            assert forall|h: ChangeHash| #[trigger] indegree@.contains_key(h) implies indegree@[h] == nd[h].len() by {
                if h != hash {
                    assert(old_indegree.contains_key(h));
                }
            }
        }
    }
    proof {
        assert(ks.take(n as int) =~= ks);
        assert(dm =~= nd) by {
            assert forall|h: ChangeHash| dm.contains_key(h) implies dm[h] == nd[h] by {
                assert(ks.to_set().contains(h));
                let j = choose|j: int| 0 <= j < n && ks[j] == h;
                assert(dm[ks[j]] == nd[ks[j]]);
            }
        }
        assert(indegree@.dom() =~= nd.dom());
    }
    (indegree, dependants)
}

} // verus!

verus! {

/// Checks that every dependency of `graph` is a node or accepted, and orders
/// the nodes least-first by dependencies.
///
/// Missing dependencies are reported first, ascending. Otherwise, when some
/// nodes can never be ordered, those nodes are reported, ascending.
pub fn validate_topology(graph: &DependencyGraph) -> (r: Result<Topology, TopologyError>)
    requires
        graph.wf(),
    ensures
        r matches Err(TopologyError::PendingMissing(v)) ==> {
            &&& v@.len() > 0
            &&& strictly_sorted(v@)
            &&& v@.to_set() == missing_dependencies(*graph)
        },
        !(r is Err && r->Err_0 is PendingMissing) ==> missing_dependencies(*graph) == Set::<ChangeHash>::empty(),
        r matches Ok(t) ==> {
            &&& greedy_order(node_deps(*graph), t.order@)
            &&& t.order@.to_set() == graph.node_sets().dom()
        },
        r matches Err(TopologyError::Cycle(v)) ==> exists|o: Seq<ChangeHash>| #[trigger]
            greedy_order(node_deps(*graph), o) && {
                &&& v@.len() > 0
                &&& strictly_sorted(v@)
                &&& v@.to_set() == graph.node_sets().dom().difference(o.to_set())
            },
{
    let missing = collect_missing_dependencies(graph);
    if !missing.is_empty() {
        proof {
            crate::ordered::lemma_sorted_no_duplicates(missing.seq());
        }
        return Err(TopologyError::PendingMissing(missing.to_vec()));
    }
    proof {
        missing@.lemma_len0_is_empty();
    }
    let ghost d = node_deps(*graph);
    let (mut remaining, dependants) = index_nodes(graph);
    let mut ready: OrdSet<ChangeHash> = OrdSet::new();
    let n = remaining.len();
    proof {
        assert forall|c: ChangeHash| #[trigger] d.contains_key(c) implies d[c].finite() by {
            assert(graph.node_sets().dom() =~= graph.nodes@.dom());
            graph.nodes.lemma_len();
            vstd::seq_lib::seq_to_set_is_finite(graph.nodes.key_seq());
            assert(d[c].subset_of(graph.node_sets().dom()));
            vstd::set_lib::lemma_len_subset(d[c], graph.node_sets().dom());
        }
    }
    for i in 0..n
        invariant
            n == remaining.key_seq().len(),
            remaining.wf(),
            remaining@.dom() == d.dom(),
            forall|h: ChangeHash| #[trigger] remaining@.contains_key(h) ==> remaining@[h] == d[h].len(),
            finite_deps(d),
            ready.wf(),
            ready@ == Set::new(|c: ChangeHash| remaining.key_seq().take(i as int).contains(c)
                && is_ready(d, Set::<ChangeHash>::empty(), c)),
    {
        let hash = remaining.key_at(i);
        let count = *remaining.value_at(i);
        proof {
            remaining.lemma_position(i as int);
            crate::graph::order::lemma_open_empty(d[hash], Set::<ChangeHash>::empty());
            assert(d[hash].difference(Set::<ChangeHash>::empty()) =~= d[hash]);
        }
        if count == 0 {
            ready.insert(hash);
        }
        proof {
            let s0 = remaining.key_seq().take(i as int);
            let s1 = remaining.key_seq().take(i + 1);
            assert forall|c: ChangeHash| #[trigger] ready@.contains(c) <==> (s1.contains(c) && is_ready(
                d,
                Set::<ChangeHash>::empty(),
                c,
            )) by {
                if s1.contains(c) {
                    let idx = choose|idx: int| 0 <= idx < s1.len() && s1[idx] == c;
                    if idx < i {
                        assert(s0[idx] == c);
                    }
                }
                if s0.contains(c) {
                    let idx = choose|idx: int| 0 <= idx < s0.len() && s0[idx] == c;
                    assert(s1[idx] == c);
                }
                if c == hash {
                    assert(s1[i as int] == c);
                }
            }
            assert(ready@ =~= Set::new(|c: ChangeHash| s1.contains(c) && is_ready(d, Set::<ChangeHash>::empty(), c)));
        }
    }
    let ghost mut order_seq: Seq<ChangeHash> = Seq::empty();
    let mut order: Vec<ChangeHash> = Vec::new();
    proof {
        remaining.lemma_len();
        assert(remaining.key_seq().take(n as int) =~= remaining.key_seq());
        assert(order_seq.to_set() =~= Set::<ChangeHash>::empty());
        assert(ready@ =~= ready_set(d, order_seq.to_set()));
        assert forall|c: ChangeHash| #[trigger] remaining@.contains_key(c) && !order_seq.to_set().contains(c)
            implies remaining@[c] == d[c].difference(order_seq.to_set()).len() by {
            assert(d[c].difference(order_seq.to_set()) =~= d[c]);
        }
        vstd::seq_lib::seq_to_set_is_finite(remaining.key_seq());
    }
    loop
        invariant
            d.dom().finite(),
            d.dom() == graph.node_sets().dom(),
            finite_deps(d),
            sets_wf(dependants),
            sets_view(dependants) == dependant_sets(d),
            greedy_prefix(d, order_seq),
            order@ == order_seq,
            ready.wf(),
            ready@ == ready_set(d, order_seq.to_set()),
            remaining.wf(),
            counts_open(d, order_seq.to_set(), remaining@),
        ensures
            greedy_order(d, order_seq),
            order@ == order_seq,
        decreases d.dom().len() - order_seq.len(),
    {
        proof {
            crate::graph::order::lemma_greedy_distinct(d, order_seq);
            order_seq.unique_seq_to_set();
            vstd::set_lib::lemma_len_subset(order_seq.to_set(), d.dom());
        }
        let hash = match ready.pop_first() {
            Some(h) => h,
            None => {
                proof {
                    assert forall|c: ChangeHash| !#[trigger] is_ready(d, order_seq.to_set(), c) by {
                        if is_ready(d, order_seq.to_set(), c) {
                            assert(ready_set(d, order_seq.to_set()).contains(c));
                        }
                    }
                }
                break;
            },
        };
        let ghost done = order_seq.to_set();
        proof {
            assert(is_least(ready_set(d, done), hash));
            crate::graph::order::lemma_greedy_push(d, order_seq, hash);
            vstd::set_lib::lemma_len_subset(done.insert(hash), d.dom());
            assert forall|c: ChangeHash| #[trigger] done.contains(c) implies d.contains_key(c) && d[c].subset_of(done) by {
                crate::graph::order::lemma_greedy_closed(d, order_seq, c);
            }
        }
        order.push(hash);
        release_unmetered(hash, &dependants, &mut remaining, &mut ready, Ghost(d), Ghost(done));
        proof {
            order_seq = order_seq.push(hash);
        }
    }
    proof {
        crate::graph::order::lemma_greedy_distinct(d, order_seq);
        order_seq.unique_seq_to_set();
        vstd::set_lib::lemma_len_subset(order_seq.to_set(), d.dom());
        graph.nodes.lemma_len();
    }
    if order.len() != graph.nodes.len() {
        let mut ordered: OrdSet<ChangeHash> = OrdSet::new();
        let m = order.len();
        for i in 0..m
            invariant
                m == order@.len(),
                ordered.wf(),
                ordered@ == order@.take(i as int).to_set(),
        {
            ordered.insert(order[i]);
            proof {
                assert(order@.take(i + 1) =~= order@.take(i as int).push(order@[i as int]));
                order@.take(i as int).lemma_push_to_set_commute(order@[i as int]);
            }
        }
        proof {
            assert(order@.take(m as int) =~= order@);
        }
        let mut cyclic: Vec<ChangeHash> = Vec::new();
        let k = graph.nodes.len();
        for i in 0..k
            invariant
                graph.wf(),
                k == graph.nodes.key_seq().len(),
                ordered.wf(),
                strictly_sorted(cyclic@),
                forall|j: int, q: int| 0 <= j < cyclic@.len() && i <= q < k ==> (#[trigger] cyclic@[j]).precedes(
                    #[trigger] graph.nodes.key_seq()[q]),
                cyclic@.to_set() == graph.nodes.key_seq().take(i as int).to_set().difference(ordered@),
        {
            let hash = graph.nodes.key_at(i);
            let ghost old_cyclic = cyclic@;
            if !ordered.contains(&hash) {
                cyclic.push(hash);
                proof {
                    assert forall|a: int, b: int| 0 <= a < b < cyclic@.len() implies #[trigger] cyclic@[a].precedes(#[trigger] cyclic@[b]) by {
                        if b == cyclic@.len() - 1 {
                            assert(old_cyclic[a].precedes(graph.nodes.key_seq()[i as int]));
                        } else {
                            assert(old_cyclic[a].precedes(old_cyclic[b]));
                        }
                    }
                    assert forall|j: int, q: int| 0 <= j < cyclic@.len() && i + 1 <= q < k implies (#[trigger] cyclic@[j]).precedes(
                        #[trigger] graph.nodes.key_seq()[q]) by {
                        if j < old_cyclic.len() {
                            assert(old_cyclic[j].precedes(graph.nodes.key_seq()[q]));
                        } else {
                            assert(graph.nodes.key_seq()[i as int].precedes(graph.nodes.key_seq()[q]));
                        }
                    }
                    old_cyclic.lemma_push_to_set_commute(hash);
                }
            }
            proof {
                assert(graph.nodes.key_seq().take(i + 1) =~= graph.nodes.key_seq().take(i as int).push(hash));
                graph.nodes.key_seq().take(i as int).lemma_push_to_set_commute(hash);
                assert(cyclic@.to_set() =~= graph.nodes.key_seq().take(i + 1).to_set().difference(ordered@));
            }
        }
        proof {
            assert(graph.nodes.key_seq().take(k as int) =~= graph.nodes.key_seq());
            assert(cyclic@.to_set() =~= graph.node_sets().dom().difference(order_seq.to_set()));
            assert(cyclic@.len() > 0) by {
                if cyclic@.len() == 0 {
                    assert(cyclic@.to_set() =~= Set::<ChangeHash>::empty());
                    assert(order_seq.to_set() =~= d.dom()) by {
                        assert forall|x: ChangeHash| d.dom().contains(x) implies order_seq.to_set().contains(x) by {
                            if !order_seq.to_set().contains(x) {
                                assert(cyclic@.to_set().contains(x));
                            }
                        }
                    }
                    assert(graph.node_sets().dom() =~= graph.nodes@.dom());
                    assert(order_seq.len() == order_seq.to_set().len());
                }
            }
            assert(greedy_order(node_deps(*graph), order_seq));
        }
        return Err(TopologyError::Cycle(cyclic));
    }
    proof {
        assert(graph.node_sets().dom() =~= graph.nodes@.dom());
        vstd::set_lib::lemma_subset_equality(order_seq.to_set(), d.dom());
    }
    Ok(Topology { order })
}

} // verus!
