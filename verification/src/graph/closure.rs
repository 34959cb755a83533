//! Dependency closures: the ancestors a set of roots reaches.

use vstd::prelude::*;
use crate::graph::schedule::{deps_bounded, lemma_max_deps, max_deps};
use crate::graph::change_candidate::ChangeCandidate;
use crate::graph::dependency_graph::DependencyGraph;
use crate::graph::order::{closed_from, dependant_sets, greedy_order, greedy_prefix, is_least, is_ready, reachable_set, reaches, ready_set};
use crate::graph::dependency_graph::count_in;
use crate::ordered::insert_into_set_entry;
use crate::graph::schedule::room;
use crate::ordered::{OrdMap, OrdSet, sets_view, sets_wf};
use crate::types::ChangeHash;
use crate::work_budget::{
    CancellationCheck, WorkBudget, affords, WorkCounter, WorkStop, budget_grew, budget_within_limits, charge_budget_from,
    charge_from, lemma_grew_operations, operations_exhausted,
};

verus! {

/// Why an ancestor closure could not be computed.
#[derive(Clone, Copy, Debug, PartialEq, Eq, Structural)]
pub enum ClosureError {
    /// An ancestor is neither a graph node nor accepted.
    Missing(ChangeHash),
    /// The work budget ran out.
    BudgetExhausted,
    /// The cancellation signal asked to stop.
    Cancelled,
}

/// The set of all roots.
pub open spec fn root_set(roots: Seq<ChangeHash>) -> Set<ChangeHash> {
    roots.to_set()
}

/// The largest of the sets `s`.
pub open spec fn max_set_len(s: Seq<OrdSet<ChangeHash>>) -> nat
    decreases s.len(),
{
    if s.len() == 0 {
        0
    } else if s.last()@.len() > max_set_len(s.drop_last()) {
        s.last()@.len()
    } else {
        max_set_len(s.drop_last())
    }
}

/// Each of the sets `s` is no larger than the largest.
pub proof fn lemma_max_set_len(s: Seq<OrdSet<ChangeHash>>, i: int)
    requires
        0 <= i < s.len(),
    ensures
        s[i]@.len() <= max_set_len(s),
    decreases s.len(),
{
    if i < s.len() - 1 {
        lemma_max_set_len(s.drop_last(), i);
    }
}

/// The graph's nodes and dependency sets are finite, and no node names more
/// dependencies than the largest set.
pub proof fn lemma_node_sets_bounded(g: &DependencyGraph)
    requires
        g.wf(),
    ensures
        g.node_sets().dom().finite(),
        g.accepted_base@.finite(),
        forall|h: ChangeHash| #[trigger] g.node_sets().contains_key(h) ==> g.node_sets()[h].len() <= max_set_len(
            g.nodes.val_seq(),
        ),
{
    g.nodes.lemma_len();
    assert(g.node_sets().dom() =~= g.nodes@.dom());
    vstd::seq_lib::seq_to_set_is_finite(g.nodes.key_seq());
    vstd::seq_lib::seq_to_set_is_finite(g.accepted_base.seq());
    assert forall|h: ChangeHash| #[trigger] g.node_sets().contains_key(h) implies g.node_sets()[h].len() <= max_set_len(
        g.nodes.val_seq(),
    ) by {
        let i = choose|i: int| 0 <= i < g.nodes.key_seq().len() && g.nodes.key_seq()[i] == h;
        g.nodes.lemma_position(i);
        lemma_max_set_len(g.nodes.val_seq(), i);
    }
}

/// The units the ancestor closure in `g` charges at most: one for each node
/// or accepted change it takes in and one for each dependency of a node, and
/// one for the change it stops at.
pub open spec fn ancestor_closure_cost(g: DependencyGraph) -> int {
    ((g.node_sets().dom().len() + g.accepted_base@.len()) * (1 + max_set_len(g.nodes.val_seq())) + 1) as int
}

/// The ancestors of `roots` in `graph`, roots included.
///
/// Ancestors are visited depth first, smallest hash first. Each newly
/// visited ancestor costs one node unit and each dependency followed one edge
/// unit; the cancellation signal is consulted before each. An ancestor that
/// is neither a node of the graph nor an accepted change is reported missing.
pub fn ancestor_closure(
    graph: &DependencyGraph,
    roots: Vec<ChangeHash>,
    budget: &mut WorkBudget,
    cancellation: &impl CancellationCheck,
) -> (r: Result<OrdSet<ChangeHash>, ClosureError>)
    requires
        graph.wf(),
    ensures
        budget_grew(*old(budget), *final(budget)),
        r == Err::<OrdSet<ChangeHash>, ClosureError>(ClosureError::BudgetExhausted) ==> operations_exhausted(*final(budget)),
        r == Err::<OrdSet<ChangeHash>, ClosureError>(ClosureError::Cancelled) ==> !cancellation.never_cancels(),
        r matches Ok(c) ==> {
            &&& c.wf()
            &&& reachable_set(graph.node_sets(), root_set(roots@), c@)
            &&& forall|x: ChangeHash| #[trigger] c@.contains(x) ==> graph.node_sets().contains_key(x)
                || graph.accepted_base@.contains(x)
        },
        r matches Err(ClosureError::Missing(h)) ==> {
            &&& reaches(graph.node_sets(), root_set(roots@), h)
            &&& !graph.node_sets().contains_key(h)
            &&& !graph.accepted_base@.contains(h)
        },
        final(budget).usage().operations() <= old(budget).usage().operations() + ancestor_closure_cost(*graph),
        cancellation.never_cancels() && affords(*old(budget), ancestor_closure_cost(*graph)) ==> r is Ok || r matches Err(ClosureError::Missing(_)),
        cancellation.never_cancels() && operations_exhausted(*old(budget)) && roots@.len() > 0 ==> r == Err::<
            OrdSet<ChangeHash>,
            ClosureError,
        >(ClosureError::BudgetExhausted),
{
    let ghost start = *budget;
    let ghost nb: int = (graph.node_sets().dom().len() + graph.accepted_base@.len()) as int;
    let ghost per: int = (1 + max_set_len(graph.nodes.val_seq())) as int;
    proof {
        lemma_node_sets_bounded(graph);
    }
    let ghost deps = graph.node_sets();
    let ghost rs = root_set(roots@);
    let mut sorted: OrdSet<ChangeHash> = OrdSet::new();
    let n = roots.len();
    for i in 0..n
        invariant
            n == roots@.len(),
            sorted.wf(),
            sorted@ == roots@.take(i as int).to_set(),
    {
        sorted.insert(roots[i]);
        proof {
            assert(roots@.take(i + 1) =~= roots@.take(i as int).push(roots@[i as int]));
            roots@.take(i as int).lemma_push_to_set_commute(roots@[i as int]);
        }
    }
    proof {
        assert(roots@.take(n as int) =~= roots@);
    }
    let mut stack: Vec<ChangeHash> = Vec::new();
    let m = sorted.len();
    let mut k = m;
    while k > 0
        invariant
            sorted.wf(),
            sorted@ == rs,
            m == sorted.seq().len(),
            k <= m,
            forall|j: int| 0 <= j < stack@.len() ==> #[trigger] stack@[j] == sorted.seq()[m - 1 - j],
            stack@.len() == m - k,
        decreases k,
    {
        k = k - 1;
        stack.push(sorted.get(k));
    }
    proof {
        assert forall|x: ChangeHash| rs.contains(x) implies stack@.contains(x) by {
            let j = choose|j: int| 0 <= j < m && sorted.seq()[j] == x;
            assert(stack@[m - 1 - j] == x);
        }
        assert forall|t: Set<ChangeHash>| #[trigger] closed_from(deps, rs, t) implies (forall|j: int|
            0 <= j < stack@.len() ==> t.contains(#[trigger] stack@[j])) by {
            assert forall|j: int| 0 <= j < stack@.len() implies t.contains(#[trigger] stack@[j]) by {
                assert(sorted@.contains(sorted.seq()[m - 1 - j]));
            }
        }
    }
    proof {
        if roots@.len() > 0 {
            assert(rs.contains(roots@[0]));
            assert(sorted@.contains(roots@[0]));
            assert(sorted.seq().contains(roots@[0]));
        }
    }
    let mut closure: OrdSet<ChangeHash> = OrdSet::new();
    budget_within_limits(budget);
    loop
        invariant
            nb == graph.node_sets().dom().len() + graph.accepted_base@.len(),
            per == 1 + max_set_len(graph.nodes.val_seq()),
            cancellation.never_cancels() && operations_exhausted(start) ==> closure@.len() == 0 && budget.usage()
                == start.usage() && (roots@.len() > 0 ==> stack@.len() > 0),
            graph.node_sets().dom().finite(),
            graph.accepted_base@.finite(),
            forall|h: ChangeHash| #[trigger] graph.node_sets().contains_key(h) ==> graph.node_sets()[h].len() <= per - 1,
            closure@.len() <= nb,
            closure@.len() * per <= nb * per,
            ancestor_closure_cost(*graph) == nb * per + 1,
            budget.usage().operations() <= start.usage().operations() + closure@.len() * per,
            start == *old(budget),
            budget_grew(start, *budget),
            budget.usage().operations() <= budget.operation_limit(),
            graph.wf(),
            deps == graph.node_sets(),
            rs == root_set(roots@),
            closure.wf(),
            rs.subset_of(closure@.union(stack@.to_set())),
            forall|x: ChangeHash| #[trigger] closure@.contains(x) && deps.contains_key(x)
                ==> deps[x].subset_of(closure@.union(stack@.to_set())),
            forall|x: ChangeHash| #[trigger] closure@.contains(x) ==> deps.contains_key(x)
                || graph.accepted_base@.contains(x),
            forall|t: Set<ChangeHash>| #[trigger] closed_from(deps, rs, t) ==> closure@.subset_of(t)
                && forall|j: int| 0 <= j < stack@.len() ==> t.contains(#[trigger] stack@[j]),
        ensures
            stack@.len() == 0,
        decreases room(*budget), stack@.len(),
    {
        let ghost before = stack@;
        let ghost iter_start = *budget;
        let hash = match stack.pop() {
            Some(h) => h,
            None => {
                proof {
                    assert(stack@.to_set() =~= Set::<ChangeHash>::empty());
                    assert(closure@.union(stack@.to_set()) =~= closure@);
                }
                break;
            },
        };
        proof {
            assert(before =~= stack@.push(hash));
            assert forall|x: ChangeHash| before.to_set().contains(x) implies stack@.to_set().contains(x) || x == hash by {
                let j = choose|j: int| 0 <= j < before.len() && before[j] == x;
                if j < stack@.len() {
                    assert(stack@[j] == x);
                }
            }
            assert forall|t: Set<ChangeHash>| #[trigger] closed_from(deps, rs, t) implies t.contains(hash) && (forall|j: int|
                0 <= j < stack@.len() ==> t.contains(#[trigger] stack@[j])) by {
                assert(t.contains(before[before.len() - 1]));
                assert forall|j: int| 0 <= j < stack@.len() implies t.contains(#[trigger] stack@[j]) by {
                    assert(before[j] == stack@[j]);
                }
            }
        }
        if cancellation.is_cancelled() {
            return Err(ClosureError::Cancelled);
        }
        if closure.contains(&hash) {
            proof {
                assert(closure@.union(before.to_set()).subset_of(closure@.union(stack@.to_set())));
            }
            continue;
        }
        proof {
            assert(closure@.len() * per <= nb * per) by (nonlinear_arith)
                requires
                    closure@.len() <= nb,
                    per >= 1,
            ;
        }
        if charge_budget_from(budget, WorkCounter::GraphNode, Ghost(start)).is_err() {
            return Err(ClosureError::BudgetExhausted);
        }
        let ghost old_closure = closure@;
        let ghost cl0: int = closure@.len() as int;
        closure.insert(hash);
        proof {
            assert(closure@.len() == cl0 + 1);
            assert((cl0 + 1) * per == cl0 * per + per) by (nonlinear_arith);
            if graph.node_sets().contains_key(hash) || graph.accepted_base@.contains(hash) {
                assert(closure@.subset_of(graph.node_sets().dom().union(graph.accepted_base@)));
                vstd::set_lib::lemma_len_union(graph.node_sets().dom(), graph.accepted_base@);
                vstd::set_lib::lemma_len_subset(closure@, graph.node_sets().dom().union(graph.accepted_base@));
                assert((cl0 + 1) * per <= nb * per) by (nonlinear_arith)
                    requires
                        cl0 + 1 <= nb,
                        per >= 1,
                ;
            }
        }
        match graph.nodes.get(&hash) {
            Some(dependencies) => {
                proof {
                    assert(sets_view(graph.nodes)[hash] == dependencies@);
                    assert(dependencies.wf());
                }
                let count = dependencies.len();
                proof {
                    crate::ordered::lemma_sorted_no_duplicates(dependencies.seq());
                }
                let mut i = count;
                while i > 0
                    invariant
                        start == *old(budget),
                        budget_grew(start, *budget),
                        budget.usage().operations() <= budget.operation_limit(),
                        room(*budget) < room(iter_start),
                        graph.wf(),
                        deps == graph.node_sets(),
                        rs == root_set(roots@),
                        deps.contains_key(hash),
                        dependencies.wf(),
                        deps[hash] == dependencies@,
                        count == dependencies.seq().len(),
                        i <= count,
                        closure.wf(),
                        closure@ == old_closure.insert(hash),
                        closure@.len() == cl0 + 1,
                        closure@.len() <= nb,
                        (cl0 + 1) * per == cl0 * per + per,
                        (cl0 + 1) * per <= nb * per,
                        ancestor_closure_cost(*graph) == nb * per + 1,
                        count <= per - 1,
                        nb == graph.node_sets().dom().len() + graph.accepted_base@.len(),
                        budget.usage().operations() <= start.usage().operations() + cl0 * per + 1 + (count - i),
                        rs.subset_of(closure@.union(stack@.to_set())),
                        forall|x: ChangeHash| #[trigger] closure@.contains(x) && deps.contains_key(x) && x != hash
                            ==> deps[x].subset_of(closure@.union(stack@.to_set())),
                        forall|j: int| i <= j < count ==> stack@.contains(#[trigger] dependencies.seq()[j]),
                        forall|x: ChangeHash| #[trigger] closure@.contains(x) ==> deps.contains_key(x)
                            || graph.accepted_base@.contains(x),
                        forall|t: Set<ChangeHash>| #[trigger] closed_from(deps, rs, t) ==> closure@.subset_of(t)
                            && forall|j: int| 0 <= j < stack@.len() ==> t.contains(#[trigger] stack@[j]),
                    decreases i,
                {
                    i = i - 1;
                    if cancellation.is_cancelled() {
                        return Err(ClosureError::Cancelled);
                    }
                    let ghost pre = *budget;
                    if charge_budget_from(budget, WorkCounter::GraphEdge, Ghost(start)).is_err() {
                        return Err(ClosureError::BudgetExhausted);
                    }
                    proof {
                        lemma_grew_operations(pre, *budget);
                    }
                    let dependency = dependencies.get(i);
                    let ghost old_stack = stack@;
                    stack.push(dependency);
                    proof {
                        assert(stack@ =~= old_stack.push(dependency));
                        assert(stack@[stack@.len() - 1] == dependency);
                        assert forall|y: ChangeHash| old_stack.contains(y) implies stack@.contains(y) by {
                            let j = choose|j: int| 0 <= j < old_stack.len() && old_stack[j] == y;
                            assert(stack@[j] == y);
                        }
                        assert forall|y: ChangeHash| old_stack.to_set().contains(y) implies stack@.to_set().contains(y) by {
                            assert(old_stack.contains(y));
                        }
                        assert forall|t: Set<ChangeHash>| #[trigger] closed_from(deps, rs, t) implies closure@.subset_of(t)
                            && forall|j: int| 0 <= j < stack@.len() ==> t.contains(#[trigger] stack@[j]) by {
                            assert(t.contains(hash));
                            assert(dependencies.seq().contains(dependency));
                            assert(dependencies@.contains(dependency));
                            assert(deps[hash].subset_of(t));
                            assert forall|j: int| 0 <= j < stack@.len() implies t.contains(#[trigger] stack@[j]) by {
                                if j < old_stack.len() {
                                    assert(old_stack[j] == stack@[j]);
                                }
                            }
                        }
                    }
                }
                proof {
                    assert forall|y: ChangeHash| deps[hash].contains(y) implies closure@.union(stack@.to_set()).contains(y) by {
                        let j = choose|j: int| 0 <= j < count && dependencies.seq()[j] == y;
                        assert(stack@.contains(dependencies.seq()[j]));
                    }
                }
            },
            None => {
                if !graph.accepted_base.contains(&hash) {
                    proof {
                        assert(!deps.contains_key(hash));
                    }
                    return Err(ClosureError::Missing(hash));
                }
            },
        }
    }
    proof {
        assert(stack@.to_set() =~= Set::<ChangeHash>::empty());
        assert(closure@.union(stack@.to_set()) =~= closure@);
        assert(closed_from(deps, rs, closure@));
    }
    Ok(closure)
}

} // verus!

verus! {

/// The known ancestors of a candidate, the missing ones, and an application order.
pub struct CandidateDependencyClosure {
    /// Reached candidates.
    pub known: OrdSet<ChangeHash>,
    /// Reached hashes that are not candidates.
    pub missing: OrdSet<ChangeHash>,
    /// Known candidates that can never be ordered.
    pub cyclic: OrdSet<ChangeHash>,
    /// Known candidates in least-first dependency order.
    pub ordered: Vec<ChangeHash>,
}

/// Why a candidate dependency closure was not completed.
pub type CandidateClosureError = WorkStop;

/// Each candidate's dependency set.
pub open spec fn candidate_dep_sets(cands: Map<ChangeHash, ChangeCandidate>) -> Map<ChangeHash, Set<ChangeHash>> {
    Map::new(|h: ChangeHash| cands.contains_key(h), |h: ChangeHash| cands[h].dependencies@.to_set())
}

/// No candidate of a map names more dependencies than the longest of its values.
pub proof fn lemma_map_deps_bounded(m: &OrdMap<ChangeHash, ChangeCandidate>)
    requires
        m.wf(),
    ensures
        deps_bounded(m@, max_deps(m.val_seq()) as int),
{
    assert forall|h: ChangeHash| #[trigger] m@.contains_key(h) implies m@[h].dependencies@.len() <= max_deps(
        m.val_seq(),
    ) by {
        let i = choose|i: int| 0 <= i < m.key_seq().len() && m.key_seq()[i] == h;
        m.lemma_position(i);
        lemma_max_deps(m.val_seq(), i);
    }
}

/// The units gathering the ancestors of a candidate naming `n` dependencies,
/// among `c` candidates each naming at most `d`, charges at most.
pub open spec fn ancestors_cost(n: int, c: int, d: int) -> int {
    2 + 8 * (n + c * d)
}

fn collect_ancestors(
    candidate: &ChangeCandidate,
    candidates: &OrdMap<ChangeHash, ChangeCandidate>,
    budget: &mut WorkBudget,
    cancellation: &impl CancellationCheck,
    Ghost(start): Ghost<WorkBudget>,
    Ghost(dmax): Ghost<int>,
) -> (r: Result<(OrdSet<ChangeHash>, OrdSet<ChangeHash>), WorkStop>)
    requires
        dmax >= 0,
        deps_bounded(candidates@, dmax),
        budget_grew(start, *old(budget)),
        candidates.wf(),
    ensures
        budget_grew(start, *final(budget)),
        r == Err::<(OrdSet<ChangeHash>, OrdSet<ChangeHash>), WorkStop>(WorkStop::BudgetExhausted)
            ==> operations_exhausted(*final(budget)),
        r == Err::<(OrdSet<ChangeHash>, OrdSet<ChangeHash>), WorkStop>(WorkStop::Cancelled)
            ==> !cancellation.never_cancels(),
        r matches Ok((known, missing)) ==> {
            &&& known.wf()
            &&& missing.wf()
            &&& reachable_set(
                candidate_dep_sets(candidates@),
                candidate.dependencies@.to_set(),
                known@.union(missing@),
            )
            &&& known@.subset_of(candidates@.dom())
            &&& missing@.disjoint(candidates@.dom())
        },
        final(budget).usage().operations() <= old(budget).usage().operations() + ancestors_cost(
            candidate.dependencies@.len() as int,
            candidates@.dom().len() as int,
            dmax,
        ),
        cancellation.never_cancels() && affords(
            *old(budget),
            ancestors_cost(candidate.dependencies@.len() as int, candidates@.dom().len() as int, dmax),
        ) ==> r is Ok,
{
    let ghost entry = *budget;
    let ghost cn = candidates@.dom().len() as int;
    let ghost mut pops: int = 0;
    let ghost mut pushes: int = candidate.dependencies@.len() as int;
    proof {
        candidates.lemma_len();
    }
    let ghost deps = candidate_dep_sets(candidates@);
    let ghost rs = candidate.dependencies@.to_set();
    let c = charge_from(budget, cancellation, WorkCounter::GraphEdge, Ghost(start));
    proof {
        match c {
            Err(WorkStop::Cancelled) => {},
            Err(WorkStop::BudgetExhausted) => {},
            Ok(()) => {},
        }
    }
    if let Err(e) = c {
        return Err(e);
    }
    let mut pending: Vec<ChangeHash> = Vec::new();
    let n = candidate.dependencies.len();
    for i in 0..n
        invariant
            budget_grew(start, *budget),
            n == candidate.dependencies@.len(),
            pending@ == candidate.dependencies@.take(i as int),
            entry == *old(budget),
            budget_grew(start, entry),
            dmax >= 0,
            cn == candidates@.dom().len(),
            budget.usage().operations() <= entry.usage().operations() + 1 + 2 * i,
    {
        let c = charge_from(budget, cancellation, WorkCounter::GraphEdge, Ghost(start));
        proof {
            match c {
                Err(WorkStop::Cancelled) => {},
                Err(WorkStop::BudgetExhausted) => {},
                Ok(()) => {},
            }
        }
        if let Err(e) = c {
            return Err(e);
        }
        let dependency = candidate.dependencies[i];
        let c = charge_from(budget, cancellation, WorkCounter::GraphEdge, Ghost(start));
        proof {
            match c {
                Err(WorkStop::Cancelled) => {},
                Err(WorkStop::BudgetExhausted) => {},
                Ok(()) => {},
            }
        }
        if let Err(e) = c {
            return Err(e);
        }
        pending.push(dependency);
        proof {
            assert(candidate.dependencies@.take(i + 1) =~= candidate.dependencies@.take(i as int).push(dependency));
        }
    }
    proof {
        assert(candidate.dependencies@.take(n as int) =~= candidate.dependencies@);
        assert forall|t: Set<ChangeHash>| #[trigger] closed_from(deps, rs, t) implies (forall|j: int|
            0 <= j < pending@.len() ==> t.contains(#[trigger] pending@[j])) by {
            assert forall|j: int| 0 <= j < pending@.len() implies t.contains(#[trigger] pending@[j]) by {
                assert(rs.contains(pending@[j]));
            }
        }
        assert forall|x: ChangeHash| rs.contains(x) implies pending@.to_set().contains(x) by {}
    }
    let mut known: OrdSet<ChangeHash> = OrdSet::new();
    let mut missing: OrdSet<ChangeHash> = OrdSet::new();
    budget_within_limits(budget);
    proof {
        assert(candidate.dependencies@.take(n as int) =~= candidate.dependencies@);
    }
    loop
        invariant_except_break
            budget.usage().operations() <= entry.usage().operations() + 1 + 2 * n + 6 * pops + 2 * (pushes - n),
        invariant
            entry == *old(budget),
            budget_grew(start, entry),
            dmax >= 0,
            deps_bounded(candidates@, dmax),
            cn == candidates@.dom().len(),
            candidates@.dom().finite(),
            n == candidate.dependencies@.len(),
            0 <= pops,
            pops + pending@.len() == pushes,
            pushes <= n + known@.len() * dmax,
            budget_grew(start, *budget),
            budget.usage().operations() <= budget.operation_limit(),
            candidates.wf(),
            deps == candidate_dep_sets(candidates@),
            rs == candidate.dependencies@.to_set(),
            known.wf(),
            missing.wf(),
            known@.subset_of(candidates@.dom()),
            missing@.disjoint(candidates@.dom()),
            rs.subset_of(known@.union(missing@).union(pending@.to_set())),
            forall|x: ChangeHash| #[trigger] known@.contains(x)
                ==> deps[x].subset_of(known@.union(missing@).union(pending@.to_set())),
            forall|t: Set<ChangeHash>| #[trigger] closed_from(deps, rs, t) ==> known@.union(missing@).subset_of(t)
                && forall|j: int| 0 <= j < pending@.len() ==> t.contains(#[trigger] pending@[j]),
        ensures
            pending@.len() == 0,
            budget.usage().operations() <= entry.usage().operations() + ancestors_cost(n as int, cn, dmax),
        decreases room(*budget),
    {
        proof {
            vstd::set_lib::lemma_len_subset(known@, candidates@.dom());
            assert(known@.len() * dmax <= cn * dmax) by (nonlinear_arith)
                requires
                    known@.len() <= cn,
                    dmax >= 0,
            ;
        }
        let ghost before = pending@;
        let ghost visited = known@.union(missing@);
        let c = charge_from(budget, cancellation, WorkCounter::GraphNode, Ghost(start));
        proof {
            match c {
                Err(WorkStop::Cancelled) => {},
                Err(WorkStop::BudgetExhausted) => {},
                Ok(()) => {},
            }
        }
        if let Err(e) = c {
            return Err(e);
        }
        let hash = match pending.pop() {
            Some(h) => h,
            None => break,
        };
        proof {
            pops = pops + 1;
            assert(before =~= pending@.push(hash));
            assert forall|x: ChangeHash| before.to_set().contains(x) implies pending@.to_set().contains(x) || x == hash by {
                let j = choose|j: int| 0 <= j < before.len() && before[j] == x;
                if j < pending@.len() {
                    assert(pending@[j] == x);
                }
            }
            assert forall|t: Set<ChangeHash>| #[trigger] closed_from(deps, rs, t) implies t.contains(hash) && (forall|j: int|
                0 <= j < pending@.len() ==> t.contains(#[trigger] pending@[j])) by {
                assert(t.contains(before[before.len() - 1]));
                assert forall|j: int| 0 <= j < pending@.len() implies t.contains(#[trigger] pending@[j]) by {
                    assert(before[j] == pending@[j]);
                }
            }
        }
        let c = charge_from(budget, cancellation, WorkCounter::GraphNode, Ghost(start));
        proof {
            match c {
                Err(WorkStop::Cancelled) => {},
                Err(WorkStop::BudgetExhausted) => {},
                Ok(()) => {},
            }
        }
        if let Err(e) = c {
            return Err(e);
        }
        if known.contains(&hash) {
            continue;
        }
        let c = charge_from(budget, cancellation, WorkCounter::GraphNode, Ghost(start));
        proof {
            match c {
                Err(WorkStop::Cancelled) => {},
                Err(WorkStop::BudgetExhausted) => {},
                Ok(()) => {},
            }
        }
        if let Err(e) = c {
            return Err(e);
        }
        let ghost kn0 = known@.len();
        let ghost known0 = known@;
        let ghost pushes0 = pushes;
        known.insert(hash);
        proof {
            assert(known@.len() == kn0 + 1);
            assert((kn0 + 1) * dmax == kn0 * dmax + dmax) by (nonlinear_arith);
        }
        let c = charge_from(budget, cancellation, WorkCounter::GraphNode, Ghost(start));
        proof {
            match c {
                Err(WorkStop::Cancelled) => {},
                Err(WorkStop::BudgetExhausted) => {},
                Ok(()) => {},
            }
        }
        if let Err(e) = c {
            return Err(e);
        }
        match candidates.get(&hash) {
            Some(ancestor) => {
                let ghost iter_room = room(*budget);
                let count = ancestor.dependencies.len();
                proof {
                    assert(deps.contains_key(hash));
                    assert(deps[hash] == ancestor.dependencies@.to_set());
                }
                proof {
                    assert(candidates@[hash] == *ancestor);
                    assert(known@.subset_of(candidates@.dom()));
                    vstd::set_lib::lemma_len_subset(known@, candidates@.dom());
                    assert((kn0 + 1) * dmax <= cn * dmax) by (nonlinear_arith)
                        requires
                            kn0 + 1 <= cn,
                            dmax >= 0,
                    ;
                }
                for i in 0..count
                    invariant
                        entry == *old(budget),
                        budget_grew(start, entry),
                        count <= dmax,
                        cn == candidates@.dom().len(),
                        n == candidate.dependencies@.len(),
                        known@.len() == kn0 + 1,
                        (kn0 + 1) * dmax == kn0 * dmax + dmax,
                        (kn0 + 1) * dmax <= cn * dmax,
                        dmax >= 0,
                        pushes0 <= n + kn0 * dmax,
                        pushes == pushes0 + i,
                        0 < pops,
                        pops + pending@.len() == pushes,
                        budget.usage().operations() <= entry.usage().operations() + 1 + 2 * n + 6 * pops + 2 * (
                        pushes0 - n) + 2 * i,
                        budget_grew(start, *budget),
                        budget.usage().operations() <= budget.operation_limit(),
                        room(*budget) <= iter_room,
                        candidates.wf(),
                        deps == candidate_dep_sets(candidates@),
                        rs == candidate.dependencies@.to_set(),
                        deps.contains_key(hash),
                        deps[hash] == ancestor.dependencies@.to_set(),
                        count == ancestor.dependencies@.len(),
                        known.wf(),
                        missing.wf(),
                        known@.contains(hash),
                        known@.subset_of(candidates@.dom()),
                        missing@.disjoint(candidates@.dom()),
                        rs.subset_of(known@.union(missing@).union(pending@.to_set())),
                        forall|x: ChangeHash| #[trigger] known@.contains(x) && x != hash
                            ==> deps[x].subset_of(known@.union(missing@).union(pending@.to_set())),
                        forall|j: int| 0 <= j < i ==> pending@.contains(#[trigger] ancestor.dependencies@[j]),
                        forall|t: Set<ChangeHash>| #[trigger] closed_from(deps, rs, t) ==> known@.union(missing@).subset_of(t)
                            && forall|j: int| 0 <= j < pending@.len() ==> t.contains(#[trigger] pending@[j]),
                {
                    let ghost pre = *budget;
                    let c = charge_from(budget, cancellation, WorkCounter::GraphEdge, Ghost(start));
                    proof {
                        match c {
                            Err(WorkStop::Cancelled) => {},
                            Err(WorkStop::BudgetExhausted) => {},
                            Ok(()) => {},
                        }
                    }
                    if let Err(e) = c {
                        return Err(e);
                    }
                    let dependency = ancestor.dependencies[i];
                    let c = charge_from(budget, cancellation, WorkCounter::GraphEdge, Ghost(start));
                    proof {
                        match c {
                            Err(WorkStop::Cancelled) => {},
                            Err(WorkStop::BudgetExhausted) => {},
                            Ok(()) => {},
                        }
                    }
                    if let Err(e) = c {
                        return Err(e);
                    }
                    let ghost old_pending = pending@;
                    pending.push(dependency);
                    proof {
                        pushes = pushes + 1;
                        lemma_grew_operations(pre, *budget);
                        assert(pending@[pending@.len() - 1] == dependency);
                        assert forall|y: ChangeHash| old_pending.contains(y) implies pending@.contains(y) by {
                            let j = choose|j: int| 0 <= j < old_pending.len() && old_pending[j] == y;
                            assert(pending@[j] == y);
                        }
                        assert forall|y: ChangeHash| old_pending.to_set().contains(y) implies pending@.to_set().contains(y) by {
                            assert(old_pending.contains(y));
                        }
                        assert forall|t: Set<ChangeHash>| #[trigger] closed_from(deps, rs, t) implies known@.union(missing@).subset_of(t)
                            && forall|j: int| 0 <= j < pending@.len() ==> t.contains(#[trigger] pending@[j]) by {
                            assert(t.contains(hash));
                            assert(ancestor.dependencies@.contains(dependency));
                            assert(deps[hash].subset_of(t));
                            assert forall|j: int| 0 <= j < pending@.len() implies t.contains(#[trigger] pending@[j]) by {
                                if j < old_pending.len() {
                                    assert(old_pending[j] == pending@[j]);
                                }
                            }
                        }
                    }
                }
                proof {
                    assert forall|y: ChangeHash| deps[hash].contains(y) implies known@.union(missing@).union(pending@.to_set()).contains(y) by {
                        let j = choose|j: int| 0 <= j < count && ancestor.dependencies@[j] == y;
                        assert(pending@.contains(ancestor.dependencies@[j]));
                    }
                }
            },
            None => {
                let c = charge_from(budget, cancellation, WorkCounter::GraphNode, Ghost(start));
                proof {
                    match c {
                        Err(WorkStop::Cancelled) => {},
                        Err(WorkStop::BudgetExhausted) => {},
                        Ok(()) => {},
                    }
                }
                if let Err(e) = c {
                    return Err(e);
                }
                known.remove(&hash);
                proof {
                    assert(known@ =~= known0);
                }
                let c = charge_from(budget, cancellation, WorkCounter::GraphNode, Ghost(start));
                proof {
                    match c {
                        Err(WorkStop::Cancelled) => {},
                        Err(WorkStop::BudgetExhausted) => {},
                        Ok(()) => {},
                    }
                }
                if let Err(e) = c {
                    return Err(e);
                }
                missing.insert(hash);
                proof {
                    assert(known@.union(missing@) =~= visited.insert(hash));
                }
            },
        }
    }
    proof {
        assert(pending@.to_set() =~= Set::<ChangeHash>::empty());
        assert(known@.union(missing@).union(pending@.to_set()) =~= known@.union(missing@));
        assert(closed_from(deps, rs, known@.union(missing@))) by {
            assert forall|x: ChangeHash| #[trigger] known@.union(missing@).contains(x) && deps.contains_key(x)
                implies deps[x].subset_of(known@.union(missing@)) by {
                assert(known@.contains(x));
            }
        }
    }
    Ok((known, missing))
}

} // verus!

verus! {

/// The distinct members of `s` in `m` are at most the entries of `s` in `m`.
pub proof fn lemma_count_in_distinct(s: Seq<ChangeHash>, m: Set<ChangeHash>)
    ensures
        s.to_set().intersect(m).finite(),
        s.to_set().intersect(m).len() <= count_in(s, m),
    decreases s.len(),
{
    vstd::seq_lib::seq_to_set_is_finite(s);
    vstd::set_lib::lemma_len_subset(s.to_set().intersect(m), s.to_set());
    if s.len() == 0 {
        assert(s.to_set().intersect(m) =~= Set::<ChangeHash>::empty());
    } else {
        let p = s.drop_last();
        lemma_count_in_distinct(p, m);
        let a = p.to_set().intersect(m);
        assert(s =~= p.push(s.last()));
        p.lemma_push_to_set_commute(s.last());
        if m.contains(s.last()) {
            assert(s.to_set().intersect(m) =~= a.insert(s.last()));
            vstd::set::axiom_set_insert_len(a, s.last());
        } else {
            assert(s.to_set().intersect(m) =~= a);
        }
    }
}

/// The known dependencies of each known candidate.
pub open spec fn known_deps(cands: Map<ChangeHash, ChangeCandidate>, known: Set<ChangeHash>) -> Map<
    ChangeHash,
    Set<ChangeHash>,
> {
    Map::new(|h: ChangeHash| known.contains(h), |h: ChangeHash| cands[h].dependencies@.to_set().intersect(known))
}

/// How many more known dependency entries `h` names than it has distinct
/// known dependencies.
pub open spec fn repeat_slack(cands: Map<ChangeHash, ChangeCandidate>, known: Set<ChangeHash>, h: ChangeHash) -> int {
    count_in(cands[h].dependencies@, known) - cands[h].dependencies@.to_set().intersect(known).len()
}

/// The dependencies the ordering waits for: the known ones, and the
/// candidate itself when it names a known dependency more than once, which
/// keeps it from ever becoming ready.
pub open spec fn ordering_deps(cands: Map<ChangeHash, ChangeCandidate>, known: Set<ChangeHash>) -> Map<
    ChangeHash,
    Set<ChangeHash>,
> {
    Map::new(
        |h: ChangeHash| known.contains(h),
        |h: ChangeHash|
            if repeat_slack(cands, known, h) == 0 {
                known_deps(cands, known)[h]
            } else {
                known_deps(cands, known)[h].insert(h)
            },
    )
}

/// The in-degree table and dependants built from the known candidates.
pub struct KnownIndex {
    /// Known dependency entries per known candidate.
    pub indegrees: OrdMap<ChangeHash, usize>,
    /// The known candidates naming each known change.
    pub dependants: OrdMap<ChangeHash, OrdSet<ChangeHash>>,
}

fn index_known(
    known: &OrdSet<ChangeHash>,
    candidates: &OrdMap<ChangeHash, ChangeCandidate>,
    budget: &mut WorkBudget,
    cancellation: &impl CancellationCheck,
    Ghost(start): Ghost<WorkBudget>,
    Ghost(dmax): Ghost<int>,
) -> (r: Result<KnownIndex, WorkStop>)
    requires
        dmax >= 0,
        deps_bounded(candidates@, dmax),
        budget_grew(start, *old(budget)),
        known.wf(),
        candidates.wf(),
        known@.subset_of(candidates@.dom()),
    ensures
        budget_grew(start, *final(budget)),
        r == Err::<KnownIndex, WorkStop>(WorkStop::BudgetExhausted) ==> operations_exhausted(*final(budget)),
        r == Err::<KnownIndex, WorkStop>(WorkStop::Cancelled) ==> !cancellation.never_cancels(),
        r matches Ok(x) ==> {
            &&& x.indegrees.wf()
            &&& x.indegrees@.dom() == known@
            &&& forall|h: ChangeHash| #[trigger] x.indegrees@.contains_key(h) ==> x.indegrees@[h] == count_in(
                candidates@[h].dependencies@,
                known@,
            )
            &&& sets_wf(x.dependants)
            &&& sets_view(x.dependants) == dependant_sets(known_deps(candidates@, known@))
        },
        final(budget).usage().operations() <= old(budget).usage().operations() + 2 + 2 * known@.len() + known@.len()
            * (2 + 8 * dmax),
        cancellation.never_cancels() && affords(*old(budget), 2 + 2 * known@.len() + known@.len() * (2 + 8 * dmax))
            ==> r is Ok,
{
    let ghost entry = *budget;
    let ghost per: int = 2 + 8 * dmax;
    let ghost ks = known.seq();
    let ghost kset = known@;
    let c = charge_from(budget, cancellation, WorkCounter::GraphNode, Ghost(start));
    proof {
        match c {
            Err(WorkStop::Cancelled) => {},
            Err(WorkStop::BudgetExhausted) => {},
            Ok(()) => {},
        }
    }
    if let Err(e) = c {
        return Err(e);
    }
    let mut indegrees: OrdMap<ChangeHash, usize> = OrdMap::new();
    let n = known.len();
    for i in 0..n
        invariant
            budget_grew(start, *budget),
            known.wf(),
            n == known.seq().len(),
            indegrees.wf(),
            indegrees@.dom() == known.seq().take(i as int).to_set(),
            forall|h: ChangeHash| #[trigger] indegrees@.contains_key(h) ==> indegrees@[h] == 0,
            entry == *old(budget),
            budget_grew(start, entry),
            n == known@.len(),
            per == 2 + 8 * dmax,
            dmax >= 0,
            budget.usage().operations() <= entry.usage().operations() + 1 + 2 * i,
    {
        let c = charge_from(budget, cancellation, WorkCounter::GraphNode, Ghost(start));
        proof {
            match c {
                Err(WorkStop::Cancelled) => {},
                Err(WorkStop::BudgetExhausted) => {},
                Ok(()) => {},
            }
        }
        if let Err(e) = c {
            return Err(e);
        }
        let hash = known.get(i);
        let c = charge_from(budget, cancellation, WorkCounter::GraphNode, Ghost(start));
        proof {
            match c {
                Err(WorkStop::Cancelled) => {},
                Err(WorkStop::BudgetExhausted) => {},
                Ok(()) => {},
            }
        }
        if let Err(e) = c {
            return Err(e);
        }
        indegrees.insert(hash, 0);
        proof {
            assert(known.seq().take(i + 1) =~= known.seq().take(i as int).push(hash));
            known.seq().take(i as int).lemma_push_to_set_commute(hash);
        }
    }
    proof {
        assert(known.seq().take(n as int) =~= known.seq());
    }
    let c = charge_from(budget, cancellation, WorkCounter::GraphEdge, Ghost(start));
    proof {
        match c {
            Err(WorkStop::Cancelled) => {},
            Err(WorkStop::BudgetExhausted) => {},
            Ok(()) => {},
        }
    }
    if let Err(e) = c {
        return Err(e);
    }
    let mut dependants: OrdMap<ChangeHash, OrdSet<ChangeHash>> = OrdMap::new();
    let ghost mut dm: Map<ChangeHash, Set<ChangeHash>> = Map::new(
        |h: ChangeHash| kset.contains(h),
        |h: ChangeHash| Set::<ChangeHash>::empty(),
    );
    proof {
        assert(dependant_sets(dm) =~= Map::<ChangeHash, Set<ChangeHash>>::empty());
        assert(sets_view(dependants) =~= dependant_sets(dm));
        crate::ordered::lemma_sorted_no_duplicates(ks);
        assert forall|j: int| 0 <= j < n implies #[trigger] indegrees@[ks[j]] == 0 by {
            assert(ks.to_set().contains(ks[j]));
            assert(indegrees@.contains_key(ks[j]));
        }
    }
    for i in 0..n
        invariant
            budget_grew(start, *budget),
            known.wf(),
            candidates.wf(),
            ks == known.seq(),
            kset == known@,
            ks.no_duplicates(),
            n == ks.len(),
            known@.subset_of(candidates@.dom()),
            indegrees.wf(),
            indegrees@.dom() == kset,
            forall|j: int| 0 <= j < n ==> #[trigger] indegrees@[ks[j]] == (if j < i {
                count_in(candidates@[ks[j]].dependencies@, kset)
            } else {
                0
            }),
            dm.dom() == kset,
            forall|j: int| 0 <= j < n ==> #[trigger] dm[ks[j]] == (if j < i {
                candidates@[ks[j]].dependencies@.to_set().intersect(kset)
            } else {
                Set::<ChangeHash>::empty()
            }),
            sets_wf(dependants),
            sets_view(dependants) == dependant_sets(dm),
            entry == *old(budget),
            budget_grew(start, entry),
            n == known@.len(),
            per == 2 + 8 * dmax,
            dmax >= 0,
            deps_bounded(candidates@, dmax),
            budget.usage().operations() <= entry.usage().operations() + 2 + 2 * n + i * per,
    {
        proof {
            assert((i + 1) * per == i * per + per) by (nonlinear_arith);
            assert((i + 1) * per <= n * per) by (nonlinear_arith)
                requires
                    i + 1 <= n,
                    per >= 0,
            ;
        }
        let c = charge_from(budget, cancellation, WorkCounter::GraphNode, Ghost(start));
        proof {
            match c {
                Err(WorkStop::Cancelled) => {},
                Err(WorkStop::BudgetExhausted) => {},
                Ok(()) => {},
            }
        }
        if let Err(e) = c {
            return Err(e);
        }
        let hash = known.get(i);
        let c = charge_from(budget, cancellation, WorkCounter::GraphNode, Ghost(start));
        proof {
            match c {
                Err(WorkStop::Cancelled) => {},
                Err(WorkStop::BudgetExhausted) => {},
                Ok(()) => {},
            }
        }
        if let Err(e) = c {
            return Err(e);
        }
        proof {
            assert(known@.contains(hash));
        }
        let ancestor = match candidates.get(&hash) {
            Some(a) => a,
            None => {
                return Err(WorkStop::Cancelled);
            },
        };
        let m = ancestor.dependencies.len();
        let ghost deps = ancestor.dependencies@;
        proof {
            assert(deps.take(0).to_set().intersect(kset) =~= Set::<ChangeHash>::empty());
            assert(count_in(deps.take(0), kset) == 0);
        }
        for k in 0..m
            invariant
                budget_grew(start, *budget),
                known.wf(),
                candidates.wf(),
                ks == known.seq(),
                kset == known@,
                ks.no_duplicates(),
                n == ks.len(),
                0 <= i < n,
                hash == ks[i as int],
                deps == ancestor.dependencies@,
                *ancestor == candidates@[hash],
                m == deps.len(),
                indegrees.wf(),
                indegrees@.dom() == kset,
                indegrees@[hash] == count_in(deps.take(k as int), kset),
                forall|j: int| 0 <= j < n && j != i ==> #[trigger] indegrees@[ks[j]] == (if j < i {
                    count_in(candidates@[ks[j]].dependencies@, kset)
                } else {
                    0
                }),
                dm.dom() == kset,
                dm[hash] == deps.take(k as int).to_set().intersect(kset),
                forall|j: int| 0 <= j < n && j != i ==> #[trigger] dm[ks[j]] == (if j < i {
                    candidates@[ks[j]].dependencies@.to_set().intersect(kset)
                } else {
                    Set::<ChangeHash>::empty()
                }),
                sets_wf(dependants),
                sets_view(dependants) == dependant_sets(dm),
                entry == *old(budget),
                budget_grew(start, entry),
                n == known@.len(),
                per == 2 + 8 * dmax,
                m <= dmax,
                (i + 1) * per <= n * per,
                (i + 1) * per == i * per + per,
                budget.usage().operations() <= entry.usage().operations() + 4 + 2 * n + i * per + 8 * k,
        {
            let c = charge_from(budget, cancellation, WorkCounter::GraphEdge, Ghost(start));
            proof {
                match c {
                    Err(WorkStop::Cancelled) => {},
                    Err(WorkStop::BudgetExhausted) => {},
                    Ok(()) => {},
                }
            }
            if let Err(e) = c {
                return Err(e);
            }
            let dependency = ancestor.dependencies[k];
            let c = charge_from(budget, cancellation, WorkCounter::GraphEdge, Ghost(start));
            proof {
                match c {
                    Err(WorkStop::Cancelled) => {},
                    Err(WorkStop::BudgetExhausted) => {},
                    Ok(()) => {},
                }
            }
            if let Err(e) = c {
                return Err(e);
            }
            let is_known = known.contains(&dependency);
            let ghost before_dm = dm;
            proof {
                assert(deps.take(k + 1) =~= deps.take(k as int).push(dependency));
                assert(deps.take(k + 1).drop_last() =~= deps.take(k as int));
                deps.take(k as int).lemma_push_to_set_commute(dependency);
            }
            if is_known {
                let c = charge_from(budget, cancellation, WorkCounter::GraphNode, Ghost(start));
                proof {
                    match c {
                        Err(WorkStop::Cancelled) => {},
                        Err(WorkStop::BudgetExhausted) => {},
                        Ok(()) => {},
                    }
                }
                if let Err(e) = c {
                    return Err(e);
                }
                let pos = match indegrees.index_of(&hash) {
                    Some(p) => p,
                    None => {
                        return Err(WorkStop::Cancelled);
                    },
                };
                let c = charge_from(budget, cancellation, WorkCounter::GraphNode, Ghost(start));
                proof {
                    match c {
                        Err(WorkStop::Cancelled) => {},
                        Err(WorkStop::BudgetExhausted) => {},
                        Ok(()) => {},
                    }
                }
                if let Err(e) = c {
                    return Err(e);
                }
                let current = *indegrees.value_at(pos);
                proof {
                    crate::graph::dependency_graph::lemma_count_in_bound(deps.take(k as int), kset);
                }
                let ghost old_indegrees = indegrees;
                indegrees.set_value_at(pos, current + 1);
                proof {
                    old_indegrees.lemma_position(pos as int);
                }
                let c = charge_from(budget, cancellation, WorkCounter::GraphEdge, Ghost(start));
                proof {
                    match c {
                        Err(WorkStop::Cancelled) => {},
                        Err(WorkStop::BudgetExhausted) => {},
                        Ok(()) => {},
                    }
                }
                if let Err(e) = c {
                    return Err(e);
                }
                if !dependants.contains_key(&dependency) {
                    let c = charge_from(budget, cancellation, WorkCounter::GraphEdge, Ghost(start));
                    proof {
                        match c {
                            Err(WorkStop::Cancelled) => {},
                            Err(WorkStop::BudgetExhausted) => {},
                            Ok(()) => {},
                        }
                    }
                    if let Err(e) = c {
                        return Err(e);
                    }
                }
                let c = charge_from(budget, cancellation, WorkCounter::GraphEdge, Ghost(start));
                proof {
                    match c {
                        Err(WorkStop::Cancelled) => {},
                        Err(WorkStop::BudgetExhausted) => {},
                        Ok(()) => {},
                    }
                }
                if let Err(e) = c {
                    return Err(e);
                }
                let c = charge_from(budget, cancellation, WorkCounter::GraphEdge, Ghost(start));
                proof {
                    match c {
                        Err(WorkStop::Cancelled) => {},
                        Err(WorkStop::BudgetExhausted) => {},
                        Ok(()) => {},
                    }
                }
                if let Err(e) = c {
                    return Err(e);
                }
                insert_into_set_entry(&mut dependants, dependency, hash);
                proof {
                    crate::graph::order::lemma_dependant_sets_add(before_dm, hash, dependency);
                    dm = before_dm.insert(hash, before_dm[hash].insert(dependency));
                    assert(dm[hash] =~= deps.take(k + 1).to_set().intersect(kset));
                    assert forall|j: int| 0 <= j < n && j != i implies #[trigger] dm[ks[j]] == before_dm[ks[j]] by {
                        assert(ks[j] != ks[i as int]);
                    }
                    assert forall|j: int| 0 <= j < n && j != i implies #[trigger] indegrees@[ks[j]] == old_indegrees@[ks[j]] by {
                        assert(ks[j] != ks[i as int]);
                    }
                }
            } else {
                proof {
                    assert(deps.take(k + 1).to_set().intersect(kset) =~= deps.take(k as int).to_set().intersect(kset));
                }
            }
        }
        proof {
            assert(deps.take(m as int) =~= deps);
        }
    }
    proof {
        assert(dm =~= known_deps(candidates@, known@)) by {
            assert forall|h: ChangeHash| dm.contains_key(h) implies dm[h] == known_deps(candidates@, known@)[h] by {
                let j = choose|j: int| 0 <= j < n && ks[j] == h;
                assert(dm[ks[j]] == candidates@[ks[j]].dependencies@.to_set().intersect(kset));
            }
        }
        assert forall|h: ChangeHash| #[trigger] indegrees@.contains_key(h) implies indegrees@[h] == count_in(
            candidates@[h].dependencies@,
            known@,
        ) by {
            let j = choose|j: int| 0 <= j < n && ks[j] == h;
            assert(indegrees@[ks[j]] == count_in(candidates@[ks[j]].dependencies@, kset));
        }
    }
    Ok(KnownIndex { indegrees, dependants })
}

} // verus!

verus! {

/// The in-degree of each unprocessed known candidate: its repeat slack plus
/// its known dependencies not yet processed.
pub open spec fn indegrees_open(
    cands: Map<ChangeHash, ChangeCandidate>,
    known: Set<ChangeHash>,
    done: Set<ChangeHash>,
    indegrees: Map<ChangeHash, usize>,
) -> bool {
    &&& indegrees.dom() == known
    &&& forall|c: ChangeHash| #[trigger] indegrees.contains_key(c) && !done.contains(c)
        ==> indegrees[c] == repeat_slack(cands, known, c) + known_deps(cands, known)[c].difference(done).len()
}

/// A known candidate's in-degree is zero exactly when it is ready.
proof fn lemma_zero_is_ready(
    cands: Map<ChangeHash, ChangeCandidate>,
    known: Set<ChangeHash>,
    done: Set<ChangeHash>,
    c: ChangeHash,
    count: int,
)
    requires
        known.contains(c),
        !done.contains(c),
        count == repeat_slack(cands, known, c) + known_deps(cands, known)[c].difference(done).len(),
    ensures
        (count == 0) == is_ready(ordering_deps(cands, known), done, c),
        repeat_slack(cands, known, c) >= 0,
{
    let deps = cands[c].dependencies@;
    lemma_count_in_distinct(deps, known);
    let d = known_deps(cands, known)[c];
    assert(d == deps.to_set().intersect(known));
    crate::graph::order::lemma_open_empty(d, done);
    if repeat_slack(cands, known, c) != 0 {
        assert(ordering_deps(cands, known)[c].contains(c));
    }
}

fn release_known_children(
    hash: ChangeHash,
    dependants: &OrdMap<ChangeHash, OrdSet<ChangeHash>>,
    indegrees: &mut OrdMap<ChangeHash, usize>,
    ready: &mut OrdSet<ChangeHash>,
    budget: &mut WorkBudget,
    cancellation: &impl CancellationCheck,
    Ghost(start): Ghost<WorkBudget>,
    Ghost(cands): Ghost<Map<ChangeHash, ChangeCandidate>>,
    Ghost(known): Ghost<Set<ChangeHash>>,
    Ghost(done): Ghost<Set<ChangeHash>>,
) -> (r: Result<(), WorkStop>)
    requires
        known.finite(),
        budget_grew(start, *old(budget)),
        sets_wf(*dependants),
        sets_view(*dependants) == dependant_sets(known_deps(cands, known)),
        known.subset_of(cands.dom()),
        is_ready(ordering_deps(cands, known), done, hash),
        forall|c: ChangeHash| #[trigger] done.contains(c) ==> ordering_deps(cands, known).contains_key(c)
            && ordering_deps(cands, known)[c].subset_of(done),
        old(ready).wf(),
        old(ready)@ == ready_set(ordering_deps(cands, known), done).remove(hash),
        old(indegrees).wf(),
        indegrees_open(cands, known, done, old(indegrees)@),
    ensures
        budget_grew(start, *final(budget)),
        r == Err::<(), WorkStop>(WorkStop::BudgetExhausted) ==> operations_exhausted(*final(budget)),
        r == Err::<(), WorkStop>(WorkStop::Cancelled) ==> !cancellation.never_cancels(),
        r is Ok ==> {
            &&& final(ready).wf()
            &&& final(ready)@ == ready_set(ordering_deps(cands, known), done.insert(hash))
            &&& final(indegrees).wf()
            &&& indegrees_open(cands, known, done.insert(hash), final(indegrees)@)
        },
        final(budget).usage().operations() <= old(budget).usage().operations() + 1 + 5 * known.len(),
        cancellation.never_cancels() && affords(*old(budget), (1 + 5 * known.len()) as int) ==> r is Ok,
{
    let ghost entry = *budget;
    let ghost ds = ordering_deps(cands, known);
    let ghost d = known_deps(cands, known);
    let ghost done2 = done.insert(hash);
    let ghost kids = Set::new(|c: ChangeHash| d.contains_key(c) && d[c].contains(hash));
    proof {
        assert(!d[hash].contains(hash)) by {
            assert(ds[hash].subset_of(done));
        }
    }
    let c = charge_from(budget, cancellation, WorkCounter::GraphEdge, Ghost(start));
    proof {
        match c {
            Err(WorkStop::Cancelled) => {},
            Err(WorkStop::BudgetExhausted) => {},
            Ok(()) => {},
        }
    }
    if let Err(e) = c {
        return Err(e);
    }
    let children = match dependants.get(&hash) {
        Some(children) => children,
        None => {
            proof {
                assert forall|c: ChangeHash| !kids.contains(c) by {
                    if kids.contains(c) {
                        assert(dependant_sets(d).contains_key(hash));
                    }
                }
                assert forall|c: ChangeHash| #[trigger] ready_set(ds, done2).contains(c) <==> ready@.contains(c) by {
                    assert(!kids.contains(c));
                    if c != hash {
                        if ds.contains_key(c) && ds[c].contains(hash) {
                            assert(c == hash || d[c].contains(hash));
                        }
                        crate::graph::order::lemma_ready_step(ds, done, hash, c);
                    }
                }
                assert(ready@ =~= ready_set(ds, done2));
                assert forall|c: ChangeHash| #[trigger] indegrees@.contains_key(c) && !done2.contains(c)
                    implies indegrees@[c] == repeat_slack(cands, known, c) + d[c].difference(done2).len() by {
                    assert(!kids.contains(c));
                    vstd::seq_lib::seq_to_set_is_finite(cands[c].dependencies@);
                    vstd::set_lib::lemma_len_subset(d[c], cands[c].dependencies@.to_set());
                    crate::graph::order::lemma_open_step(d[c], done, hash);
                }
            }
            return Ok(());
        },
    };
    proof {
        assert(children.wf());
        assert(sets_view(*dependants)[hash] == children@);
        assert(dependant_sets(d).contains_key(hash));
        assert(children@ =~= kids);
        crate::ordered::lemma_sorted_no_duplicates(children.seq());
        assert(children.seq().take(0).to_set() =~= Set::<ChangeHash>::empty());
        assert(ready@ =~= Set::new(|c: ChangeHash| (ready_set(ds, done).contains(c) && c != hash)
            || (children.seq().take(0).to_set().contains(c) && is_ready(ds, done2, c))));
    }
    let child_count = children.len();
    proof {
        assert(kids.subset_of(known));
        vstd::set_lib::lemma_len_subset(kids, known);
    }
    for k in 0..child_count
        invariant
            entry == *old(budget),
            budget_grew(start, entry),
            child_count <= known.len(),
            budget.usage().operations() <= entry.usage().operations() + 1 + 5 * k,
            budget_grew(start, *budget),
            children.wf(),
            children@ == kids,
            child_count == children.seq().len(),
            children.seq().no_duplicates(),
            kids == Set::new(|c: ChangeHash| d.contains_key(c) && d[c].contains(hash)),
            ds == ordering_deps(cands, known),
            d == known_deps(cands, known),
            done2 == done.insert(hash),
            known.subset_of(cands.dom()),
            is_ready(ds, done, hash),
            forall|c: ChangeHash| #[trigger] done.contains(c) ==> ds.contains_key(c) && ds[c].subset_of(done),
            indegrees.wf(),
            indegrees@.dom() == known,
            forall|c: ChangeHash| #[trigger] indegrees@.contains_key(c) && !done2.contains(c)
                ==> indegrees@[c] == repeat_slack(cands, known, c) + (if children.seq().take(k as int).to_set().contains(c) {
                    d[c].difference(done2).len()
                } else {
                    d[c].difference(done).len()
                }),
            ready.wf(),
            ready@ == Set::new(|c: ChangeHash| (ready_set(ds, done).contains(c) && c != hash)
                || (children.seq().take(k as int).to_set().contains(c) && is_ready(ds, done2, c))),
    {
        let ghost taken = children.seq().take(k as int).to_set();
        let c = charge_from(budget, cancellation, WorkCounter::GraphEdge, Ghost(start));
        proof {
            match c {
                Err(WorkStop::Cancelled) => {},
                Err(WorkStop::BudgetExhausted) => {},
                Ok(()) => {},
            }
        }
        if let Err(e) = c {
            return Err(e);
        }
        let child = children.get(k);
        proof {
            assert(children.seq().contains(child));
            assert(kids.contains(child));
            assert(!done.contains(child)) by {
                if done.contains(child) {
                    assert(d[child].subset_of(ds[child]));
                    assert(d[child].contains(hash));
                }
            }
            assert(child != hash);
            assert(!taken.contains(child)) by {
                if taken.contains(child) {
                    let j = choose|j: int| 0 <= j < k && children.seq().take(k as int)[j] == child;
                    assert(children.seq()[j] == children.seq()[k as int]);
                }
            }
            assert(children.seq().take(k + 1) =~= children.seq().take(k as int).push(child));
            children.seq().take(k as int).lemma_push_to_set_commute(child);
            vstd::seq_lib::seq_to_set_is_finite(cands[child].dependencies@);
            vstd::set_lib::lemma_len_subset(d[child], cands[child].dependencies@.to_set());
            assert(d[child].difference(done).contains(hash));
            vstd::set::axiom_set_remove_len(d[child].difference(done), hash);
            crate::graph::order::lemma_open_step(d[child], done, hash);
            lemma_zero_is_ready(cands, known, done, child, indegrees@[child] as int);
        }
        let c = charge_from(budget, cancellation, WorkCounter::GraphNode, Ghost(start));
        proof {
            match c {
                Err(WorkStop::Cancelled) => {},
                Err(WorkStop::BudgetExhausted) => {},
                Ok(()) => {},
            }
        }
        if let Err(e) = c {
            return Err(e);
        }
        let pos = match indegrees.index_of(&child) {
            Some(p) => p,
            None => {
                return Err(WorkStop::Cancelled);
            },
        };
        let c = charge_from(budget, cancellation, WorkCounter::GraphNode, Ghost(start));
        proof {
            match c {
                Err(WorkStop::Cancelled) => {},
                Err(WorkStop::BudgetExhausted) => {},
                Ok(()) => {},
            }
        }
        if let Err(e) = c {
            return Err(e);
        }
        let current = *indegrees.value_at(pos);
        let updated = current - 1;
        let ghost old_indegrees = *indegrees;
        indegrees.set_value_at(pos, updated);
        proof {
            old_indegrees.lemma_position(pos as int);
            lemma_zero_is_ready(cands, known, done2, child, updated as int);
        }
        let c = charge_from(budget, cancellation, WorkCounter::GraphNode, Ghost(start));
        proof {
            match c {
                Err(WorkStop::Cancelled) => {},
                Err(WorkStop::BudgetExhausted) => {},
                Ok(()) => {},
            }
        }
        if let Err(e) = c {
            return Err(e);
        }
        if updated == 0 {
            let c = charge_from(budget, cancellation, WorkCounter::GraphNode, Ghost(start));
            proof {
                match c {
                    Err(WorkStop::Cancelled) => {},
                    Err(WorkStop::BudgetExhausted) => {},
                    Ok(()) => {},
                }
            }
            if let Err(e) = c {
                return Err(e);
            }
            ready.insert(child);
        }
        proof {
            let t2 = children.seq().take(k + 1).to_set();
            assert(ready@ =~= Set::new(|c: ChangeHash| (ready_set(ds, done).contains(c) && c != hash)
                || (t2.contains(c) && is_ready(ds, done2, c))));
            assert forall|c: ChangeHash| #[trigger] indegrees@.contains_key(c) && !done2.contains(c)
                implies indegrees@[c] == repeat_slack(cands, known, c) + (if t2.contains(c) {
                    d[c].difference(done2).len()
                } else {
                    d[c].difference(done).len()
                }) by {
                if c != child {
                    assert(old_indegrees@.contains_key(c));
                }
            }
        }
    }
    proof {
        assert(children.seq().take(child_count as int) =~= children.seq());
        assert(children.seq().to_set() =~= kids);
        assert forall|c: ChangeHash| #[trigger] ready_set(ds, done2).contains(c) <==> ready@.contains(c) by {
            if !kids.contains(c) && c != hash {
                if ds.contains_key(c) && ds[c].contains(hash) {
                    assert(d[c].contains(hash));
                }
                crate::graph::order::lemma_ready_step(ds, done, hash, c);
            }
            if kids.contains(c) {
                assert(!ready_set(ds, done).contains(c)) by {
                    assert(d[c].subset_of(ds[c]));
                }
            }
        }
        assert(ready@ =~= ready_set(ds, done2));
        assert forall|c: ChangeHash| #[trigger] indegrees@.contains_key(c) && !done2.contains(c)
            implies indegrees@[c] == repeat_slack(cands, known, c) + d[c].difference(done2).len() by {
            if !kids.contains(c) {
                vstd::seq_lib::seq_to_set_is_finite(cands[c].dependencies@);
                vstd::set_lib::lemma_len_subset(d[c], cands[c].dependencies@.to_set());
                crate::graph::order::lemma_open_step(d[c], done, hash);
            }
        }
    }
    Ok(())
}

} // verus!

verus! {

fn order_known(
    known: &OrdSet<ChangeHash>,
    candidates: &OrdMap<ChangeHash, ChangeCandidate>,
    index: &mut KnownIndex,
    budget: &mut WorkBudget,
    cancellation: &impl CancellationCheck,
    Ghost(start): Ghost<WorkBudget>,
) -> (r: Result<Vec<ChangeHash>, WorkStop>)
    requires
        budget_grew(start, *old(budget)),
        known.wf(),
        candidates.wf(),
        known@.subset_of(candidates@.dom()),
        old(index).indegrees.wf(),
        old(index).indegrees@.dom() == known@,
        forall|h: ChangeHash| #[trigger] old(index).indegrees@.contains_key(h) ==> old(index).indegrees@[h]
            == count_in(candidates@[h].dependencies@, known@),
        sets_wf(old(index).dependants),
        sets_view(old(index).dependants) == dependant_sets(known_deps(candidates@, known@)),
    ensures
        budget_grew(start, *final(budget)),
        r == Err::<Vec<ChangeHash>, WorkStop>(WorkStop::BudgetExhausted) ==> operations_exhausted(*final(budget)),
        r == Err::<Vec<ChangeHash>, WorkStop>(WorkStop::Cancelled) ==> !cancellation.never_cancels(),
        r matches Ok(ordered) ==> greedy_order(ordering_deps(candidates@, known@), ordered@),
        final(budget).usage().operations() <= old(budget).usage().operations() + 2 + 3 * known@.len() + known@.len()
            * (3 + 5 * known@.len()),
        cancellation.never_cancels() && affords(
            *old(budget),
            (2 + 3 * known@.len() + known@.len() * (3 + 5 * known@.len())) as int,
        ) ==> r is Ok,
{
    let ghost entry = *budget;
    let ghost kn: int = known@.len() as int;
    let ghost per: int = 3 + 5 * kn;
    let ghost cands = candidates@;
    let ghost kset = known@;
    let ghost ds = ordering_deps(cands, kset);
    let c = charge_from(budget, cancellation, WorkCounter::GraphNode, Ghost(start));
    proof {
        match c {
            Err(WorkStop::Cancelled) => {},
            Err(WorkStop::BudgetExhausted) => {},
            Ok(()) => {},
        }
    }
    if let Err(e) = c {
        return Err(e);
    }
    let mut ready: OrdSet<ChangeHash> = OrdSet::new();
    let n = index.indegrees.len();
    proof {
        assert forall|c: ChangeHash| #[trigger] index.indegrees@.contains_key(c) && !Set::<ChangeHash>::empty().contains(c)
            implies index.indegrees@[c] == repeat_slack(cands, kset, c) + known_deps(cands, kset)[c].difference(
            Set::<ChangeHash>::empty()).len() by {
            assert(known_deps(cands, kset)[c].difference(Set::<ChangeHash>::empty()) =~= known_deps(cands, kset)[c]);
        }
    }
    for i in 0..n
        invariant
            budget_grew(start, *budget),
            known.wf(),
            candidates.wf(),
            cands == candidates@,
            kset == known@,
            ds == ordering_deps(cands, kset),
            kset.subset_of(cands.dom()),
            n == index.indegrees.key_seq().len(),
            index.indegrees.wf(),
            indegrees_open(cands, kset, Set::<ChangeHash>::empty(), index.indegrees@),
            ready.wf(),
            ready@ == Set::new(|c: ChangeHash| index.indegrees.key_seq().take(i as int).contains(c)
                && is_ready(ds, Set::<ChangeHash>::empty(), c)),
            entry == *old(budget),
            budget_grew(start, entry),
            kn == known@.len(),
            per == 3 + 5 * kn,
            n == kn,
            budget.usage().operations() <= entry.usage().operations() + 1 + 3 * i,
    {
        let c = charge_from(budget, cancellation, WorkCounter::GraphNode, Ghost(start));
        proof {
            match c {
                Err(WorkStop::Cancelled) => {},
                Err(WorkStop::BudgetExhausted) => {},
                Ok(()) => {},
            }
        }
        if let Err(e) = c {
            return Err(e);
        }
        let hash = index.indegrees.key_at(i);
        let count = *index.indegrees.value_at(i);
        proof {
            index.indegrees.lemma_position(i as int);
            lemma_zero_is_ready(cands, kset, Set::<ChangeHash>::empty(), hash, count as int);
            assert(index.indegrees.key_seq().take(i + 1) =~= index.indegrees.key_seq().take(i as int).push(hash));
        }
        let c = charge_from(budget, cancellation, WorkCounter::GraphNode, Ghost(start));
        proof {
            match c {
                Err(WorkStop::Cancelled) => {},
                Err(WorkStop::BudgetExhausted) => {},
                Ok(()) => {},
            }
        }
        if let Err(e) = c {
            return Err(e);
        }
        if count == 0 {
            let c = charge_from(budget, cancellation, WorkCounter::GraphNode, Ghost(start));
            proof {
                match c {
                    Err(WorkStop::Cancelled) => {},
                    Err(WorkStop::BudgetExhausted) => {},
                    Ok(()) => {},
                }
            }
            if let Err(e) = c {
                return Err(e);
            }
            ready.insert(hash);
        }
        proof {
            let s0 = index.indegrees.key_seq().take(i as int);
            let s1 = index.indegrees.key_seq().take(i + 1);
            assert forall|c: ChangeHash| #[trigger] ready@.contains(c) <==> (s1.contains(c) && is_ready(
                ds,
                Set::<ChangeHash>::empty(),
                c,
            )) by {
                if s1.contains(c) {
                    let idx = choose|idx: int| 0 <= idx < s1.len() && s1[idx] == c;
                    if idx < i {
                        assert(s0[idx] == c);
                    }
                }
                if s0.contains(c) {
                    let idx = choose|idx: int| 0 <= idx < s0.len() && s0[idx] == c;
                    assert(s1[idx] == c);
                }
                if c == hash {
                    assert(s1[i as int] == c);
                }
            }
            assert(ready@ =~= Set::new(|c: ChangeHash| s1.contains(c) && is_ready(ds, Set::<ChangeHash>::empty(), c)));
        }
    }
    let ghost mut order: Seq<ChangeHash> = Seq::empty();
    let mut ordered: Vec<ChangeHash> = Vec::new();
    proof {
        index.indegrees.lemma_len();
        assert(index.indegrees.key_seq().take(n as int) =~= index.indegrees.key_seq());
        assert(order.to_set() =~= Set::<ChangeHash>::empty());
        assert(ready@ =~= ready_set(ds, order.to_set()));
        assert(greedy_prefix(ds, order));
        vstd::seq_lib::seq_to_set_is_finite(known.seq());
    }
    loop
        invariant_except_break
            budget.usage().operations() <= entry.usage().operations() + 1 + 3 * kn + order.len() * per,
        invariant
            entry == *old(budget),
            budget_grew(start, entry),
            kn == known@.len(),
            per == 3 + 5 * kn,
            budget_grew(start, *budget),
            known.wf(),
            candidates.wf(),
            cands == candidates@,
            kset == known@,
            kset.finite(),
            ds == ordering_deps(cands, kset),
            kset.subset_of(cands.dom()),
            sets_wf(index.dependants),
            sets_view(index.dependants) == dependant_sets(known_deps(cands, kset)),
            greedy_prefix(ds, order),
            ordered@ == order,
            ready.wf(),
            ready@ == ready_set(ds, order.to_set()),
            index.indegrees.wf(),
            indegrees_open(cands, kset, order.to_set(), index.indegrees@),
        ensures
            greedy_order(ds, order),
            ordered@ == order,
            budget.usage().operations() <= entry.usage().operations() + 2 + 3 * kn + kn * per,
        decreases kset.len() - order.len(),
    {
        proof {
            crate::graph::order::lemma_greedy_distinct(ds, order);
            order.unique_seq_to_set();
            vstd::set_lib::lemma_len_subset(order.to_set(), kset);
            assert(order.len() * per <= kn * per) by (nonlinear_arith)
                requires
                    order.len() <= kn,
                    per >= 0,
            ;
        }
        let c = charge_from(budget, cancellation, WorkCounter::GraphNode, Ghost(start));
        proof {
            match c {
                Err(WorkStop::Cancelled) => {},
                Err(WorkStop::BudgetExhausted) => {},
                Ok(()) => {},
            }
        }
        if let Err(e) = c {
            return Err(e);
        }
        let hash = match ready.pop_first() {
            Some(h) => h,
            None => {
                proof {
                    assert forall|c: ChangeHash| !#[trigger] is_ready(ds, order.to_set(), c) by {
                        if is_ready(ds, order.to_set(), c) {
                            assert(ready_set(ds, order.to_set()).contains(c));
                        }
                    }
                }
                break;
            },
        };
        let ghost done = order.to_set();
        proof {
            assert(is_least(ready_set(ds, done), hash));
            crate::graph::order::lemma_greedy_push(ds, order, hash);
            assert(kset.contains(hash));
            vstd::set_lib::lemma_len_subset(done.insert(hash), kset);
            assert((order.len() + 1) * per <= kn * per) by (nonlinear_arith)
                requires
                    order.len() + 1 <= kn,
                    per >= 0,
            ;
            assert((order.len() + 1) * per == order.len() * per + per) by (nonlinear_arith);
            assert forall|c: ChangeHash| #[trigger] done.contains(c) implies ds.contains_key(c) && ds[c].subset_of(done) by {
                crate::graph::order::lemma_greedy_closed(ds, order, c);
            }
        }
        let c = charge_from(budget, cancellation, WorkCounter::GraphNode, Ghost(start));
        proof {
            match c {
                Err(WorkStop::Cancelled) => {},
                Err(WorkStop::BudgetExhausted) => {},
                Ok(()) => {},
            }
        }
        if let Err(e) = c {
            return Err(e);
        }
        ordered.push(hash);
        release_known_children(
            hash,
            &index.dependants,
            &mut index.indegrees,
            &mut ready,
            budget,
            cancellation,
            Ghost(start),
            Ghost(cands),
            Ghost(kset),
            Ghost(done),
        )?;
        proof {
            order = order.push(hash);
        }
    }
    Ok(ordered)
}

/// The units gathering the dependency closure of a candidate naming `n`
/// dependencies, among `c` candidates each naming at most `d`, charges at
/// most: the ancestors, their index, their order, and the ordered and cyclic
/// sets.
pub open spec fn closure_cost(n: int, c: int, d: int) -> int {
    1 + ancestors_cost(n, c, d) + (2 + 2 * c + c * (2 + 8 * d)) + (2 + 3 * c + c * (3 + 5 * c)) + 1 + 2 * c + 3 * c
        + 1
}

/// The candidates that `candidate` reaches through its dependencies, split
/// into known candidates and missing hashes, with the known candidates in
/// least-first dependency order and those that can never be ordered.
///
/// Every step is charged to `budget` before it is taken, and the
/// cancellation signal is consulted before each charge.
pub fn candidate_dependency_closure(
    candidate: &ChangeCandidate,
    candidates: &OrdMap<ChangeHash, ChangeCandidate>,
    budget: &mut WorkBudget,
    cancellation: &impl CancellationCheck,
) -> (r: Result<CandidateDependencyClosure, CandidateClosureError>)
    requires
        candidates.wf(),
    ensures
        budget_grew(*old(budget), *final(budget)),
        r == Err::<CandidateDependencyClosure, CandidateClosureError>(WorkStop::BudgetExhausted)
            ==> operations_exhausted(*final(budget)),
        r == Err::<CandidateDependencyClosure, CandidateClosureError>(WorkStop::Cancelled)
            ==> !cancellation.never_cancels(),
        cancellation.never_cancels() && operations_exhausted(*old(budget)) ==> r == Err::<
            CandidateDependencyClosure,
            CandidateClosureError,
        >(WorkStop::BudgetExhausted),
        cancellation.always_cancels() ==> r == Err::<CandidateDependencyClosure, CandidateClosureError>(
            WorkStop::Cancelled,
        ),
        r matches Ok(c) ==> {
            &&& c.known.wf()
            &&& c.missing.wf()
            &&& c.cyclic.wf()
            &&& reachable_set(
                candidate_dep_sets(candidates@),
                candidate.dependencies@.to_set(),
                c.known@.union(c.missing@),
            )
            &&& c.known@.subset_of(candidates@.dom())
            &&& c.missing@.disjoint(candidates@.dom())
            &&& greedy_order(ordering_deps(candidates@, c.known@), c.ordered@)
            &&& c.cyclic@ == c.known@.difference(c.ordered@.to_set())
        },
        final(budget).usage().operations() <= old(budget).usage().operations() + closure_cost(
            candidate.dependencies@.len() as int,
            candidates@.dom().len() as int,
            max_deps(candidates.val_seq()) as int,
        ),
        cancellation.never_cancels() && affords(
            *old(budget),
            closure_cost(
                candidate.dependencies@.len() as int,
                candidates@.dom().len() as int,
                max_deps(candidates.val_seq()) as int,
            ),
        ) ==> r is Ok,
{
    let ghost start = *budget;
    let ghost cn = candidates@.dom().len() as int;
    proof {
        candidates.lemma_len();
    }
    let c = charge_from(budget, cancellation, WorkCounter::GraphNode, Ghost(start));
    proof {
        match c {
            Err(WorkStop::Cancelled) => {},
            Err(WorkStop::BudgetExhausted) => {},
            Ok(()) => {},
        }
    }
    if let Err(e) = c {
        return Err(e);
    }
    let ghost dmax = max_deps(candidates.val_seq()) as int;
    proof {
        lemma_map_deps_bounded(candidates);
    }
    let (known, missing) = collect_ancestors(candidate, candidates, budget, cancellation, Ghost(start), Ghost(dmax))?;
    let ghost kn = known@.len() as int;
    proof {
        vstd::set_lib::lemma_len_subset(known@, candidates@.dom());
        assert(kn * (2 + 8 * dmax) <= cn * (2 + 8 * dmax)) by (nonlinear_arith)
            requires
                kn <= cn,
                dmax >= 0,
        ;
        assert(kn * (3 + 5 * kn) <= cn * (3 + 5 * cn)) by (nonlinear_arith)
            requires
                0 <= kn <= cn,
        ;
    }
    let mut index = index_known(&known, candidates, budget, cancellation, Ghost(start), Ghost(dmax))?;
    let ordered = order_known(&known, candidates, &mut index, budget, cancellation, Ghost(start))?;
    proof {
        crate::graph::order::lemma_greedy_distinct(ordering_deps(candidates@, known@), ordered@);
        ordered@.unique_seq_to_set();
        vstd::set_lib::lemma_len_subset(ordered@.to_set(), known@);
    }
    let ghost b4 = *budget;
    let ghost cost = closure_cost(candidate.dependencies@.len() as int, cn, dmax);
    proof {
        assert(b4.usage().operations() + 2 + 5 * cn <= start.usage().operations() + cost);
    }
    let c = charge_from(budget, cancellation, WorkCounter::GraphNode, Ghost(start));
    proof {
        match c {
            Err(WorkStop::Cancelled) => {},
            Err(WorkStop::BudgetExhausted) => {},
            Ok(()) => {},
        }
    }
    if let Err(e) = c {
        return Err(e);
    }
    let mut ordered_set: OrdSet<ChangeHash> = OrdSet::new();
    let m = ordered.len();
    for i in 0..m
        invariant
            start == *old(budget),
            budget_grew(start, *budget),
            m == ordered@.len(),
            ordered_set.wf(),
            ordered_set@ == ordered@.take(i as int).to_set(),
            m <= kn,
            kn <= cn,
            budget_grew(start, b4),
            budget.usage().operations() <= b4.usage().operations() + 1 + 2 * i,
            cost == closure_cost(candidate.dependencies@.len() as int, cn, dmax),
            dmax == max_deps(candidates.val_seq()) as int,
            cn == candidates@.dom().len(),
            b4.usage().operations() + 2 + 5 * cn <= start.usage().operations() + cost,
    {
        let c = charge_from(budget, cancellation, WorkCounter::GraphNode, Ghost(start));
        proof {
            match c {
                Err(WorkStop::Cancelled) => {},
                Err(WorkStop::BudgetExhausted) => {},
                Ok(()) => {},
            }
        }
        if let Err(e) = c {
            return Err(e);
        }
        let hash = ordered[i];
        let c = charge_from(budget, cancellation, WorkCounter::GraphNode, Ghost(start));
        proof {
            match c {
                Err(WorkStop::Cancelled) => {},
                Err(WorkStop::BudgetExhausted) => {},
                Ok(()) => {},
            }
        }
        if let Err(e) = c {
            return Err(e);
        }
        ordered_set.insert(hash);
        proof {
            assert(ordered@.take(i + 1) =~= ordered@.take(i as int).push(hash));
            ordered@.take(i as int).lemma_push_to_set_commute(hash);
        }
    }
    proof {
        assert(ordered@.take(m as int) =~= ordered@);
    }
    let mut cyclic: OrdSet<ChangeHash> = OrdSet::new();
    let n = known.len();
    for i in 0..n
        invariant
            start == *old(budget),
            budget_grew(start, *budget),
            known.wf(),
            n == known.seq().len(),
            ordered_set.wf(),
            cyclic.wf(),
            cyclic@ == known.seq().take(i as int).to_set().difference(ordered_set@),
            m <= kn,
            kn <= cn,
            n == kn,
            budget_grew(start, b4),
            budget.usage().operations() <= b4.usage().operations() + 1 + 2 * m + 3 * i,
            cost == closure_cost(candidate.dependencies@.len() as int, cn, dmax),
            dmax == max_deps(candidates.val_seq()) as int,
            cn == candidates@.dom().len(),
            b4.usage().operations() + 2 + 5 * cn <= start.usage().operations() + cost,
    {
        let c = charge_from(budget, cancellation, WorkCounter::GraphNode, Ghost(start));
        proof {
            match c {
                Err(WorkStop::Cancelled) => {},
                Err(WorkStop::BudgetExhausted) => {},
                Ok(()) => {},
            }
        }
        if let Err(e) = c {
            return Err(e);
        }
        let hash = known.get(i);
        let c = charge_from(budget, cancellation, WorkCounter::GraphNode, Ghost(start));
        proof {
            match c {
                Err(WorkStop::Cancelled) => {},
                Err(WorkStop::BudgetExhausted) => {},
                Ok(()) => {},
            }
        }
        if let Err(e) = c {
            return Err(e);
        }
        if !ordered_set.contains(&hash) {
            let c = charge_from(budget, cancellation, WorkCounter::GraphNode, Ghost(start));
            proof {
                match c {
                    Err(WorkStop::Cancelled) => {},
                    Err(WorkStop::BudgetExhausted) => {},
                    Ok(()) => {},
                }
            }
            if let Err(e) = c {
                return Err(e);
            }
            cyclic.insert(hash);
        }
        proof {
            assert(known.seq().take(i + 1) =~= known.seq().take(i as int).push(hash));
            known.seq().take(i as int).lemma_push_to_set_commute(hash);
            assert(cyclic@ =~= known.seq().take(i + 1).to_set().difference(ordered_set@));
        }
    }
    proof {
        assert(known.seq().take(n as int) =~= known.seq());
    }
    let c = charge_from(budget, cancellation, WorkCounter::GraphNode, Ghost(start));
    proof {
        match c {
            Err(WorkStop::Cancelled) => {},
            Err(WorkStop::BudgetExhausted) => {},
            Ok(()) => {},
        }
    }
    if let Err(e) = c {
        return Err(e);
    }
    Ok(CandidateDependencyClosure { known, missing, cyclic, ordered })
}

} // verus!
