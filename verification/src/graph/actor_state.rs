//! Per-actor sequence and causal-counter state of an accepted closure.
//!
//! The accepted closure is processed in least-first topological order. Each
//! change must continue its actor's sequence and start at the causal
//! operation counter of its dependencies.

use vstd::prelude::*;
use crate::graph::change_candidate::ChangeCandidate;
use crate::graph::order::{
    dependant_sets, greedy_order, greedy_prefix, is_least, is_ready, lemma_dependant_sets_add,
    lemma_dependant_sets_new, ready_set,
};
use crate::ordered::{OrdMap, OrdSet, insert_into_set_entry, sets_view, sets_wf, strictly_sorted};
use crate::types::{ActorId, ChangeHash, OrderedKey};
use crate::work_budget::{
    CancellationCheck, WorkBudget, affords, WorkCounter, WorkStop, budget_grew, charge_from,
    lemma_budget_grew_trans, operations_exhausted,
};

verus! {

/// What an actor has written so far in an accepted closure.
#[derive(Clone, Copy, Debug, PartialEq, Eq, Structural)]
pub struct EpochActorState {
    /// The actor's latest sequence number.
    pub last_sequence: u64,
    /// The causal operation counter after the actor's latest change.
    pub next_op: u64,
    /// The actor's latest change.
    pub highest_change: ChangeHash,
}

/// Why an accepted closure or a candidate breaks actor or causal rules.
#[derive(Clone, Copy, Debug, PartialEq, Eq, Structural)]
pub enum ActorStateError {
    /// The input is not in canonical form.
    NoncanonicalInput,
    /// A sequence number skips ahead, or cannot be advanced.
    SequenceGap,
    /// Two changes claim the same actor sequence.
    Equivocation,
    /// A change does not start at the causal operation counter.
    OperationCounter,
    /// The actor's predecessor is not where it should be.
    MissingPredecessor,
    /// Two predecessors of one actor run in parallel.
    ParallelPredecessor,
    /// A sequence number goes backwards.
    SequenceRollback,
    /// An empty change was required but the change has operations.
    EmptyChange,
    /// A change with operations was required but the change is empty.
    NonEmptyChange,
    /// An empty change does not name exactly the current frontier.
    DependencyFrontier,
    /// A dependency is not available.
    MissingDependency,
    /// Dependencies form a cycle.
    DependencyCycle,
}

/// Why a metered actor-state computation stopped.
#[derive(Clone, Copy, Debug, PartialEq, Eq, Structural)]
pub enum MeteredActorStateError {
    /// The work budget or the cancellation signal stopped it.
    Work(WorkStop),
    /// The input breaks an actor or causal rule.
    State(ActorStateError),
}

/// Charges one operation unit, reporting a stop as a metered error.
fn charge_step(
    budget: &mut WorkBudget,
    cancellation: &impl CancellationCheck,
    counter: WorkCounter,
    Ghost(start): Ghost<WorkBudget>,
) -> (r: Result<(), MeteredActorStateError>)
    requires
        budget_grew(start, *old(budget)),
        counter != WorkCounter::DecodeByte,
    ensures
        budget_grew(start, *final(budget)),
        budget_grew(*old(budget), *final(budget)),
        r is Ok ==> final(budget).usage().operations() == old(budget).usage().operations() + 1,
        r is Err ==> final(budget).usage() == old(budget).usage(),
        r matches Err(e) ==> e is Work,
        r == Err::<(), MeteredActorStateError>(MeteredActorStateError::Work(WorkStop::BudgetExhausted))
            ==> operations_exhausted(*final(budget)),
        r == Err::<(), MeteredActorStateError>(MeteredActorStateError::Work(WorkStop::Cancelled))
            ==> !cancellation.never_cancels(),
        cancellation.always_cancels() ==> r == Err::<(), MeteredActorStateError>(
            MeteredActorStateError::Work(WorkStop::Cancelled),
        ),
        final(budget).usage().operations() <= final(budget).operation_limit(),
{
    match charge_from(budget, cancellation, counter, Ghost(start)) {
        Ok(()) => Ok(()),
        Err(stop) => Err(MeteredActorStateError::Work(stop)),
    }
}

/// The first problem among the first `n` dependencies of a member.
pub open spec fn dep_problem(closure: Set<ChangeHash>, deps: Seq<ChangeHash>, n: int) -> Option<ActorStateError>
    decreases n,
{
    if n <= 0 {
        None
    } else {
        match dep_problem(closure, deps, n - 1) {
            Some(e) => Some(e),
            None => if n > 1 && !deps[n - 2].precedes(deps[n - 1]) {
                Some(ActorStateError::NoncanonicalInput)
            } else if !closure.contains(deps[n - 1]) {
                Some(ActorStateError::MissingDependency)
            } else {
                None
            },
        }
    }
}

/// The problem member `h` of the closure raises, if any.
pub open spec fn member_problem(
    closure: Set<ChangeHash>,
    changes: Map<ChangeHash, ChangeCandidate>,
    h: ChangeHash,
) -> Option<ActorStateError> {
    if !changes.contains_key(h) {
        Some(ActorStateError::MissingDependency)
    } else if changes[h].change_hash != h {
        Some(ActorStateError::NoncanonicalInput)
    } else {
        dep_problem(closure, changes[h].dependencies@, changes[h].dependencies@.len() as int)
    }
}

/// The first problem among the first `n` members in ascending order.
pub open spec fn first_member_problem(
    members: Seq<ChangeHash>,
    changes: Map<ChangeHash, ChangeCandidate>,
    n: int,
) -> Option<ActorStateError>
    decreases n,
{
    if n <= 0 {
        None
    } else {
        match first_member_problem(members, changes, n - 1) {
            Some(e) => Some(e),
            None => member_problem(members.to_set(), changes, members[n - 1]),
        }
    }
}

/// The dependency sets of the members among the first `n` in `members`.
pub open spec fn member_deps(
    members: Seq<ChangeHash>,
    changes: Map<ChangeHash, ChangeCandidate>,
    n: int,
) -> Map<ChangeHash, Set<ChangeHash>> {
    Map::new(
        |h: ChangeHash| members.take(n).contains(h),
        |h: ChangeHash| changes[h].dependencies@.to_set(),
    )
}

/// Once a prefix has a problem, every longer prefix reports that problem.
pub proof fn lemma_member_problem_stops(
    members: Seq<ChangeHash>,
    changes: Map<ChangeHash, ChangeCandidate>,
    a: int,
    b: int,
)
    requires
        1 <= a <= b,
        first_member_problem(members, changes, a) is Some,
    ensures
        first_member_problem(members, changes, b) == first_member_problem(members, changes, a),
    decreases b - a,
{
    if a < b {
        lemma_member_problem_stops(members, changes, a, b - 1);
    }
}

/// Once a dependency prefix has a problem, every longer prefix reports it.
pub proof fn lemma_dep_problem_stops(closure: Set<ChangeHash>, deps: Seq<ChangeHash>, a: int, b: int)
    requires
        1 <= a <= b,
        dep_problem(closure, deps, a) is Some,
    ensures
        dep_problem(closure, deps, b) == dep_problem(closure, deps, a),
    decreases b - a,
{
    if a < b {
        lemma_dep_problem_stops(closure, deps, a, b - 1);
    }
}

/// A problem-free dependency list is strictly ascending and lies in the closure.
pub proof fn lemma_dep_problem_none(closure: Set<ChangeHash>, deps: Seq<ChangeHash>, n: int)
    requires
        0 <= n <= deps.len(),
        dep_problem(closure, deps, n) is None,
    ensures
        forall|k: int| 0 <= k < n ==> closure.contains(#[trigger] deps[k]),
        forall|k: int| 0 < k < n ==> (#[trigger] deps[k - 1]).precedes(deps[k]),
    decreases n,
{
    if n > 0 {
        lemma_dep_problem_none(closure, deps, n - 1);
    }
}

/// A problem-free, strictly ascending dependency prefix is no longer than the closure.
pub proof fn lemma_dep_prefix_len(closure: Seq<ChangeHash>, deps: Seq<ChangeHash>, k: int)
    requires
        0 <= k <= deps.len(),
        dep_problem(closure.to_set(), deps, k) is None,
        strictly_sorted(deps.take(k)),
    ensures
        k <= closure.to_set().len(),
{
    lemma_dep_problem_none(closure.to_set(), deps, k);
    crate::ordered::lemma_sorted_no_duplicates(deps.take(k));
    assert forall|x: ChangeHash| deps.take(k).to_set().contains(x) implies closure.to_set().contains(x) by {
        let j = choose|j: int| 0 <= j < k && deps.take(k)[j] == x;
        assert(deps[j] == x);
    }
    vstd::seq_lib::seq_to_set_is_finite(closure);
    vstd::set_lib::lemma_len_subset(deps.take(k).to_set(), closure.to_set());
}

/// The units checking the dependencies of one member charges at most, in a
/// closure of `n` members.
pub open spec fn dep_check_cost(n: int) -> int {
    8 + 7 * n
}

/// The units indexing one member charges at most, in a closure of `n` members.
pub open spec fn member_index_cost(n: int) -> int {
    9 + dep_check_cost(n)
}

/// The units processing one member charges at most, in a closure of `n` members.
pub open spec fn member_process_cost(n: int) -> int {
    20 + 9 * n
}

/// The units building the projection of a closure of `n` members charges at most.
pub open spec fn projection_cost(n: int) -> int {
    6 + n * (member_index_cost(n) + member_process_cost(n))
}

} // verus!

verus! {

/// The membership facts gathered from a problem-free closure.
pub struct MemberIndex {
    /// Each member's dependency set.
    pub dependencies: OrdMap<ChangeHash, OrdSet<ChangeHash>>,
    /// Every change some member depends on.
    pub depended_on: OrdSet<ChangeHash>,
    /// For each member, how many dependencies are not processed yet.
    pub remaining: OrdMap<ChangeHash, usize>,
    /// For each depended-on change, the members depending on it.
    pub dependants: OrdMap<ChangeHash, OrdSet<ChangeHash>>,
    /// The members with no dependency.
    pub ready: OrdSet<ChangeHash>,
}

/// `x` holds the index of the dependency sets `d`.
pub open spec fn indexes(x: MemberIndex, d: Map<ChangeHash, Set<ChangeHash>>) -> bool {
    &&& sets_wf(x.dependencies)
    &&& sets_view(x.dependencies) == d
    &&& x.depended_on.wf()
    &&& x.depended_on@ == dependant_sets(d).dom()
    &&& x.remaining.wf()
    &&& x.remaining@.dom() == d.dom()
    &&& forall|h: ChangeHash| #[trigger] x.remaining@.contains_key(h) ==> x.remaining@[h] == d[h].len()
    &&& sets_wf(x.dependants)
    &&& sets_view(x.dependants) == dependant_sets(d)
    &&& x.ready.wf()
    &&& x.ready@ == ready_set(d, Set::<ChangeHash>::empty())
}

fn index_member_dependencies(
    closure: &OrdSet<ChangeHash>,
    hash: ChangeHash,
    candidate: &ChangeCandidate,
    index: &mut MemberIndex,
    budget: &mut WorkBudget,
    cancellation: &impl CancellationCheck,
    Ghost(start): Ghost<WorkBudget>,
    Ghost(d): Ghost<Map<ChangeHash, Set<ChangeHash>>>,
) -> (r: Result<OrdSet<ChangeHash>, MeteredActorStateError>)
    requires
        budget_grew(start, *old(budget)),
        closure.wf(),
        !d.contains_key(hash),
        sets_wf(old(index).dependants),
        sets_view(old(index).dependants) == dependant_sets(d),
        old(index).depended_on.wf(),
        old(index).depended_on@ == dependant_sets(d).dom(),
    ensures
        budget_grew(start, *final(budget)),
        r == Err::<OrdSet<ChangeHash>, MeteredActorStateError>(MeteredActorStateError::Work(WorkStop::BudgetExhausted))
            ==> operations_exhausted(*final(budget)),
        r == Err::<OrdSet<ChangeHash>, MeteredActorStateError>(MeteredActorStateError::Work(WorkStop::Cancelled))
            ==> !cancellation.never_cancels(),
        final(index).dependencies == old(index).dependencies,
        final(index).remaining == old(index).remaining,
        final(index).ready == old(index).ready,
        r matches Err(MeteredActorStateError::State(e)) ==> dep_problem(
            closure@,
            candidate.dependencies@,
            candidate.dependencies@.len() as int,
        ) == Some(e),
        r matches Ok(set) ==> {
            let full = d.insert(hash, candidate.dependencies@.to_set());
            &&& dep_problem(closure@, candidate.dependencies@, candidate.dependencies@.len() as int) is None
            &&& strictly_sorted(candidate.dependencies@)
            &&& set.wf()
            &&& set@ == candidate.dependencies@.to_set()
            &&& sets_wf(final(index).dependants)
            &&& sets_view(final(index).dependants) == dependant_sets(full)
            &&& final(index).depended_on.wf()
            &&& final(index).depended_on@ == dependant_sets(full).dom()
        },
        final(budget).usage().operations() <= old(budget).usage().operations() + dep_check_cost(closure@.len() as int),
        cancellation.never_cancels() && affords(*old(budget), dep_check_cost(closure@.len() as int)) ==> !(r matches Err(
            MeteredActorStateError::Work(_),
        )),
{
    let ghost deps = candidate.dependencies@;
    let ghost entry = *budget;
    let ghost cost = dep_check_cost(closure@.len() as int);
    let mut set: OrdSet<ChangeHash> = OrdSet::new();
    charge_step(budget, cancellation, WorkCounter::GraphNode, Ghost(start))?;
    let m = candidate.dependencies.len();
    proof {
        assert(deps.take(0).to_set() =~= Set::<ChangeHash>::empty());
        lemma_dependant_sets_new(d, hash);
    }
    for k in 0..m
        invariant
            budget_grew(start, *budget),
            closure.wf(),
            m == deps.len(),
            deps == candidate.dependencies@,
            !d.contains_key(hash),
            index.dependencies == old(index).dependencies,
            index.remaining == old(index).remaining,
            index.ready == old(index).ready,
            dep_problem(closure@, deps, k as int) is None,
            strictly_sorted(deps.take(k as int)),
            set.wf(),
            set@ == deps.take(k as int).to_set(),
            sets_wf(index.dependants),
            sets_view(index.dependants) == dependant_sets(d.insert(hash, deps.take(k as int).to_set())),
            index.depended_on.wf(),
            index.depended_on@ == dependant_sets(d.insert(hash, deps.take(k as int).to_set())).dom(),
            entry == *old(budget),
            budget_grew(entry, *budget),
            cost == dep_check_cost(closure@.len() as int),
            budget.usage().operations() <= entry.usage().operations() + 1 + 7 * k,
    {
        proof {
            lemma_dep_prefix_len(closure.seq(), deps, k as int);
        }
        charge_step(budget, cancellation, WorkCounter::GraphEdge, Ghost(start))?;
        let dependency = candidate.dependencies[k];
        if k > 0 {
            charge_step(budget, cancellation, WorkCounter::GraphEdge, Ghost(start))?;
            let previous = candidate.dependencies[k - 1];
            if !previous.less_than(&dependency) {
                proof {
                    assert(dep_problem(closure@, deps, k + 1) == Some(ActorStateError::NoncanonicalInput));
                    lemma_dep_problem_stops(closure@, deps, k + 1, m as int);
                }
                return Err(MeteredActorStateError::State(ActorStateError::NoncanonicalInput));
            }
        }
        charge_step(budget, cancellation, WorkCounter::GraphEdge, Ghost(start))?;
        if !closure.contains(&dependency) {
            proof {
                assert(dep_problem(closure@, deps, k + 1) == Some(ActorStateError::MissingDependency));
                lemma_dep_problem_stops(closure@, deps, k + 1, m as int);
            }
            return Err(MeteredActorStateError::State(ActorStateError::MissingDependency));
        }
        let ghost before = d.insert(hash, deps.take(k as int).to_set());
        charge_step(budget, cancellation, WorkCounter::GraphEdge, Ghost(start))?;
        set.insert(dependency);
        charge_step(budget, cancellation, WorkCounter::GraphEdge, Ghost(start))?;
        index.depended_on.insert(dependency);
        charge_step(budget, cancellation, WorkCounter::GraphEdge, Ghost(start))?;
        charge_step(budget, cancellation, WorkCounter::GraphEdge, Ghost(start))?;
        insert_into_set_entry(&mut index.dependants, dependency, hash);
        proof {
            assert(deps.take(k + 1) =~= deps.take(k as int).push(dependency));
            deps.take(k as int).lemma_push_to_set_commute(dependency);
            lemma_dependant_sets_add(before, hash, dependency);
            assert(before.insert(hash, before[hash].insert(dependency)) =~= d.insert(hash, deps.take(k + 1).to_set()));
            assert(dep_problem(closure@, deps, k + 1) is None);
            assert forall|a: int, b: int| 0 <= a < b < k + 1 implies #[trigger] deps.take(k + 1)[a].precedes(
                #[trigger] deps.take(k + 1)[b]) by {
                if b == k && a < k - 1 {
                    ChangeHash::lemma_order(deps[a], deps[k - 1], deps[b]);
                    assert(deps.take(k as int)[a].precedes(deps.take(k as int)[k - 1]));
                } else if b < k {
                    assert(deps.take(k as int)[a].precedes(deps.take(k as int)[b]));
                }
            }
            assert(index.depended_on@ =~= dependant_sets(d.insert(hash, deps.take(k + 1).to_set())).dom());
        }
    }
    proof {
        assert(deps.take(m as int) =~= deps);
        lemma_dep_prefix_len(closure.seq(), deps, m as int);
    }
    Ok(set)
}

} // verus!

verus! {

fn index_members(
    closure: &OrdSet<ChangeHash>,
    changes: &OrdMap<ChangeHash, ChangeCandidate>,
    budget: &mut WorkBudget,
    cancellation: &impl CancellationCheck,
    Ghost(start): Ghost<WorkBudget>,
) -> (r: Result<MemberIndex, MeteredActorStateError>)
    requires
        budget_grew(start, *old(budget)),
        closure.wf(),
        changes.wf(),
    ensures
        budget_grew(start, *final(budget)),
        r == Err::<MemberIndex, MeteredActorStateError>(MeteredActorStateError::Work(WorkStop::BudgetExhausted))
            ==> operations_exhausted(*final(budget)),
        r == Err::<MemberIndex, MeteredActorStateError>(MeteredActorStateError::Work(WorkStop::Cancelled))
            ==> !cancellation.never_cancels(),
        r matches Err(MeteredActorStateError::State(e)) ==> first_member_problem(
            closure.seq(),
            changes@,
            closure.seq().len() as int,
        ) == Some(e),
        r matches Ok(x) ==> {
            &&& first_member_problem(closure.seq(), changes@, closure.seq().len() as int) is None
            &&& indexes(x, member_deps(closure.seq(), changes@, closure.seq().len() as int))
        },
        final(budget).usage().operations() <= old(budget).usage().operations() + closure@.len() * member_index_cost(
            closure@.len() as int,
        ),
        cancellation.never_cancels() && affords(
            *old(budget),
            closure@.len() * member_index_cost(closure@.len() as int),
        ) ==> !(r matches Err(MeteredActorStateError::Work(_))),
{
    let ghost members = closure.seq();
    let ghost entry = *budget;
    let n = closure.len();
    let ghost per = member_index_cost(n as int);
    let mut index = MemberIndex {
        dependencies: OrdMap::new(),
        depended_on: OrdSet::new(),
        remaining: OrdMap::new(),
        dependants: OrdMap::new(),
        ready: OrdSet::new(),
    };
    proof {
        let d0 = member_deps(members, changes@, 0);
        assert(d0 =~= Map::<ChangeHash, Set<ChangeHash>>::empty());
        assert(dependant_sets(d0) =~= Map::<ChangeHash, Set<ChangeHash>>::empty());
        assert(sets_view(index.dependencies) =~= d0);
        assert(sets_view(index.dependants) =~= dependant_sets(d0));
        assert(ready_set(d0, Set::<ChangeHash>::empty()) =~= Set::<ChangeHash>::empty());
        assert(index.remaining@.dom() =~= d0.dom());
    }
    for i in 0..n
        invariant
            budget_grew(start, *budget),
            closure.wf(),
            changes.wf(),
            members == closure.seq(),
            n == members.len(),
            first_member_problem(members, changes@, i as int) is None,
            indexes(index, member_deps(members, changes@, i as int)),
            entry == *old(budget),
            budget_grew(start, entry),
            n == closure@.len(),
            per == member_index_cost(n as int),
            budget.usage().operations() <= entry.usage().operations() + i * per,
    {
        proof {
            assert((i + 1) * per == i * per + per) by (nonlinear_arith);
            assert((i + 1) * per <= n * per) by (nonlinear_arith)
                requires
                    i < n,
                    per >= 0,
            ;
        }
        let ghost d = member_deps(members, changes@, i as int);
        charge_step(budget, cancellation, WorkCounter::GraphNode, Ghost(start))?;
        let hash = closure.get(i);
        if i > 0 {
            charge_step(budget, cancellation, WorkCounter::GraphNode, Ghost(start))?;
        }
        charge_step(budget, cancellation, WorkCounter::GraphNode, Ghost(start))?;
        proof {
            assert(members.to_set().contains(hash));
            crate::ordered::lemma_sorted_no_duplicates(members);
            assert(!d.contains_key(hash)) by {
                if members.take(i as int).contains(hash) {
                    let j = choose|j: int| 0 <= j < i && members.take(i as int)[j] == hash;
                    assert(members[j] == members[i as int]);
                }
            }
        }
        charge_step(budget, cancellation, WorkCounter::GraphNode, Ghost(start))?;
        let candidate = match changes.get(&hash) {
            Some(c) => c,
            None => {
                proof {
                    assert(member_problem(members.to_set(), changes@, hash) == Some(ActorStateError::MissingDependency));
                    lemma_member_problem_stops(members, changes@, i + 1, n as int);
                }
                return Err(MeteredActorStateError::State(ActorStateError::MissingDependency));
            },
        };
        charge_step(budget, cancellation, WorkCounter::GraphNode, Ghost(start))?;
        if !candidate.change_hash.same_as(&hash) {
            proof {
                assert(member_problem(members.to_set(), changes@, hash) == Some(ActorStateError::NoncanonicalInput));
                lemma_member_problem_stops(members, changes@, i + 1, n as int);
            }
            return Err(MeteredActorStateError::State(ActorStateError::NoncanonicalInput));
        }
        let ghost old_index = index;
        let set = match index_member_dependencies(
            closure,
            hash,
            candidate,
            &mut index,
            budget,
            cancellation,
            Ghost(start),
            Ghost(d),
        ) {
            Ok(s) => s,
            Err(e) => {
                proof {
                    if let MeteredActorStateError::State(s) = e {
                        assert(member_problem(members.to_set(), changes@, hash) == Some(s));
                        lemma_member_problem_stops(members, changes@, i + 1, n as int);
                    }
                }
                return Err(e);
            },
        };
        let ghost full = d.insert(hash, candidate.dependencies@.to_set());
        proof {
            assert(full =~= member_deps(members, changes@, i + 1)) by {
                assert(members.take(i + 1) =~= members.take(i as int).push(hash));
                members.take(i as int).lemma_push_to_set_commute(hash);
                assert forall|h: ChangeHash| members.take(i + 1).contains(h) <==> (members.take(i as int).contains(h) || h == hash) by {
                    assert(members.take(i + 1).to_set().contains(h) == members.take(i + 1).contains(h));
                }
            }
            assert(member_problem(members.to_set(), changes@, hash) is None);
            assert(first_member_problem(members, changes@, i + 1) is None);
        }
        charge_step(budget, cancellation, WorkCounter::GraphNode, Ghost(start))?;
        let empty = set.is_empty();
        if empty {
            charge_step(budget, cancellation, WorkCounter::GraphNode, Ghost(start))?;
            index.ready.insert(hash);
        }
        charge_step(budget, cancellation, WorkCounter::GraphNode, Ghost(start))?;
        let count = candidate.dependencies.len();
        index.remaining.insert(hash, count);
        charge_step(budget, cancellation, WorkCounter::GraphNode, Ghost(start))?;
        index.dependencies.insert(hash, set);
        proof {
            crate::ordered::lemma_sorted_no_duplicates(candidate.dependencies@);
            assert(sets_wf(index.dependencies)) by {
                assert forall|k: ChangeHash| #[trigger] index.dependencies@.contains_key(k) implies index.dependencies@[k].wf() by {
                    if k != hash {
                        assert(old_index.dependencies@.contains_key(k));
                    }
                }
            }
            assert(sets_view(index.dependencies) =~= full);
            assert(index.remaining@.dom() =~= full.dom());
            assert forall|h: ChangeHash| #[trigger] index.remaining@.contains_key(h) implies index.remaining@[h] == full[h].len() by {
                if h != hash {
                    assert(old_index.remaining@.contains_key(h));
                }
            }
            assert(index.ready@ =~= ready_set(full, Set::<ChangeHash>::empty())) by {
                assert forall|c: ChangeHash| index.ready@.contains(c) <==> ready_set(full, Set::<ChangeHash>::empty()).contains(c) by {
                    if c == hash {
                        if !empty {
                            let x = set.seq()[0];
                            assert(set@.contains(x));
                        } else {
                            assert(set@ =~= Set::<ChangeHash>::empty());
                        }
                    }
                }
            }
        }
    }
    proof {
        assert(members.take(n as int) =~= members);
    }
    Ok(index)
}

} // verus!

verus! {

/// What replaying a prefix of the processing order has established.
pub struct Replay {
    /// Each actor's state after its latest processed change.
    pub states: Map<ActorId, EpochActorState>,
    /// Each actor's latest processed change.
    pub writers: Map<ActorId, ChangeHash>,
    /// For processed changes, the counter after them; for their dependants,
    /// the greatest such counter among processed dependencies.
    pub causal: Map<ChangeHash, u64>,
    /// The greatest counter reached so far, at least one.
    pub next_op: u64,
}

/// Nothing replayed yet.
pub open spec fn replay_start() -> Replay {
    Replay {
        states: Map::empty(),
        writers: Map::empty(),
        causal: Map::empty(),
        next_op: 1,
    }
}

/// The nodes that depend on `h`.
pub open spec fn children_of_node(deps: Map<ChangeHash, Set<ChangeHash>>, h: ChangeHash) -> Set<ChangeHash> {
    Set::new(|c: ChangeHash| deps.contains_key(c) && deps[c].contains(h))
}

/// The larger of two counters.
pub open spec fn max_u64(a: u64, b: u64) -> u64 {
    if a >= b {
        a
    } else {
        b
    }
}

/// `causal` with every member of `kids` raised to at least `advanced`.
pub open spec fn raise_causal(causal: Map<ChangeHash, u64>, kids: Set<ChangeHash>, advanced: u64) -> Map<
    ChangeHash,
    u64,
> {
    Map::new(
        |x: ChangeHash| causal.contains_key(x) || kids.contains(x),
        |x: ChangeHash|
            if kids.contains(x) {
                if causal.contains_key(x) {
                    max_u64(causal[x], advanced)
                } else {
                    advanced
                }
            } else {
                causal[x]
            },
    )
}

/// The sequence number a change of `actor` must carry next.
pub open spec fn expected_sequence(states: Map<ActorId, EpochActorState>, actor: ActorId) -> Option<u64> {
    if !states.contains_key(actor) {
        Some(1)
    } else if states[actor].last_sequence == u64::MAX {
        None
    } else {
        Some((states[actor].last_sequence + 1) as u64)
    }
}

/// The operation counter a change `h` must start at.
pub open spec fn expected_start(causal: Map<ChangeHash, u64>, h: ChangeHash) -> u64 {
    if causal.contains_key(h) {
        causal[h]
    } else {
        1
    }
}

/// The counter after a change that starts at `next` and has `count` operations.
pub open spec fn advanced_counter(next: u64, count: u64) -> Option<u64> {
    if count == 0 {
        Some(next)
    } else if next + count > u64::MAX {
        None
    } else {
        Some((next + count) as u64)
    }
}

/// Processes change `c` (whose hash is `h`) on top of `acc`.
pub open spec fn replay_step(
    deps: Map<ChangeHash, Set<ChangeHash>>,
    acc: Replay,
    h: ChangeHash,
    c: ChangeCandidate,
) -> Result<Replay, ActorStateError> {
    match expected_sequence(acc.states, c.actor) {
        None => Err(ActorStateError::SequenceGap),
        Some(expected) => if c.sequence < expected {
            Err(ActorStateError::Equivocation)
        } else if c.sequence != expected {
            Err(ActorStateError::SequenceGap)
        } else if c.start_op != expected_start(acc.causal, h) {
            Err(ActorStateError::OperationCounter)
        } else {
            match advanced_counter(c.start_op, c.operation_count) {
                None => Err(ActorStateError::OperationCounter),
                Some(advanced) => Ok(
                    Replay {
                        states: acc.states.insert(
                            c.actor,
                            EpochActorState {
                                last_sequence: c.sequence,
                                next_op: advanced,
                                highest_change: h,
                            },
                        ),
                        writers: acc.writers.insert(c.actor, h),
                        causal: raise_causal(acc.causal.insert(h, advanced), children_of_node(deps, h), advanced),
                        next_op: max_u64(acc.next_op, advanced),
                    },
                ),
            }
        },
    }
}

/// Replays the first `n` changes of the processing order `o`.
pub open spec fn replay(
    deps: Map<ChangeHash, Set<ChangeHash>>,
    changes: Map<ChangeHash, ChangeCandidate>,
    o: Seq<ChangeHash>,
    n: int,
) -> Result<Replay, ActorStateError>
    decreases n,
{
    if n <= 0 {
        Ok(replay_start())
    } else {
        match replay(deps, changes, o, n - 1) {
            Err(e) => Err(e),
            Ok(acc) => replay_step(deps, acc, o[n - 1], changes[o[n - 1]]),
        }
    }
}

/// Once a replay prefix fails, every longer prefix fails the same way.
pub proof fn lemma_replay_stops(
    deps: Map<ChangeHash, Set<ChangeHash>>,
    changes: Map<ChangeHash, ChangeCandidate>,
    o: Seq<ChangeHash>,
    a: int,
    b: int,
)
    requires
        0 <= a <= b,
        replay(deps, changes, o, a) is Err,
    ensures
        replay(deps, changes, o, b) == replay(deps, changes, o, a),
    decreases b - a,
{
    if a < b {
        lemma_replay_stops(deps, changes, o, a, b - 1);
    }
}

} // verus!

verus! {

/// Replay reads only the prefix it is asked for.
pub proof fn lemma_replay_prefix(
    deps: Map<ChangeHash, Set<ChangeHash>>,
    changes: Map<ChangeHash, ChangeCandidate>,
    o: Seq<ChangeHash>,
    p: Seq<ChangeHash>,
    n: int,
)
    requires
        0 <= n <= o.len(),
        n <= p.len(),
        o.take(n) == p.take(n),
    ensures
        replay(deps, changes, o, n) == replay(deps, changes, p, n),
    decreases n,
{
    if n > 0 {
        assert(o.take(n - 1) =~= p.take(n - 1)) by {
            assert forall|i: int| 0 <= i < n - 1 implies #[trigger] o.take(n - 1)[i] == p.take(n - 1)[i] by {
                assert(o.take(n)[i] == p.take(n)[i]);
            }
        }
        lemma_replay_prefix(deps, changes, o, p, n - 1);
        assert(o[n - 1] == o.take(n)[n - 1]);
        assert(p[n - 1] == p.take(n)[n - 1]);
    }
}

/// The state of the processing loop after the changes in `order`.
pub struct ProcessingState {
    /// Changes that no member depends on, among those processed.
    pub frontier: OrdSet<ChangeHash>,
    /// Each actor's state.
    pub states: OrdMap<ActorId, EpochActorState>,
    /// Each actor's latest change.
    pub writers: OrdMap<ActorId, ChangeHash>,
    /// The counter each processed change ends at, or each dependant starts at.
    pub causal: OrdMap<ChangeHash, u64>,
    /// The greatest counter reached.
    pub causal_next_op: u64,
    /// How many changes were processed.
    pub processed: usize,
}

/// `s` holds the replayed state `acc` of the processed changes `done`.
pub open spec fn holds_replay(s: ProcessingState, acc: Replay, done: Set<ChangeHash>, depended_on: Set<ChangeHash>) -> bool {
    &&& s.frontier.wf()
    &&& s.frontier@ == done.difference(depended_on)
    &&& s.states.wf()
    &&& s.states@ == acc.states
    &&& s.writers.wf()
    &&& s.writers@ == acc.writers
    &&& s.causal.wf()
    &&& s.causal@ == acc.causal
    &&& s.causal_next_op == acc.next_op
}

/// The candidates of the closure's members are the members themselves.
pub open spec fn members_known(deps: Map<ChangeHash, Set<ChangeHash>>, changes: Map<ChangeHash, ChangeCandidate>) -> bool {
    forall|h: ChangeHash| #[trigger] deps.contains_key(h) ==> {
        &&& changes.contains_key(h)
        &&& changes[h].change_hash == h
        &&& deps[h] == changes[h].dependencies@.to_set()
    }
}

} // verus!

verus! {

/// Every node's dependency set is finite.
pub open spec fn finite_deps(d: Map<ChangeHash, Set<ChangeHash>>) -> bool {
    forall|c: ChangeHash| #[trigger] d.contains_key(c) ==> d[c].finite()
}

/// Every processed node's dependencies are processed.
pub open spec fn closed_done(d: Map<ChangeHash, Set<ChangeHash>>, done: Set<ChangeHash>) -> bool {
    forall|c: ChangeHash| #[trigger] done.contains(c) ==> d.contains_key(c) && d[c].subset_of(done)
}

/// The dependencies of each node that are not processed, counted.
pub open spec fn counts_open(d: Map<ChangeHash, Set<ChangeHash>>, done: Set<ChangeHash>, remaining: Map<ChangeHash, usize>) -> bool {
    &&& remaining.dom() == d.dom()
    &&& forall|c: ChangeHash| #[trigger] remaining.contains_key(c) && !done.contains(c)
        ==> remaining[c] == d[c].difference(done).len()
}

fn release_children(
    hash: ChangeHash,
    advanced: u64,
    dependants: &OrdMap<ChangeHash, OrdSet<ChangeHash>>,
    remaining: &mut OrdMap<ChangeHash, usize>,
    ready: &mut OrdSet<ChangeHash>,
    causal: &mut OrdMap<ChangeHash, u64>,
    budget: &mut WorkBudget,
    cancellation: &impl CancellationCheck,
    Ghost(start): Ghost<WorkBudget>,
    Ghost(d): Ghost<Map<ChangeHash, Set<ChangeHash>>>,
    Ghost(done): Ghost<Set<ChangeHash>>,
) -> (r: Result<(), MeteredActorStateError>)
    requires
        budget_grew(start, *old(budget)),
        sets_wf(*dependants),
        sets_view(*dependants) == dependant_sets(d),
        finite_deps(d),
        is_ready(d, done, hash),
        closed_done(d, done),
        old(ready).wf(),
        old(ready)@ == ready_set(d, done).remove(hash),
        old(remaining).wf(),
        counts_open(d, done, old(remaining)@),
        old(causal).wf(),
        d.dom().finite(),
    ensures
        budget_grew(start, *final(budget)),
        r == Err::<(), MeteredActorStateError>(MeteredActorStateError::Work(WorkStop::BudgetExhausted))
            ==> operations_exhausted(*final(budget)),
        r == Err::<(), MeteredActorStateError>(MeteredActorStateError::Work(WorkStop::Cancelled))
            ==> !cancellation.never_cancels(),
        r matches Err(e) ==> e is Work,
        final(budget).usage().operations() <= old(budget).usage().operations() + 2 + 9 * d.dom().len(),
        cancellation.never_cancels() && affords(*old(budget), (2 + 9 * d.dom().len()) as int) ==> r is Ok,
        r is Ok ==> {
            &&& final(ready).wf()
            &&& final(ready)@ == ready_set(d, done.insert(hash))
            &&& final(remaining).wf()
            &&& counts_open(d, done.insert(hash), final(remaining)@)
            &&& final(causal).wf()
            &&& final(causal)@ == raise_causal(old(causal)@, children_of_node(d, hash), advanced)
        },
{
    let ghost done2 = done.insert(hash);
    let ghost causal0 = causal@;
    let ghost ready0 = ready@;
    let ghost kids = children_of_node(d, hash);
    let ghost entry = *budget;
    charge_step(budget, cancellation, WorkCounter::GraphEdge, Ghost(start))?;
    match dependants.get(&hash) {
        None => {
            proof {
                assert(kids =~= Set::<ChangeHash>::empty()) by {
                    assert forall|c: ChangeHash| !kids.contains(c) by {
                        if kids.contains(c) {
                            assert(dependant_sets(d).contains_key(hash));
                        }
                    }
                }
                assert(raise_causal(causal0, kids, advanced) =~= causal0);
                assert forall|c: ChangeHash| #[trigger] ready_set(d, done2).contains(c) <==> ready0.contains(c) by {
                    assert(!kids.contains(c));
                    if c != hash {
                        crate::graph::order::lemma_ready_step(d, done, hash, c);
                    }
                }
                assert(ready@ =~= ready_set(d, done2));
                assert forall|c: ChangeHash| #[trigger] remaining@.contains_key(c) && !done2.contains(c)
                    implies remaining@[c] == d[c].difference(done2).len() by {
                    assert(!kids.contains(c));
                    assert(d.contains_key(c));
                    crate::graph::order::lemma_open_step(d[c], done, hash);
                }
            }
            Ok(())
        },
        Some(children) => {
            proof {
                assert(children.wf());
                assert(sets_view(*dependants)[hash] == children@);
                assert(dependant_sets(d).contains_key(hash));
                assert(dependant_sets(d)[hash] =~= kids);
                assert(children@ =~= kids);
            }
            charge_step(budget, cancellation, WorkCounter::GraphEdge, Ghost(start))?;
            let child_count = children.len();
            proof {
                assert(kids.subset_of(d.dom()));
                vstd::set_lib::lemma_len_subset(kids, d.dom());
                crate::ordered::lemma_sorted_no_duplicates(children.seq());
                assert(children.seq().take(0).to_set() =~= Set::<ChangeHash>::empty());
                assert(raise_causal(causal0, Set::<ChangeHash>::empty(), advanced) =~= causal0);
                assert(ready@ =~= Set::new(|c: ChangeHash| (ready_set(d, done).contains(c) && c != hash)
                    || (children.seq().take(0).to_set().contains(c) && is_ready(d, done2, c))));
            }
            for k in 0..child_count
                invariant
                    budget_grew(start, *budget),
                    children.wf(),
                    children@ == kids,
                    child_count == children.seq().len(),
                    children.seq().no_duplicates(),
                    kids == children_of_node(d, hash),
                    done2 == done.insert(hash),
                    finite_deps(d),
                    is_ready(d, done, hash),
                    closed_done(d, done),
                    remaining.wf(),
                    remaining@.dom() == d.dom(),
                    forall|c: ChangeHash| #[trigger] remaining@.contains_key(c) && !done2.contains(c)
                        ==> remaining@[c] == (if children.seq().take(k as int).to_set().contains(c) {
                            d[c].difference(done2).len()
                        } else {
                            d[c].difference(done).len()
                        }),
                    ready.wf(),
                    ready@ == Set::new(|c: ChangeHash| (ready_set(d, done).contains(c) && c != hash)
                        || (children.seq().take(k as int).to_set().contains(c) && is_ready(d, done2, c))),
                    causal.wf(),
                    causal@ == raise_causal(causal0, children.seq().take(k as int).to_set(), advanced),
                    entry == *old(budget),
                    budget_grew(start, entry),
                    child_count <= d.dom().len(),
                    budget.usage().operations() <= entry.usage().operations() + 2 + 9 * k,
            {
                let ghost taken = children.seq().take(k as int).to_set();
                charge_step(budget, cancellation, WorkCounter::GraphEdge, Ghost(start))?;
                let child = children.get(k);
                proof {
                    assert(children.seq().contains(child));
                    assert(kids.contains(child));
                    assert(!done.contains(child)) by {
                        if done.contains(child) {
                            assert(d[child].contains(hash));
                        }
                    }
                    assert(child != hash);
                    assert(!taken.contains(child)) by {
                        if taken.contains(child) {
                            let j = choose|j: int| 0 <= j < k && children.seq().take(k as int)[j] == child;
                            assert(children.seq()[j] == children.seq()[k as int]);
                        }
                    }
                    assert(children.seq().take(k + 1) =~= children.seq().take(k as int).push(child));
                    children.seq().take(k as int).lemma_push_to_set_commute(child);
                    assert(d[child].difference(done).contains(hash));
                    vstd::set::axiom_set_remove_len(d[child].difference(done), hash);
                    crate::graph::order::lemma_open_step(d[child], done, hash);
                    crate::graph::order::lemma_open_empty(d[child], done2);
                }
                charge_step(budget, cancellation, WorkCounter::GraphEdge, Ghost(start))?;
                let pos = match remaining.index_of(&child) {
                    Some(p) => p,
                    None => {
                        return Err(MeteredActorStateError::State(ActorStateError::MissingDependency));
                    },
                };
                charge_step(budget, cancellation, WorkCounter::GraphEdge, Ghost(start))?;
                let current = *remaining.value_at(pos);
                let updated = current - 1;
                charge_step(budget, cancellation, WorkCounter::GraphEdge, Ghost(start))?;
                let ghost old_remaining = *remaining;
                remaining.set_value_at(pos, updated);
                proof {
                    old_remaining.lemma_position(pos as int);
                }
                charge_step(budget, cancellation, WorkCounter::GraphEdge, Ghost(start))?;
                let prior = causal.get(&child);
                let propagated = match prior {
                    Some(p) => {
                        charge_step(budget, cancellation, WorkCounter::GraphEdge, Ghost(start))?;
                        if *p >= advanced {
                            *p
                        } else {
                            advanced
                        }
                    },
                    None => advanced,
                };
                charge_step(budget, cancellation, WorkCounter::GraphEdge, Ghost(start))?;
                causal.insert(child, propagated);
                charge_step(budget, cancellation, WorkCounter::GraphEdge, Ghost(start))?;
                let ghost old_ready = ready@;
                if updated == 0 {
                    charge_step(budget, cancellation, WorkCounter::GraphNode, Ghost(start))?;
                    ready.insert(child);
                }
                proof {
                    let t2 = children.seq().take(k + 1).to_set();
                    assert(causal@ =~= raise_causal(causal0, t2, advanced));
                    assert(ready@ =~= Set::new(|c: ChangeHash| (ready_set(d, done).contains(c) && c != hash)
                        || (t2.contains(c) && is_ready(d, done2, c))));
                    assert forall|c: ChangeHash| #[trigger] remaining@.contains_key(c) && !done2.contains(c)
                        implies remaining@[c] == (if t2.contains(c) {
                            d[c].difference(done2).len()
                        } else {
                            d[c].difference(done).len()
                        }) by {
                        if c != child {
                            assert(old_remaining@.contains_key(c));
                        }
                    }
                }
            }
            proof {
                assert(children.seq().take(child_count as int) =~= children.seq());
                let t = children.seq().to_set();
                assert(t =~= kids);
                assert forall|c: ChangeHash| #[trigger] ready_set(d, done2).contains(c) <==> ready@.contains(c) by {
                    if !kids.contains(c) && c != hash {
                        crate::graph::order::lemma_ready_step(d, done, hash, c);
                    }
                }
                assert(ready@ =~= ready_set(d, done2));
                assert forall|c: ChangeHash| #[trigger] remaining@.contains_key(c) && !done2.contains(c)
                    implies remaining@[c] == d[c].difference(done2).len() by {
                    if !kids.contains(c) {
                        crate::graph::order::lemma_open_step(d[c], done, hash);
                    }
                }
            }
            Ok(())
        },
    }
}

} // verus!

verus! {

#[verifier::spinoff_prover]
#[verifier::rlimit(40)]
fn process_members(
    closure: &OrdSet<ChangeHash>,
    changes: &OrdMap<ChangeHash, ChangeCandidate>,
    index: &mut MemberIndex,
    budget: &mut WorkBudget,
    cancellation: &impl CancellationCheck,
    Ghost(start): Ghost<WorkBudget>,
    Ghost(d): Ghost<Map<ChangeHash, Set<ChangeHash>>>,
) -> (r: (Result<ProcessingState, MeteredActorStateError>, Ghost<Seq<ChangeHash>>, Ghost<Replay>))
    requires
        budget_grew(start, *old(budget)),
        closure.wf(),
        changes.wf(),
        indexes(*old(index), d),
        d.dom() == closure@,
        members_known(d, changes@),
    ensures
        budget_grew(start, *final(budget)),
        r.0 == Err::<ProcessingState, MeteredActorStateError>(MeteredActorStateError::Work(WorkStop::BudgetExhausted))
            ==> operations_exhausted(*final(budget)),
        r.0 == Err::<ProcessingState, MeteredActorStateError>(MeteredActorStateError::Work(WorkStop::Cancelled))
            ==> !cancellation.never_cancels(),
        final(budget).usage().operations() <= old(budget).usage().operations() + 2 + closure@.len()
            * member_process_cost(closure@.len() as int),
        cancellation.never_cancels() && affords(
            *old(budget),
            2 + closure@.len() * member_process_cost(closure@.len() as int),
        ) ==> !(r.0 matches Err(MeteredActorStateError::Work(_))),
        r.0 matches Err(MeteredActorStateError::State(e)) ==> greedy_prefix(d, r.1@) && replay(
            d,
            changes@,
            r.1@,
            r.1@.len() as int,
        ) == Err::<Replay, ActorStateError>(e),
        r.0 matches Ok(s) ==> {
            &&& greedy_order(d, r.1@)
            &&& replay(d, changes@, r.1@, r.1@.len() as int) == Ok::<Replay, ActorStateError>(r.2@)
            &&& holds_replay(s, r.2@, r.1@.to_set(), old(index).depended_on@)
            &&& s.processed == r.1@.len()
        },
        final(index).dependencies == old(index).dependencies,
{
    let ghost depended0 = index.depended_on@;
    let mut state = ProcessingState {
        frontier: OrdSet::new(),
        states: OrdMap::new(),
        writers: OrdMap::new(),
        causal: OrdMap::new(),
        causal_next_op: 1,
        processed: 0,
    };
    let ghost mut order: Seq<ChangeHash> = Seq::empty();
    let ghost mut acc: Replay = replay_start();
    let ghost entry = *budget;
    let n = closure.len();
    let ghost per = member_process_cost(n as int);
    proof {
        assert(order.to_set() =~= Set::<ChangeHash>::empty());
        assert(state.frontier@ =~= order.to_set().difference(index.depended_on@));
        assert(state.states@ =~= acc.states);
        assert(state.writers@ =~= acc.writers);
        assert(state.causal@ =~= acc.causal);
        assert forall|c: ChangeHash| #[trigger] d.contains_key(c) implies d[c].finite() by {
            assert(d[c] == changes@[c].dependencies@.to_set());
        }
        assert forall|c: ChangeHash| #[trigger] index.remaining@.contains_key(c) && !order.to_set().contains(c)
            implies index.remaining@[c] == d[c].difference(order.to_set()).len() by {
            assert(d[c].difference(order.to_set()) =~= d[c]);
        }
    }
    loop
        invariant_except_break
            budget.usage().operations() <= entry.usage().operations() + order.len() * per,
        invariant
            budget_grew(start, *budget),
            closure.wf(),
            changes.wf(),
            n == closure@.len(),
            d.dom() == closure@,
            members_known(d, changes@),
            finite_deps(d),
            index.dependencies == old(index).dependencies,
            sets_wf(index.dependants),
            sets_view(index.dependants) == dependant_sets(d),
            index.depended_on.wf(),
            index.depended_on@ == depended0,
            greedy_prefix(d, order),
            state.processed == order.len(),
            index.ready.wf(),
            index.ready@ == ready_set(d, order.to_set()),
            index.remaining.wf(),
            counts_open(d, order.to_set(), index.remaining@),
            replay(d, changes@, order, order.len() as int) == Ok::<Replay, ActorStateError>(acc),
            holds_replay(state, acc, order.to_set(), index.depended_on@),
            entry == *old(budget),
            budget_grew(start, entry),
            per == member_process_cost(n as int),
        ensures
            greedy_order(d, order),
            replay(d, changes@, order, order.len() as int) == Ok::<Replay, ActorStateError>(acc),
            holds_replay(state, acc, order.to_set(), index.depended_on@),
            state.processed == order.len(),
            budget.usage().operations() <= entry.usage().operations() + 2 + n * per,
        decreases n - order.len(),
    {
        proof {
            crate::graph::order::lemma_greedy_distinct(d, order);
            order.unique_seq_to_set();
            vstd::set_lib::lemma_len_subset(order.to_set(), closure@);
            assert(order.len() * per <= n * per) by (nonlinear_arith)
                requires
                    order.len() <= n,
                    per >= 0,
            ;
        }
        if let Err(e) = charge_step(budget, cancellation, WorkCounter::GraphNode, Ghost(start)) {
            return (Err(e), Ghost(order), Ghost(acc));
        }
        if index.ready.is_empty() {
            proof {
                assert forall|c: ChangeHash| !#[trigger] is_ready(d, order.to_set(), c) by {
                    if is_ready(d, order.to_set(), c) {
                        assert(index.ready@.contains(c));
                    }
                }
            }
            break;
        }
        if let Err(e) = charge_step(budget, cancellation, WorkCounter::GraphNode, Ghost(start)) {
            return (Err(e), Ghost(order), Ghost(acc));
        }
        let hash = index.ready.pop_first().unwrap();
        let ghost done = order.to_set();
        proof {
            assert(is_least(ready_set(d, done), hash));
            crate::graph::order::lemma_greedy_push(d, order, hash);
            assert(closure@.contains(hash));
            assert(!done.contains(hash));
            vstd::set_lib::lemma_len_subset(done.insert(hash), closure@);
            assert((order.len() + 1) * per <= n * per) by (nonlinear_arith)
                requires
                    order.len() + 1 <= n,
                    per >= 0,
            ;
            assert((order.len() + 1) * per == order.len() * per + per) by (nonlinear_arith);
        }
        if let Err(e) = charge_step(budget, cancellation, WorkCounter::GraphNode, Ghost(start)) {
            return (Err(e), Ghost(order), Ghost(acc));
        }
        let candidate = changes.get(&hash).unwrap();
        let ghost next_order = order.push(hash);
        proof {
            assert(next_order.take(order.len() as int) =~= order);
            assert(order.take(order.len() as int) =~= order);
            assert(next_order[order.len() as int] == hash);
            assert(replay(d, changes@, next_order, order.len() as int) == replay(d, changes@, order, order.len() as int)) by {
                lemma_replay_prefix(d, changes@, next_order, order, order.len() as int);
            }
            assert(replay(d, changes@, next_order, next_order.len() as int) == replay_step(d, acc, hash, *candidate));
        }
        if let Err(e) = charge_step(budget, cancellation, WorkCounter::GraphNode, Ghost(start)) {
            return (Err(e), Ghost(order), Ghost(acc));
        }
        let depended = index.depended_on.contains(&hash);
        if !depended {
            if let Err(e) = charge_step(budget, cancellation, WorkCounter::GraphNode, Ghost(start)) {
                return (Err(e), Ghost(order), Ghost(acc));
            }
            state.frontier.insert(hash);
        }
        if let Err(e) = charge_step(budget, cancellation, WorkCounter::GraphNode, Ghost(start)) {
            return (Err(e), Ghost(order), Ghost(acc));
        }
        let previous = state.states.get(&candidate.actor);
        let expected: u64 = match previous {
            Some(st) => {
                if let Err(e) = charge_step(budget, cancellation, WorkCounter::GraphNode, Ghost(start)) {
                    return (Err(e), Ghost(order), Ghost(acc));
                }
                if st.last_sequence == u64::MAX {
                    proof {
                        order = next_order;
                    }
                    return (Err(MeteredActorStateError::State(ActorStateError::SequenceGap)), Ghost(order), Ghost(acc));
                }
                st.last_sequence + 1
            },
            None => 1,
        };
        if let Err(e) = charge_step(budget, cancellation, WorkCounter::GraphNode, Ghost(start)) {
            return (Err(e), Ghost(order), Ghost(acc));
        }
        if candidate.sequence < expected {
            proof {
                order = next_order;
            }
            return (Err(MeteredActorStateError::State(ActorStateError::Equivocation)), Ghost(order), Ghost(acc));
        }
        if let Err(e) = charge_step(budget, cancellation, WorkCounter::GraphNode, Ghost(start)) {
            return (Err(e), Ghost(order), Ghost(acc));
        }
        if candidate.sequence != expected {
            proof {
                order = next_order;
            }
            return (Err(MeteredActorStateError::State(ActorStateError::SequenceGap)), Ghost(order), Ghost(acc));
        }
        if let Err(e) = charge_step(budget, cancellation, WorkCounter::GraphNode, Ghost(start)) {
            return (Err(e), Ghost(order), Ghost(acc));
        }
        let next_op: u64 = match state.causal.get(&hash) {
            Some(v) => *v,
            None => 1,
        };
        if let Err(e) = charge_step(budget, cancellation, WorkCounter::GraphNode, Ghost(start)) {
            return (Err(e), Ghost(order), Ghost(acc));
        }
        if candidate.start_op != next_op {
            proof {
                order = next_order;
            }
            return (Err(MeteredActorStateError::State(ActorStateError::OperationCounter)), Ghost(order), Ghost(acc));
        }
        if let Err(e) = charge_step(budget, cancellation, WorkCounter::GraphNode, Ghost(start)) {
            return (Err(e), Ghost(order), Ghost(acc));
        }
        let advanced: u64 = if candidate.operation_count == 0 {
            next_op
        } else {
            if let Err(e) = charge_step(budget, cancellation, WorkCounter::GraphNode, Ghost(start)) {
                return (Err(e), Ghost(order), Ghost(acc));
            }
            if candidate.operation_count > u64::MAX - next_op {
                proof {
                    order = next_order;
                }
                return (Err(MeteredActorStateError::State(ActorStateError::OperationCounter)), Ghost(order), Ghost(acc));
            }
            next_op + candidate.operation_count
        };
        if let Err(e) = charge_step(budget, cancellation, WorkCounter::GraphNode, Ghost(start)) {
            return (Err(e), Ghost(order), Ghost(acc));
        }
        if advanced > state.causal_next_op {
            state.causal_next_op = advanced;
        }
        if let Err(e) = charge_step(budget, cancellation, WorkCounter::GraphNode, Ghost(start)) {
            return (Err(e), Ghost(order), Ghost(acc));
        }
        state.states.insert(
            candidate.actor,
            EpochActorState { last_sequence: candidate.sequence, next_op: advanced, highest_change: hash },
        );
        if let Err(e) = charge_step(budget, cancellation, WorkCounter::GraphNode, Ghost(start)) {
            return (Err(e), Ghost(order), Ghost(acc));
        }
        state.writers.insert(candidate.actor, hash);
        if let Err(e) = charge_step(budget, cancellation, WorkCounter::GraphNode, Ghost(start)) {
            return (Err(e), Ghost(order), Ghost(acc));
        }
        state.causal.insert(hash, advanced);
        if let Err(e) = charge_step(budget, cancellation, WorkCounter::GraphNode, Ghost(start)) {
            return (Err(e), Ghost(order), Ghost(acc));
        }
        state.processed = state.processed + 1;
        proof {
            assert forall|c: ChangeHash| #[trigger] done.contains(c) implies d.contains_key(c) && d[c].subset_of(done) by {
                crate::graph::order::lemma_greedy_closed(d, order, c);
            }
            assert(index.ready@ == ready_set(d, done).remove(hash));
        }
        let released = release_children(
            hash,
            advanced,
            &index.dependants,
            &mut index.remaining,
            &mut index.ready,
            &mut state.causal,
            budget,
            cancellation,
            Ghost(start),
            Ghost(d),
            Ghost(done),
        );
        match released {
            Ok(()) => {},
            Err(e) => {
                return (Err(e), Ghost(order), Ghost(acc));
            },
        }
        proof {
            let next_acc = replay_step(d, acc, hash, *candidate).unwrap();
            order = next_order;
            acc = next_acc;
            assert(state.states@ =~= acc.states);
            assert(state.writers@ =~= acc.writers);
            assert(state.frontier@ =~= order.to_set().difference(index.depended_on@));
        }
    }
    (Ok(state), Ghost(order), Ghost(acc))
}

} // verus!

verus! {

/// Facts about an accepted closure that later decisions rely on.
///
/// Built only by `initialize_actor_states_metered`, and read-only afterwards.
pub struct TrustedEpochProjection<'a> {
    branch_membership: &'a OrdMap<ChangeHash, ChangeCandidate>,
    accepted_closure: &'a OrdSet<ChangeHash>,
    dependencies: OrdMap<ChangeHash, OrdSet<ChangeHash>>,
    frontier_heads: OrdSet<ChangeHash>,
    actor_states: OrdMap<ActorId, EpochActorState>,
    writer_contributions: OrdMap<ActorId, ChangeHash>,
    causal_next_op: u64,
}

impl<'a> TrustedEpochProjection<'a> {
    /// All collections are well formed.
    #[verifier::type_invariant]
    spec fn well_formed(self) -> bool {
        &&& self.branch_membership.wf()
        &&& self.accepted_closure.wf()
        &&& sets_wf(self.dependencies)
        &&& self.frontier_heads.wf()
        &&& self.actor_states.wf()
        &&& self.writer_contributions.wf()
        &&& self.frontier_heads@.subset_of(self.accepted_closure@)
    }

    /// The candidates the closure's members are looked up in.
    pub closed spec fn membership(self) -> Map<ChangeHash, ChangeCandidate> {
        self.branch_membership@
    }

    /// The accepted closure.
    pub closed spec fn closure(self) -> Set<ChangeHash> {
        self.accepted_closure@
    }

    /// Each member's dependency set.
    pub closed spec fn dependency_sets(self) -> Map<ChangeHash, Set<ChangeHash>> {
        sets_view(self.dependencies)
    }

    /// The members no member depends on.
    pub closed spec fn frontier(self) -> Set<ChangeHash> {
        self.frontier_heads@
    }

    /// Each actor's state after its latest change.
    pub closed spec fn states(self) -> Map<ActorId, EpochActorState> {
        self.actor_states@
    }

    /// Each actor's latest change.
    pub closed spec fn writers(self) -> Map<ActorId, ChangeHash> {
        self.writer_contributions@
    }

    /// The greatest operation counter reached in the closure, at least one.
    pub closed spec fn causal_next(self) -> u64 {
        self.causal_next_op
    }
}

/// What building the projection of the closure `members` over `changes`
/// owes, given the processing order `o`.
pub open spec fn projection_owed(
    members: Seq<ChangeHash>,
    changes: Map<ChangeHash, ChangeCandidate>,
    o: Seq<ChangeHash>,
    r: Result<TrustedEpochProjection, MeteredActorStateError>,
) -> bool {
    let n = members.len() as int;
    let d = member_deps(members, changes, n);
    match first_member_problem(members, changes, n) {
        Some(e) => r is Err && (r matches Err(MeteredActorStateError::State(x)) ==> x == e),
        None => match replay(d, changes, o, o.len() as int) {
            Err(e) => r is Err && (r matches Err(MeteredActorStateError::State(x)) ==> x == e),
            Ok(acc) => if o.len() < n {
                r is Err && (r matches Err(MeteredActorStateError::State(x)) ==> x
                    == ActorStateError::DependencyCycle)
            } else {
                (r matches Err(e) ==> e is Work) && (r matches Ok(p) ==> {
                    &&& p.membership() == changes
                    &&& p.closure() == members.to_set()
                    &&& p.dependency_sets() == d
                    &&& p.frontier() == members.to_set().difference(dependant_sets(d).dom())
                    &&& p.states() == acc.states
                    &&& p.writers() == acc.writers
                    &&& p.causal_next() == acc.next_op
                })
            },
        },
    }
}

/// Validates an accepted closure and projects its actor and causal state.
///
/// Members are checked in ascending order: each must have a candidate under
/// its own hash whose dependencies are strictly ascending members. Members
/// are then processed in least-first topological order; each must continue
/// its actor's sequence and start at the greatest counter its dependencies
/// reached (one when it has none). A member that can never be processed
/// means the dependencies form a cycle. Every step is charged first.
pub fn initialize_actor_states_metered<'a>(
    accepted_closure: &'a OrdSet<ChangeHash>,
    changes: &'a OrdMap<ChangeHash, ChangeCandidate>,
    budget: &mut WorkBudget,
    cancellation: &impl CancellationCheck,
) -> (r: Result<TrustedEpochProjection<'a>, MeteredActorStateError>)
    requires
        accepted_closure.wf(),
        changes.wf(),
    ensures
        budget_grew(*old(budget), *final(budget)),
        r == Err::<TrustedEpochProjection, MeteredActorStateError>(MeteredActorStateError::Work(WorkStop::BudgetExhausted))
            ==> operations_exhausted(*final(budget)),
        r == Err::<TrustedEpochProjection, MeteredActorStateError>(MeteredActorStateError::Work(WorkStop::Cancelled))
            ==> !cancellation.never_cancels(),
        cancellation.never_cancels() && operations_exhausted(*old(budget)) ==> r == Err::<
            TrustedEpochProjection,
            MeteredActorStateError,
        >(MeteredActorStateError::Work(WorkStop::BudgetExhausted)),
        cancellation.always_cancels() ==> r == Err::<TrustedEpochProjection, MeteredActorStateError>(
            MeteredActorStateError::Work(WorkStop::Cancelled),
        ),
        final(budget).usage().operations() <= old(budget).usage().operations() + projection_cost(
            accepted_closure@.len() as int,
        ),
        cancellation.never_cancels() && affords(*old(budget), projection_cost(accepted_closure@.len() as int))
            ==> !(r matches Err(MeteredActorStateError::Work(_))),
        forall|o: Seq<ChangeHash>|
            greedy_order(
                member_deps(accepted_closure.seq(), changes@, accepted_closure.seq().len() as int),
                o,
            ) ==> projection_owed(accepted_closure.seq(), changes@, o, r),
{
    let ghost start = *budget;
    let ghost members = accepted_closure.seq();
    let ghost n = members.len() as int;
    let ghost d = member_deps(members, changes@, n);
    let ghost m = accepted_closure@.len() as int;
    proof {
        assert(m * (member_index_cost(m) + member_process_cost(m)) == m * member_index_cost(m) + m
            * member_process_cost(m)) by (nonlinear_arith);
    }
    charge_step(budget, cancellation, WorkCounter::GraphNode, Ghost(start))?;
    let member_count = accepted_closure.len();
    charge_step(budget, cancellation, WorkCounter::GraphNode, Ghost(start))?;
    let index = match index_members(accepted_closure, changes, budget, cancellation, Ghost(start)) {
        Ok(x) => x,
        Err(e) => {
            return Err(e);
        },
    };
    let ghost depended_on = index.depended_on@;
    proof {
        assert(members.take(n) =~= members);
        assert(d.dom() =~= accepted_closure@);
        assert forall|h: ChangeHash| #[trigger] d.contains_key(h) implies {
            &&& changes@.contains_key(h)
            &&& changes@[h].change_hash == h
            &&& d[h] == changes@[h].dependencies@.to_set()
        } by {
            let i = choose|i: int| 0 <= i < n && members[i] == h;
            lemma_first_member_problem_none(members, changes@, n, i);
        }
    }
    let mut index = index;
    let (processed, Ghost(order), Ghost(acc)) = process_members(
        accepted_closure,
        changes,
        &mut index,
        budget,
        cancellation,
        Ghost(start),
        Ghost(d),
    );
    match processed {
        Err(e) => {
            let res: Result<TrustedEpochProjection<'a>, MeteredActorStateError> = Err(e);
            proof {
                if let MeteredActorStateError::State(x) = e {
                    assert forall|o: Seq<ChangeHash>| greedy_order(d, o) implies projection_owed(members, changes@, o, res) by {
                        crate::graph::order::lemma_greedy_prefix_of_order(d, order, o);
                        assert(order.take(order.len() as int) =~= order);
                        assert(o.take(order.len() as int).take(order.len() as int) =~= o.take(order.len() as int));
                        lemma_replay_prefix(d, changes@, o, order, order.len() as int);
                        lemma_replay_stops(d, changes@, o, order.len() as int, o.len() as int);
                    }
                }
            }
            res
        },
        Ok(state) => {
            proof {
                crate::graph::order::lemma_greedy_distinct(d, order);
                order.unique_seq_to_set();
                vstd::set_lib::lemma_len_subset(order.to_set(), accepted_closure@);
                crate::ordered::lemma_sorted_no_duplicates(members);
            }
            if let Err(e) = charge_step(budget, cancellation, WorkCounter::GraphNode, Ghost(start)) {
                let res: Result<TrustedEpochProjection<'a>, MeteredActorStateError> = Err(e);
                proof {
                    assert forall|o: Seq<ChangeHash>| greedy_order(d, o) implies projection_owed(members, changes@, o, res) by {
                        crate::graph::order::lemma_greedy_order_unique(d, order, o);
                    }
                }
                return res;
            }
            if state.processed != member_count {
                let res: Result<TrustedEpochProjection<'a>, MeteredActorStateError> = Err(
                    MeteredActorStateError::State(ActorStateError::DependencyCycle),
                );
                proof {
                    assert forall|o: Seq<ChangeHash>| greedy_order(d, o) implies projection_owed(members, changes@, o, res) by {
                        crate::graph::order::lemma_greedy_order_unique(d, order, o);
                    }
                }
                return res;
            }
            if let Err(e) = charge_step(budget, cancellation, WorkCounter::GraphNode, Ghost(start)) {
                let res: Result<TrustedEpochProjection<'a>, MeteredActorStateError> = Err(e);
                proof {
                    assert forall|o: Seq<ChangeHash>| greedy_order(d, o) implies projection_owed(members, changes@, o, res) by {
                        crate::graph::order::lemma_greedy_order_unique(d, order, o);
                    }
                }
                return res;
            }
            proof {
                vstd::set_lib::lemma_subset_equality(order.to_set(), accepted_closure@);
            }
            let projection = TrustedEpochProjection {
                branch_membership: changes,
                accepted_closure,
                dependencies: index.dependencies,
                frontier_heads: state.frontier,
                actor_states: state.states,
                writer_contributions: state.writers,
                causal_next_op: state.causal_next_op,
            };
            let res: Result<TrustedEpochProjection<'a>, MeteredActorStateError> = Ok(projection);
            proof {
                vstd::set_lib::lemma_subset_equality(order.to_set(), accepted_closure@);
                assert forall|o: Seq<ChangeHash>| greedy_order(d, o) implies projection_owed(members, changes@, o, res) by {
                    crate::graph::order::lemma_greedy_order_unique(d, order, o);
                }
            }
            res
        },
    }
}

/// A problem-free closure has a well-formed candidate for each member.
pub proof fn lemma_first_member_problem_none(
    members: Seq<ChangeHash>,
    changes: Map<ChangeHash, ChangeCandidate>,
    n: int,
    i: int,
)
    requires
        0 <= i < n,
        first_member_problem(members, changes, n) is None,
    ensures
        member_problem(members.to_set(), changes, members[i]) is None,
    decreases n,
{
    if i < n - 1 {
        lemma_first_member_problem_none(members, changes, n - 1, i);
    }
}

} // verus!

verus! {

/// The outcome of the actor-sequence decision for `c`.
pub open spec fn actor_sequence_outcome(
    states: Map<ActorId, EpochActorState>,
    membership: Map<ChangeHash, ChangeCandidate>,
    c: ChangeCandidate,
) -> Result<(), ActorStateError> {
    if !states.contains_key(c.actor) {
        if c.sequence == 1 {
            Ok(())
        } else {
            Err(ActorStateError::MissingPredecessor)
        }
    } else {
        let st = states[c.actor];
        if !membership.contains_key(st.highest_change) || membership[st.highest_change].actor != c.actor {
            Err(ActorStateError::MissingPredecessor)
        } else if st.last_sequence == u64::MAX {
            Err(ActorStateError::SequenceGap)
        } else if c.sequence < st.last_sequence + 1 {
            Err(ActorStateError::SequenceRollback)
        } else if c.sequence == st.last_sequence + 1 {
            Ok(())
        } else {
            Err(ActorStateError::MissingPredecessor)
        }
    }
}

/// The outcome of the causal-counter decision for `c`.
pub open spec fn causal_next_outcome(causal_next: u64, c: ChangeCandidate) -> Result<u64, ActorStateError> {
    if c.start_op != causal_next {
        Err(ActorStateError::OperationCounter)
    } else if causal_next + c.operation_count > u64::MAX {
        Err(ActorStateError::OperationCounter)
    } else {
        Ok((causal_next + c.operation_count) as u64)
    }
}

impl<'a> TrustedEpochProjection<'a> {
    /// Decides whether `candidate` continues its actor's sequence.
    ///
    /// The actor's predecessor may be anywhere in the accepted closure; it
    /// need not be a direct dependency of `candidate`.
    pub fn actor_sequence_decision_metered(
        &self,
        candidate: &ChangeCandidate,
        budget: &mut WorkBudget,
        cancellation: &impl CancellationCheck,
    ) -> (r: Result<(), MeteredActorStateError>)
        ensures
            budget_grew(*old(budget), *final(budget)),
            r == Err::<(), MeteredActorStateError>(MeteredActorStateError::Work(WorkStop::BudgetExhausted))
                ==> operations_exhausted(*final(budget)),
            r == Err::<(), MeteredActorStateError>(MeteredActorStateError::Work(WorkStop::Cancelled))
                ==> !cancellation.never_cancels(),
            r matches Err(MeteredActorStateError::State(e)) ==> actor_sequence_outcome(
                self.states(),
                self.membership(),
                *candidate,
            ) == Err::<(), ActorStateError>(e),
            r is Ok ==> actor_sequence_outcome(self.states(), self.membership(), *candidate) is Ok,
            actor_sequence_outcome(self.states(), self.membership(), *candidate) is Ok ==> r is Ok || r matches Err(
                MeteredActorStateError::Work(_),
            ),
            cancellation.never_cancels() && affords(*old(budget), 4) ==> !(r matches Err(
                MeteredActorStateError::Work(_),
            )),
            final(budget).usage().operations() <= old(budget).usage().operations() + 4,
            r is Ok ==> final(budget).usage().operations() == old(budget).usage().operations() + (if self.states().contains_key(
                candidate.actor,
            ) {
                4int
            } else {
                3int
            }),
    {
        proof {
            use_type_invariant(self);
        }
        let ghost start = *budget;
        charge_step(budget, cancellation, WorkCounter::GraphNode, Ghost(start))?;
        let actor_state = self.actor_states.get(&candidate.actor);
        let predecessor_matches = match actor_state {
            Some(state) => {
                charge_step(budget, cancellation, WorkCounter::GraphNode, Ghost(start))?;
                match self.branch_membership.get(&state.highest_change) {
                    Some(p) => Some(p.actor.same_as(&candidate.actor)),
                    None => Some(false),
                }
            },
            None => None,
        };
        charge_step(budget, cancellation, WorkCounter::GraphNode, Ghost(start))?;
        if predecessor_matches == Some(false) {
            return Err(MeteredActorStateError::State(ActorStateError::MissingPredecessor));
        }
        charge_step(budget, cancellation, WorkCounter::GraphNode, Ghost(start))?;
        match actor_state {
            None => {
                if candidate.sequence == 1 {
                    Ok(())
                } else {
                    Err(MeteredActorStateError::State(ActorStateError::MissingPredecessor))
                }
            },
            Some(state) => {
                if state.last_sequence == u64::MAX {
                    Err(MeteredActorStateError::State(ActorStateError::SequenceGap))
                } else if candidate.sequence < state.last_sequence + 1 {
                    Err(MeteredActorStateError::State(ActorStateError::SequenceRollback))
                } else if candidate.sequence == state.last_sequence + 1 {
                    Ok(())
                } else {
                    Err(MeteredActorStateError::State(ActorStateError::MissingPredecessor))
                }
            },
        }
    }

    /// Checks that `candidate` starts at the closure's causal counter and
    /// returns the counter after it.
    pub fn causal_next_decision_metered(
        &self,
        candidate: &ChangeCandidate,
        budget: &mut WorkBudget,
        cancellation: &impl CancellationCheck,
    ) -> (r: Result<u64, MeteredActorStateError>)
        ensures
            budget_grew(*old(budget), *final(budget)),
            r == Err::<u64, MeteredActorStateError>(MeteredActorStateError::Work(WorkStop::BudgetExhausted))
                ==> operations_exhausted(*final(budget)),
            r == Err::<u64, MeteredActorStateError>(MeteredActorStateError::Work(WorkStop::Cancelled))
                ==> !cancellation.never_cancels(),
            r matches Err(MeteredActorStateError::State(e)) ==> causal_next_outcome(self.causal_next(), *candidate)
                == Err::<u64, ActorStateError>(e),
            r matches Ok(v) ==> causal_next_outcome(self.causal_next(), *candidate) == Ok::<u64, ActorStateError>(v),
            causal_next_outcome(self.causal_next(), *candidate) is Ok ==> r is Ok || r matches Err(
                MeteredActorStateError::Work(_),
            ),
            cancellation.never_cancels() && affords(*old(budget), 3) ==> !(r matches Err(
                MeteredActorStateError::Work(_),
            )),
            final(budget).usage().operations() <= old(budget).usage().operations() + 3,
            r is Ok ==> final(budget).usage().operations() == old(budget).usage().operations() + 3,
    {
        let ghost start = *budget;
        charge_step(budget, cancellation, WorkCounter::GraphNode, Ghost(start))?;
        let causal_next_op = self.causal_next_op;
        charge_step(budget, cancellation, WorkCounter::GraphNode, Ghost(start))?;
        if candidate.start_op != causal_next_op {
            return Err(MeteredActorStateError::State(ActorStateError::OperationCounter));
        }
        charge_step(budget, cancellation, WorkCounter::GraphNode, Ghost(start))?;
        if candidate.operation_count > u64::MAX - causal_next_op {
            return Err(MeteredActorStateError::State(ActorStateError::OperationCounter));
        }
        Ok(causal_next_op + candidate.operation_count)
    }

    /// The dependency set of member `change`, ascending; empty for a non-member.
    pub fn dependencies(&self, change: &ChangeHash) -> (v: Vec<ChangeHash>)
        ensures
            self.dependency_sets().contains_key(*change) ==> v@.to_set() == self.dependency_sets()[*change]
                && strictly_sorted(v@),
            !self.dependency_sets().contains_key(*change) ==> v@.len() == 0,
    {
        proof {
            use_type_invariant(self);
        }
        match self.dependencies.get(change) {
            Some(set) => set.to_vec(),
            None => Vec::new(),
        }
    }

    /// How many dependencies member `change` has; zero for a non-member.
    pub fn dependency_count(&self, change: &ChangeHash) -> (n: usize)
        ensures
            self.dependency_sets().contains_key(*change) ==> n == self.dependency_sets()[*change].len(),
            !self.dependency_sets().contains_key(*change) ==> n == 0,
    {
        proof {
            use_type_invariant(self);
        }
        match self.dependencies.get(change) {
            Some(set) => set.len(),
            None => 0,
        }
    }

    /// The frontier heads, ascending.
    pub fn frontier_heads(&self) -> (v: Vec<ChangeHash>)
        ensures
            v@.to_set() == self.frontier(),
            strictly_sorted(v@),
    {
        proof {
            use_type_invariant(self);
        }
        self.frontier_heads.to_vec()
    }

    /// Each actor and its latest change, ascending by actor.
    pub fn writer_contributions(&self) -> (v: Vec<(ActorId, ChangeHash)>)
        ensures
            forall|i: int| 0 <= i < v@.len() ==> self.writers().contains_key((#[trigger] v@[i]).0)
                && self.writers()[v@[i].0] == v@[i].1,
            forall|a: ActorId| #[trigger] self.writers().contains_key(a) ==> exists|i: int|
                0 <= i < v@.len() && v@[i].0 == a,
            strictly_sorted(Seq::new(v@.len(), |i: int| v@[i].0)),
    {
        proof {
            use_type_invariant(self);
        }
        let v = self.writer_contributions.entries();
        proof {
            let w = self.writer_contributions;
            assert forall|i: int| 0 <= i < v@.len() implies self.writers().contains_key((#[trigger] v@[i]).0)
                && self.writers()[v@[i].0] == v@[i].1 by {
                w.lemma_position(i);
            }
            assert forall|a: ActorId| #[trigger] self.writers().contains_key(a) implies exists|i: int|
                0 <= i < v@.len() && v@[i].0 == a by {
                let i = choose|i: int| 0 <= i < w.key_seq().len() && w.key_seq()[i] == a;
                assert(v@[i].0 == a);
            }
            let ks = Seq::new(v@.len(), |i: int| v@[i].0);
            assert(ks =~= w.key_seq());
        }
        v
    }

    /// Gives up the projection's frontier, dependency sets, actor states
    /// and writers.
    pub fn into_accepted_state_parts(self) -> (parts: (
        OrdSet<ChangeHash>,
        OrdMap<ChangeHash, OrdSet<ChangeHash>>,
        OrdMap<ActorId, EpochActorState>,
        OrdMap<ActorId, ChangeHash>,
    ))
        ensures
            parts.0.wf(),
            parts.0@ == self.frontier(),
            sets_wf(parts.1),
            sets_view(parts.1) == self.dependency_sets(),
            parts.2.wf(),
            parts.2@ == self.states(),
            parts.3.wf(),
            parts.3@ == self.writers(),
    {
        proof {
            use_type_invariant(&self);
        }
        (self.frontier_heads, self.dependencies, self.actor_states, self.writer_contributions)
    }
}

} // verus!

verus! {

/// `m` is the greatest operation counter among `states`.
pub open spec fn is_greatest_next_op(states: Map<ActorId, EpochActorState>, m: u64) -> bool {
    &&& exists|a: ActorId| #[trigger] states.contains_key(a) && states[a].next_op == m
    &&& forall|a: ActorId| #[trigger] states.contains_key(a) ==> states[a].next_op <= m
}

/// The causal counter a new change starts at: the greatest counter among
/// `states`, or one when there is none.
pub open spec fn causal_next_of(states: Map<ActorId, EpochActorState>) -> u64 {
    if states.dom().len() == 0 {
        1
    } else {
        choose|m: u64| is_greatest_next_op(states, m)
    }
}

/// The greatest counter is unique.
pub proof fn lemma_greatest_unique(states: Map<ActorId, EpochActorState>, m: u64)
    requires
        is_greatest_next_op(states, m),
        states.dom().finite(),
    ensures
        causal_next_of(states) == m,
{
    let a = choose|a: ActorId| #[trigger] states.contains_key(a) && states[a].next_op == m;
    if states.dom().len() == 0 {
        states.dom().lemma_len0_is_empty();
        assert(states.dom().contains(a));
    }
    if states.dom().len() != 0 {
        let c = choose|c: u64| is_greatest_next_op(states, c);
        let b = choose|b: ActorId| #[trigger] states.contains_key(b) && states[b].next_op == c;
        assert(states[a].next_op <= c);
        assert(states[b].next_op <= m);
    }
}

/// The greatest operation counter among `states`, or one when there is none.
pub fn reference_causal_next_op(states: &OrdMap<ActorId, EpochActorState>) -> (m: u64)
    requires
        states.wf(),
    ensures
        m == causal_next_of(states@),
{
    let n = states.len();
    if n == 0 {
        return 1;
    }
    let mut best = states.value_at(0).next_op;
    proof {
        states.lemma_position(0);
    }
    for i in 1..n
        invariant
            states.wf(),
            n == states.key_seq().len(),
            n > 0,
            exists|j: int| 0 <= j < i && #[trigger] states.val_seq()[j].next_op == best,
            forall|j: int| 0 <= j < i ==> #[trigger] states.val_seq()[j].next_op <= best,
    {
        let v = states.value_at(i).next_op;
        if v > best {
            best = v;
        }
    }
    proof {
        let j = choose|j: int| 0 <= j < n && #[trigger] states.val_seq()[j].next_op == best;
        states.lemma_position(j);
        assert forall|a: ActorId| #[trigger] states@.contains_key(a) implies states@[a].next_op <= best by {
            let k = choose|k: int| 0 <= k < n && states.key_seq()[k] == a;
            states.lemma_position(k);
        }
        assert(states@.contains_key(states.key_seq()[j]));
        states.lemma_len();
        vstd::seq_lib::seq_to_set_is_finite(states.key_seq());
        lemma_greatest_unique(states@, best);
    }
    best
}

/// What applying a change with operations does to `states`.
pub open spec fn apply_nonempty_outcome(states: Map<ActorId, EpochActorState>, c: ChangeCandidate) -> Result<
    Map<ActorId, EpochActorState>,
    ActorStateError,
> {
    let last: u64 = if states.contains_key(c.actor) {
        states[c.actor].last_sequence
    } else {
        0
    };
    let next = causal_next_of(states);
    if c.operation_count == 0 {
        Err(ActorStateError::EmptyChange)
    } else if last == u64::MAX || c.sequence != last + 1 {
        Err(ActorStateError::SequenceGap)
    } else if c.start_op != next {
        Err(ActorStateError::OperationCounter)
    } else if next + c.operation_count > u64::MAX {
        Err(ActorStateError::OperationCounter)
    } else {
        Ok(
            states.insert(
                c.actor,
                EpochActorState {
                    last_sequence: c.sequence,
                    next_op: (next + c.operation_count) as u64,
                    highest_change: c.change_hash,
                },
            ),
        )
    }
}

/// What applying an empty change naming `heads` does to `states`.
pub open spec fn apply_empty_outcome(
    states: Map<ActorId, EpochActorState>,
    c: ChangeCandidate,
    heads: Set<ChangeHash>,
) -> Result<Map<ActorId, EpochActorState>, ActorStateError> {
    let last: u64 = if states.contains_key(c.actor) {
        states[c.actor].last_sequence
    } else {
        0
    };
    let next = causal_next_of(states);
    if c.operation_count != 0 {
        Err(ActorStateError::NonEmptyChange)
    } else if c.dependencies@.to_set() != heads {
        Err(ActorStateError::DependencyFrontier)
    } else if last == u64::MAX || c.sequence != last + 1 {
        Err(ActorStateError::SequenceGap)
    } else if c.start_op != next {
        Err(ActorStateError::OperationCounter)
    } else {
        Ok(
            states.insert(
                c.actor,
                EpochActorState { last_sequence: c.sequence, next_op: next, highest_change: c.change_hash },
            ),
        )
    }
}

/// Applies a change with operations to per-actor state: it must continue
/// its actor's sequence and start at the greatest counter so far.
pub fn reference_apply_nonempty_counter(
    states: &mut OrdMap<ActorId, EpochActorState>,
    candidate: &ChangeCandidate,
) -> (r: Result<(), ActorStateError>)
    requires
        old(states).wf(),
    ensures
        final(states).wf(),
        match apply_nonempty_outcome(old(states)@, *candidate) {
            Ok(m) => r is Ok && final(states)@ == m,
            Err(e) => r == Err::<(), ActorStateError>(e) && final(states)@ == old(states)@,
        },
{
    if candidate.operation_count == 0 {
        return Err(ActorStateError::EmptyChange);
    }
    let last_sequence: u64 = match states.get(&candidate.actor) {
        Some(state) => state.last_sequence,
        None => 0,
    };
    let next_op = reference_causal_next_op(states);
    if last_sequence == u64::MAX || candidate.sequence != last_sequence + 1 {
        return Err(ActorStateError::SequenceGap);
    }
    if candidate.start_op != next_op {
        return Err(ActorStateError::OperationCounter);
    }
    if candidate.operation_count > u64::MAX - next_op {
        return Err(ActorStateError::OperationCounter);
    }
    states.insert(
        candidate.actor,
        EpochActorState {
            last_sequence: candidate.sequence,
            next_op: next_op + candidate.operation_count,
            highest_change: candidate.change_hash,
        },
    );
    Ok(())
}

/// Applies an empty change to per-actor state: it must name exactly
/// `current_heads`, continue its actor's sequence and start at the greatest
/// counter so far, which it leaves unchanged.
pub fn reference_apply_empty_counter(
    states: &mut OrdMap<ActorId, EpochActorState>,
    candidate: &ChangeCandidate,
    current_heads: &OrdSet<ChangeHash>,
) -> (r: Result<(), ActorStateError>)
    requires
        old(states).wf(),
        current_heads.wf(),
    ensures
        final(states).wf(),
        match apply_empty_outcome(old(states)@, *candidate, current_heads@) {
            Ok(m) => r is Ok && final(states)@ == m,
            Err(e) => r == Err::<(), ActorStateError>(e) && final(states)@ == old(states)@,
        },
{
    if candidate.operation_count != 0 {
        return Err(ActorStateError::NonEmptyChange);
    }
    let (named, _) = crate::graph::dependency_graph::digest_set(&candidate.dependencies);
    if !crate::ordered::same_members(&named, current_heads) {
        return Err(ActorStateError::DependencyFrontier);
    }
    let last_sequence: u64 = match states.get(&candidate.actor) {
        Some(state) => state.last_sequence,
        None => 0,
    };
    let next_op = reference_causal_next_op(states);
    if last_sequence == u64::MAX || candidate.sequence != last_sequence + 1 {
        return Err(ActorStateError::SequenceGap);
    }
    if candidate.start_op != next_op {
        return Err(ActorStateError::OperationCounter);
    }
    states.insert(
        candidate.actor,
        EpochActorState { last_sequence: candidate.sequence, next_op, highest_change: candidate.change_hash },
    );
    Ok(())
}

} // verus!

verus! {

/// The dependencies an empty change must name: the projected frontier and
/// the base heads outside the accepted closure.
pub open spec fn required_frontier(
    frontier: Set<ChangeHash>,
    base: Set<ChangeHash>,
    closure: Set<ChangeHash>,
) -> Set<ChangeHash> {
    frontier.union(base.difference(closure))
}

/// A change with operations passes; an empty change must name exactly the
/// required frontier, strictly ascending.
pub open spec fn frontier_rule_holds(
    c: ChangeCandidate,
    frontier: Set<ChangeHash>,
    base: Set<ChangeHash>,
    closure: Set<ChangeHash>,
) -> bool {
    c.operation_count != 0 || (strictly_sorted(c.dependencies@) && c.dependencies@.to_set()
        == required_frontier(frontier, base, closure))
}

/// The part of the required frontier not yet consumed from the two
/// ascending sources.
pub open spec fn frontier_rest(
    fs: Seq<ChangeHash>,
    bs: Seq<ChangeHash>,
    closure: Set<ChangeHash>,
    pi: int,
    bi: int,
) -> Set<ChangeHash> {
    fs.skip(pi).to_set().union(bs.skip(bi).to_set().difference(closure))
}

/// The part of the required frontier consumed from the two ascending sources.
pub open spec fn frontier_done(
    fs: Seq<ChangeHash>,
    bs: Seq<ChangeHash>,
    closure: Set<ChangeHash>,
    pi: int,
    bi: int,
) -> Set<ChangeHash> {
    fs.take(pi).to_set().union(bs.take(bi).to_set().difference(closure))
}

/// A strictly ascending sequence splits into a prefix and a suffix with no
/// member in common.
proof fn lemma_sorted_split(s: Seq<ChangeHash>, k: int)
    requires
        strictly_sorted(s),
        0 <= k <= s.len(),
    ensures
        s.to_set() == s.take(k).to_set().union(s.skip(k).to_set()),
        s.take(k).to_set().disjoint(s.skip(k).to_set()),
{
    assert forall|x: ChangeHash| s.to_set().contains(x) implies s.take(k).to_set().union(
        s.skip(k).to_set(),
    ).contains(x) by {
        let i = choose|i: int| 0 <= i < s.len() && s[i] == x;
        if i < k {
            assert(s.take(k)[i] == x);
        } else {
            assert(s.skip(k)[i - k] == x);
        }
    }
    assert forall|x: ChangeHash| s.take(k).to_set().union(s.skip(k).to_set()).contains(x) implies s.to_set().contains(
        x,
    ) by {
        if s.take(k).to_set().contains(x) {
            let i = choose|i: int| 0 <= i < k && s.take(k)[i] == x;
            assert(s[i] == x);
        } else {
            let i = choose|i: int| 0 <= i < s.len() - k && s.skip(k)[i] == x;
            assert(s[i + k] == x);
        }
    }
    assert(s.to_set() =~= s.take(k).to_set().union(s.skip(k).to_set()));
    assert forall|x: ChangeHash| !(s.take(k).to_set().contains(x) && s.skip(k).to_set().contains(x)) by {
        if s.take(k).to_set().contains(x) && s.skip(k).to_set().contains(x) {
            let i = choose|i: int| 0 <= i < k && s.take(k)[i] == x;
            let j = choose|j: int| 0 <= j < s.len() - k && s.skip(k)[j] == x;
            assert(s[i] == x && s[j + k] == x);
            assert(s[i].precedes(s[j + k]));
            ChangeHash::lemma_order(x, x, x);
        }
    }
}

/// The required frontier is the consumed part and the rest, with nothing in
/// common, when the frontier lies inside the closure.
proof fn lemma_frontier_partition(
    fs: Seq<ChangeHash>,
    bs: Seq<ChangeHash>,
    closure: Set<ChangeHash>,
    pi: int,
    bi: int,
)
    requires
        strictly_sorted(fs),
        strictly_sorted(bs),
        fs.to_set().subset_of(closure),
        0 <= pi <= fs.len(),
        0 <= bi <= bs.len(),
    ensures
        required_frontier(fs.to_set(), bs.to_set(), closure) == frontier_done(fs, bs, closure, pi, bi).union(
            frontier_rest(fs, bs, closure, pi, bi),
        ),
        frontier_done(fs, bs, closure, pi, bi).disjoint(frontier_rest(fs, bs, closure, pi, bi)),
{
    lemma_sorted_split(fs, pi);
    lemma_sorted_split(bs, bi);
    assert(fs.skip(pi).to_set().subset_of(closure)) by {
        assert forall|x: ChangeHash| fs.skip(pi).to_set().contains(x) implies closure.contains(x) by {
            let j = choose|j: int| 0 <= j < fs.len() - pi && fs.skip(pi)[j] == x;
            assert(fs[j + pi] == x);
            assert(fs.to_set().contains(x));
        }
    }
    assert(fs.take(pi).to_set().subset_of(closure)) by {
        assert forall|x: ChangeHash| fs.take(pi).to_set().contains(x) implies closure.contains(x) by {
            let j = choose|j: int| 0 <= j < pi && fs.take(pi)[j] == x;
            assert(fs[j] == x);
            assert(fs.to_set().contains(x));
        }
    }
    assert(required_frontier(fs.to_set(), bs.to_set(), closure) =~= frontier_done(fs, bs, closure, pi, bi).union(
        frontier_rest(fs, bs, closure, pi, bi),
    ));
}

/// Under the frontier rule, the dependencies after the matched prefix are
/// exactly the rest of the required frontier.
proof fn lemma_frontier_suffix(
    deps: Seq<ChangeHash>,
    fs: Seq<ChangeHash>,
    bs: Seq<ChangeHash>,
    closure: Set<ChangeHash>,
    di: int,
    pi: int,
    bi: int,
)
    requires
        strictly_sorted(fs),
        strictly_sorted(bs),
        fs.to_set().subset_of(closure),
        0 <= di <= deps.len(),
        0 <= pi <= fs.len(),
        0 <= bi <= bs.len(),
        deps.take(di).to_set() == frontier_done(fs, bs, closure, pi, bi),
        strictly_sorted(deps),
        deps.to_set() == required_frontier(fs.to_set(), bs.to_set(), closure),
    ensures
        deps.skip(di).to_set() == frontier_rest(fs, bs, closure, pi, bi),
{
    lemma_frontier_partition(fs, bs, closure, pi, bi);
    lemma_sorted_split(deps, di);
    let a = deps.take(di).to_set();
    let b = deps.skip(di).to_set();
    let r = frontier_rest(fs, bs, closure, pi, bi);
    let done = frontier_done(fs, bs, closure, pi, bi);
    assert forall|x: ChangeHash| b.contains(x) <==> r.contains(x) by {
        if b.contains(x) {
            assert(!a.contains(x));
            assert(a.union(b).contains(x));
            assert(deps.to_set().contains(x));
            assert(done.union(r).contains(x));
            assert(!done.contains(x));
        }
        if r.contains(x) {
            assert(done.union(r).contains(x));
            assert(deps.to_set().contains(x));
            assert(a.union(b).contains(x));
            assert(!done.contains(x));
            assert(!a.contains(x));
        }
    }
    assert(b =~= r);
}

/// The first dependency after a sorted prefix precedes or equals every later one.
proof fn lemma_sorted_head(s: Seq<ChangeHash>, k: int, x: ChangeHash)
    requires
        strictly_sorted(s),
        0 <= k < s.len(),
        s.skip(k).to_set().contains(x),
    ensures
        x == s[k] || s[k].precedes(x),
{
    let j = choose|j: int| 0 <= j < s.len() - k && s.skip(k)[j] == x;
    assert(s[j + k] == x);
    if j > 0 {
        assert(s[k].precedes(s[j + k]));
    }
}

/// `e` is the least member of `s`, in the order on hashes.
pub open spec fn least_of(s: Set<ChangeHash>, e: ChangeHash) -> bool {
    &&& s.contains(e)
    &&& forall|x: ChangeHash| #[trigger] s.contains(x) ==> x == e || e.precedes(x)
}

impl<'a> TrustedEpochProjection<'a> {
    /// Decides whether an empty `candidate` names exactly the projected
    /// frontier together with the base heads outside the accepted closure,
    /// strictly ascending. A change with operations passes at once.
    ///
    /// The three ascending sources are compared in one streaming pass; every
    /// read and comparison is charged first.
    pub fn empty_frontier_decision_metered(
        &self,
        candidate: &ChangeCandidate,
        base_frontier: &OrdSet<ChangeHash>,
        budget: &mut WorkBudget,
        cancellation: &impl CancellationCheck,
    ) -> (r: Result<(), MeteredActorStateError>)
        requires
            base_frontier.wf(),
        ensures
            budget_grew(*old(budget), *final(budget)),
            r == Err::<(), MeteredActorStateError>(MeteredActorStateError::Work(WorkStop::BudgetExhausted))
                ==> operations_exhausted(*final(budget)),
            r == Err::<(), MeteredActorStateError>(MeteredActorStateError::Work(WorkStop::Cancelled))
                ==> !cancellation.never_cancels(),
            r matches Err(MeteredActorStateError::State(e)) ==> e == ActorStateError::DependencyFrontier
                && !frontier_rule_holds(*candidate, self.frontier(), base_frontier@, self.closure()),
            r is Ok ==> frontier_rule_holds(*candidate, self.frontier(), base_frontier@, self.closure()),
            frontier_rule_holds(*candidate, self.frontier(), base_frontier@, self.closure()) ==> r is Ok
                || r matches Err(MeteredActorStateError::Work(_)),
            cancellation.never_cancels() && affords(
                *old(budget),
                (6 + 6 * (self.frontier().len() + base_frontier@.len())) as int,
            ) ==> !(r matches Err(MeteredActorStateError::Work(_))),
            final(budget).usage().operations() <= old(budget).usage().operations() + 6 + 6 * (
            self.frontier().len() + base_frontier@.len()),
            candidate.operation_count != 0 ==> final(budget).usage().operations() <= old(budget).usage().operations() + 1
                && (r is Ok || r matches Err(MeteredActorStateError::Work(_))),
            candidate.operation_count != 0 && r is Ok ==> final(budget).usage().operations() == old(
                budget,
            ).usage().operations() + 1,
    {
        proof {
            use_type_invariant(self);
        }
        let ghost start = *budget;
        let ghost cost: int = (6 + 6 * (self.frontier().len() + base_frontier@.len())) as int;
        charge_step(budget, cancellation, WorkCounter::GraphNode, Ghost(start))?;
        if candidate.operation_count != 0 {
            return Ok(());
        }
        charge_step(budget, cancellation, WorkCounter::GraphNode, Ghost(start))?;
        let dn = candidate.dependencies.len();
        charge_step(budget, cancellation, WorkCounter::GraphNode, Ghost(start))?;
        let pn = self.frontier_heads.len();
        charge_step(budget, cancellation, WorkCounter::GraphNode, Ghost(start))?;
        let bn = base_frontier.len();
        proof {
            crate::ordered::lemma_sorted_no_duplicates(self.frontier_heads.seq());
        }
        let ghost deps = candidate.dependencies@;
        let ghost fs = self.frontier_heads.seq();
        let ghost bs = base_frontier.seq();
        let ghost cl = self.accepted_closure@;
        let ghost holds = frontier_rule_holds(*candidate, self.frontier(), base_frontier@, self.closure());
        let mut di: usize = 0;
        let mut pi: usize = 0;
        let mut bi: usize = 0;
        let mut base_checked = false;
        proof {
            assert(deps.take(0).to_set() =~= frontier_done(fs, bs, cl, 0, 0));
        }
        loop
            invariant
                start == *old(budget),
                budget_grew(start, *budget),
                self.frontier_heads.wf(),
                self.accepted_closure.wf(),
                base_frontier.wf(),
                fs == self.frontier_heads.seq(),
                bs == base_frontier.seq(),
                cl == self.accepted_closure@,
                deps == candidate.dependencies@,
                candidate.operation_count == 0,
                fs.to_set().subset_of(cl),
                holds == frontier_rule_holds(*candidate, self.frontier(), base_frontier@, self.closure()),
                dn == deps.len(),
                pn == fs.len(),
                bn == bs.len(),
                di <= dn,
                pi <= pn,
                bi <= bn,
                strictly_sorted(deps.take(di as int)),
                deps.take(di as int).to_set() == frontier_done(fs, bs, cl, pi as int, bi as int),
                base_checked ==> bi < bn && !cl.contains(bs[bi as int]),
                cost == 6 + 6 * (pn + bn),
                cost == (6 + 6 * (self.frontier().len() + base_frontier@.len())) as int,
                budget.usage().operations() <= start.usage().operations() + 4 + 6 * (pi + bi) + (if base_checked {
                    2int
                } else {
                    0int
                }),
            decreases pn - pi + bn - bi,
        {
            let ghost bi0 = bi;
            while !base_checked && bi < bn
                invariant
                    bi0 <= bi,
                    candidate.operation_count == 0,
                    start == *old(budget),
                    budget_grew(start, *budget),
                    base_frontier.wf(),
                    self.accepted_closure.wf(),
                    bs == base_frontier.seq(),
                    cl == self.accepted_closure@,
                    bn == bs.len(),
                    bi <= bn,
                    deps.take(di as int).to_set() == frontier_done(fs, bs, cl, pi as int, bi as int),
                    base_checked ==> bi < bn && !cl.contains(bs[bi as int]),
                    pi <= pn,
                    pn == fs.len(),
                    cost == 6 + 6 * (pn + bn),
                cost == (6 + 6 * (self.frontier().len() + base_frontier@.len())) as int,
                    budget.usage().operations() <= start.usage().operations() + 4 + 6 * (pi + bi) + (if base_checked {
                        2int
                    } else {
                        0int
                    }),
                decreases bn - bi, (if base_checked { 0int } else { 1int }),
            {
                charge_step(budget, cancellation, WorkCounter::GraphNode, Ghost(start))?;
                let b = base_frontier.get(bi);
                charge_step(budget, cancellation, WorkCounter::GraphNode, Ghost(start))?;
                if self.accepted_closure.contains(&b) {
                    proof {
                        let k = bi as int;
                        assert(bs.take(k + 1) =~= bs.take(k).push(bs[k]));
                        bs.take(k).lemma_push_to_set_commute(bs[k]);
                        assert(bs.take(k + 1).to_set().difference(cl) =~= bs.take(k).to_set().difference(cl));
                        assert(frontier_done(fs, bs, cl, pi as int, k + 1) =~= frontier_done(fs, bs, cl, pi as int, k));
                    }
                    bi = bi + 1;
                } else {
                    base_checked = true;
                }
            }
            let ghost rest = frontier_rest(fs, bs, cl, pi as int, bi as int);
            if pi >= pn && !base_checked {
                proof {
                    assert(fs.skip(pi as int) =~= Seq::<ChangeHash>::empty());
                    assert(bs.skip(bi as int) =~= Seq::<ChangeHash>::empty());
                    assert(rest =~= Set::<ChangeHash>::empty());
                    lemma_frontier_partition(fs, bs, cl, pi as int, bi as int);
                    assert(frontier_done(fs, bs, cl, pi as int, bi as int).union(rest) =~= frontier_done(
                        fs,
                        bs,
                        cl,
                        pi as int,
                        bi as int,
                    ));
                    if holds {
                        lemma_frontier_suffix(deps, fs, bs, cl, di as int, pi as int, bi as int);
                        if di < dn {
                            assert(deps.skip(di as int)[0] == deps[di as int]);
                            assert(deps.skip(di as int).to_set().contains(deps[di as int]));
                        }
                    }
                }
                if di == dn {
                    proof {
                        assert(deps.take(dn as int) =~= deps);
                    }
                    return Ok(());
                }
                return Err(MeteredActorStateError::State(ActorStateError::DependencyFrontier));
            }
            let ghost old_pi = pi as int;
            let ghost old_bi = bi as int;
            let expected: ChangeHash;
            let ghost from_frontier: bool;
            if pi < pn && base_checked {
                charge_step(budget, cancellation, WorkCounter::GraphNode, Ghost(start))?;
                let p = self.frontier_heads.get(pi);
                let b = base_frontier.get(bi);
                if p.less_than(&b) {
                    expected = p;
                    proof {
                        from_frontier = true;
                    }
                    pi = pi + 1;
                } else if b.less_than(&p) {
                    expected = b;
                    proof {
                        from_frontier = false;
                    }
                    bi = bi + 1;
                    base_checked = false;
                } else {
                    proof {
                        ChangeHash::lemma_order(p, b, p);
                        assert(fs.to_set().contains(fs[old_pi]));
                        assert(false);
                    }
                    return Err(MeteredActorStateError::State(ActorStateError::DependencyFrontier));
                }
            } else if pi < pn {
                expected = self.frontier_heads.get(pi);
                proof {
                    from_frontier = true;
                }
                pi = pi + 1;
            } else {
                expected = base_frontier.get(bi);
                proof {
                    from_frontier = false;
                }
                bi = bi + 1;
                base_checked = false;
            }
            proof {
                // `expected` is the least member of the rest.
                assert(rest.contains(expected)) by {
                    if from_frontier {
                        assert(fs.skip(old_pi)[0] == expected);
                    } else {
                        assert(bs.skip(old_bi)[0] == expected);
                    }
                }
                assert forall|x: ChangeHash| #[trigger] rest.contains(x) implies x == expected || expected.precedes(x) by {
                    if fs.skip(old_pi).to_set().contains(x) {
                        lemma_sorted_head(fs, old_pi, x);
                        if !from_frontier {
                            ChangeHash::lemma_order(expected, fs[old_pi], x);
                        }
                    } else {
                        lemma_sorted_head(bs, old_bi, x);
                        if from_frontier {
                            ChangeHash::lemma_order(expected, bs[old_bi], x);
                        }
                    }
                }
                assert(least_of(rest, expected));
                // Consuming `expected` extends the consumed part by it.
                if from_frontier {
                    assert(fs.take(old_pi + 1) =~= fs.take(old_pi).push(fs[old_pi]));
                    fs.take(old_pi).lemma_push_to_set_commute(fs[old_pi]);
                    assert(frontier_done(fs, bs, cl, pi as int, bi as int) =~= frontier_done(
                        fs,
                        bs,
                        cl,
                        old_pi,
                        old_bi,
                    ).insert(expected));
                } else {
                    assert(bs.take(old_bi + 1) =~= bs.take(old_bi).push(bs[old_bi]));
                    bs.take(old_bi).lemma_push_to_set_commute(bs[old_bi]);
                    assert(frontier_done(fs, bs, cl, pi as int, bi as int) =~= frontier_done(
                        fs,
                        bs,
                        cl,
                        old_pi,
                        old_bi,
                    ).insert(expected));
                }
                if holds {
                    lemma_frontier_suffix(deps, fs, bs, cl, di as int, old_pi, old_bi);
                    if di < dn {
                        assert(deps.skip(di as int)[0] == deps[di as int]);
                        assert(deps.skip(di as int).to_set().contains(deps[di as int]));
                        lemma_sorted_head(deps, di as int, expected);
                        assert(rest.contains(deps[di as int]));
                        ChangeHash::lemma_order(expected, deps[di as int], expected);
                    } else {
                        assert(deps.skip(di as int) =~= Seq::<ChangeHash>::empty());
                    }
                }
            }
            if di == dn {
                return Err(MeteredActorStateError::State(ActorStateError::DependencyFrontier));
            }
            charge_step(budget, cancellation, WorkCounter::GraphEdge, Ghost(start))?;
            let a = candidate.dependencies[di];
            if di > 0 {
                charge_step(budget, cancellation, WorkCounter::GraphEdge, Ghost(start))?;
                if !candidate.dependencies[di - 1].less_than(&a) {
                    proof {
                        assert(!deps[di - 1].precedes(deps[di as int]));
                    }
                    return Err(MeteredActorStateError::State(ActorStateError::DependencyFrontier));
                }
            }
            charge_step(budget, cancellation, WorkCounter::GraphEdge, Ghost(start))?;
            if !a.same_as(&expected) {
                return Err(MeteredActorStateError::State(ActorStateError::DependencyFrontier));
            }
            proof {
                let k = di as int;
                assert(deps.take(k + 1) =~= deps.take(k).push(deps[k]));
                deps.take(k).lemma_push_to_set_commute(deps[k]);
                assert forall|i: int, j: int| 0 <= i < j < k + 1 implies #[trigger] deps.take(k + 1)[i].precedes(
                    #[trigger] deps.take(k + 1)[j],
                ) by {
                    if j < k {
                        assert(deps.take(k)[i] == deps.take(k + 1)[i]);
                        assert(deps.take(k)[j] == deps.take(k + 1)[j]);
                    } else if i < k - 1 {
                        assert(deps.take(k)[i] == deps[i]);
                        assert(deps.take(k)[k - 1] == deps[k - 1]);
                        ChangeHash::lemma_order(deps[i], deps[k - 1], deps[k]);
                    }
                }
            }
            di = di + 1;
        }
    }
}

} // verus!

verus! {

/// What the complete semantic decision owes for `c`: actor sequence first,
/// then the causal counter, then the empty-change frontier.
pub open spec fn candidate_semantics_outcome(
    p: TrustedEpochProjection,
    c: ChangeCandidate,
    base: Set<ChangeHash>,
) -> Result<(), ActorStateError> {
    match actor_sequence_outcome(p.states(), p.membership(), c) {
        Err(e) => Err(e),
        Ok(_) => match causal_next_outcome(p.causal_next(), c) {
            Err(e) => Err(e),
            Ok(_) => if frontier_rule_holds(c, p.frontier(), base, p.closure()) {
                Ok(())
            } else {
                Err(ActorStateError::DependencyFrontier)
            },
        },
    }
}

impl<'a> TrustedEpochProjection<'a> {
    /// Applies the actor-sequence, causal-counter and empty-frontier
    /// decisions in that order; the first failure stops the rest.
    pub fn candidate_semantics_decision_metered(
        &self,
        candidate: &ChangeCandidate,
        base_frontier: &OrdSet<ChangeHash>,
        budget: &mut WorkBudget,
        cancellation: &impl CancellationCheck,
    ) -> (r: Result<(), MeteredActorStateError>)
        requires
            base_frontier.wf(),
        ensures
            budget_grew(*old(budget), *final(budget)),
            r == Err::<(), MeteredActorStateError>(MeteredActorStateError::Work(WorkStop::BudgetExhausted))
                ==> operations_exhausted(*final(budget)),
            r == Err::<(), MeteredActorStateError>(MeteredActorStateError::Work(WorkStop::Cancelled))
                ==> !cancellation.never_cancels(),
            r matches Err(MeteredActorStateError::State(e)) ==> candidate_semantics_outcome(
                *self,
                *candidate,
                base_frontier@,
            ) == Err::<(), ActorStateError>(e),
            r is Ok ==> candidate_semantics_outcome(*self, *candidate, base_frontier@) is Ok,
            candidate_semantics_outcome(*self, *candidate, base_frontier@) is Ok ==> r is Ok
                || r matches Err(MeteredActorStateError::Work(_)),
            cancellation.never_cancels() && affords(
                *old(budget),
                (13 + 6 * (self.frontier().len() + base_frontier@.len())) as int,
            ) ==> !(r matches Err(MeteredActorStateError::Work(_))),
            final(budget).usage().operations() <= old(budget).usage().operations() + 13 + 6 * (
            self.frontier().len() + base_frontier@.len()),
    {
        let ghost b0 = *budget;
        self.actor_sequence_decision_metered(candidate, budget, cancellation)?;
        let ghost b1 = *budget;
        let counted = self.causal_next_decision_metered(candidate, budget, cancellation);
        proof {
            lemma_budget_grew_trans(b0, b1, *budget);
        }
        if let Err(e) = counted {
            return Err(e);
        }
        let ghost b2 = *budget;
        let r = self.empty_frontier_decision_metered(candidate, base_frontier, budget, cancellation);
        proof {
            lemma_budget_grew_trans(b0, b2, *budget);
        }
        r
    }
}

} // verus!

verus! {

/// The counter a change reaches: its first counter plus its operations.
pub open spec fn reached(c: ChangeCandidate) -> int {
    c.start_op + c.operation_count
}

/// `v` is the greatest counter reached by any change of `s`.
pub open spec fn greatest_reached(changes: Map<ChangeHash, ChangeCandidate>, s: Set<ChangeHash>, v: int) -> bool {
    &&& forall|y: ChangeHash| #[trigger] s.contains(y) ==> reached(changes[y]) <= v
    &&& exists|y: ChangeHash| #[trigger] s.contains(y) && reached(changes[y]) == v
}

/// Change `h` starts at one when `s`, its dependencies, is empty, and
/// otherwise at the greatest counter reached by any of them.
pub open spec fn starts_after(changes: Map<ChangeHash, ChangeCandidate>, h: ChangeHash, s: Set<ChangeHash>) -> bool {
    if s == Set::<ChangeHash>::empty() {
        changes[h].start_op == 1
    } else {
        greatest_reached(changes, s, changes[h].start_op as int)
    }
}

/// For each unprocessed node, `causal` holds exactly when some dependency is
/// processed, and then the greatest counter the processed ones reached.
pub open spec fn causal_tracks(
    deps: Map<ChangeHash, Set<ChangeHash>>,
    changes: Map<ChangeHash, ChangeCandidate>,
    causal: Map<ChangeHash, u64>,
    done: Set<ChangeHash>,
) -> bool {
    forall|x: ChangeHash| #[trigger] deps.contains_key(x) && !done.contains(x) ==> {
        &&& causal.contains_key(x) <==> deps[x].intersect(done) != Set::<ChangeHash>::empty()
        &&& causal.contains_key(x) ==> greatest_reached(changes, deps[x].intersect(done), causal[x] as int)
    }
}

/// Replaying a least-first order keeps every counter it propagates the
/// greatest one reached so far, and every change it accepts starts where its
/// dependencies end.
proof fn lemma_replay_tracks(
    deps: Map<ChangeHash, Set<ChangeHash>>,
    changes: Map<ChangeHash, ChangeCandidate>,
    o: Seq<ChangeHash>,
    k: int,
)
    requires
        greedy_prefix(deps, o),
        0 <= k <= o.len(),
        replay(deps, changes, o, k) is Ok,
    ensures
        causal_tracks(deps, changes, replay(deps, changes, o, k)->Ok_0.causal, o.take(k).to_set()),
        forall|i: int| 0 <= i < k ==> #[trigger] starts_after(changes, o[i], deps[o[i]]),
    decreases k,
{
    if k == 0 {
        let done = o.take(0).to_set();
        assert(done =~= Set::<ChangeHash>::empty());
        assert forall|x: ChangeHash| #[trigger] deps.contains_key(x) && !done.contains(x) implies deps[x].intersect(done)
            == Set::<ChangeHash>::empty() by {
            assert(deps[x].intersect(done) =~= Set::<ChangeHash>::empty());
        }
    } else {
        if replay(deps, changes, o, k - 1) is Err {
            assert(replay(deps, changes, o, k) is Err);
        }
        lemma_replay_tracks(deps, changes, o, k - 1);
        let acc = replay(deps, changes, o, k - 1)->Ok_0;
        let h = o[k - 1];
        let c = changes[h];
        let done = o.take(k - 1).to_set();
        let done2 = o.take(k).to_set();
        assert(o.take(k) =~= o.take(k - 1).push(h));
        o.take(k - 1).lemma_push_to_set_commute(h);
        assert(done2 == done.insert(h));
        assert(is_least(ready_set(deps, done), h));
        assert(is_ready(deps, done, h));
        let step = replay_step(deps, acc, h, c);
        assert(replay(deps, changes, o, k) == step);
        assert(c.start_op == expected_start(acc.causal, h));
        let adv = advanced_counter(c.start_op, c.operation_count)->0;
        assert(advanced_counter(c.start_op, c.operation_count) is Some);
        assert(adv as int == reached(c));
        let kids = children_of_node(deps, h);
        let causal2 = raise_causal(acc.causal.insert(h, adv), kids, adv);
        assert(step->Ok_0.causal == causal2);
        assert(deps[h].intersect(done) =~= deps[h]);
        assert(starts_after(changes, h, deps[h])) by {
            if deps[h] == Set::<ChangeHash>::empty() {
                assert(!acc.causal.contains_key(h));
            } else {
                assert(acc.causal.contains_key(h));
            }
        }
        assert forall|i: int| 0 <= i < k implies #[trigger] starts_after(changes, o[i], deps[o[i]]) by {
            if i < k - 1 {
            }
        }
        assert forall|x: ChangeHash| #[trigger] deps.contains_key(x) && !done2.contains(x) implies {
            &&& causal2.contains_key(x) <==> deps[x].intersect(done2) != Set::<ChangeHash>::empty()
            &&& causal2.contains_key(x) ==> greatest_reached(changes, deps[x].intersect(done2), causal2[x] as int)
        } by {
            assert(x != h);
            assert(!done.contains(x));
            let old_s = deps[x].intersect(done);
            let new_s = deps[x].intersect(done2);
            if deps[x].contains(h) {
                assert(kids.contains(x));
                assert(new_s =~= old_s.insert(h));
                assert(new_s.contains(h));
                assert(new_s != Set::<ChangeHash>::empty());
                assert(causal2.contains_key(x));
                if acc.causal.contains_key(x) {
                    assert(greatest_reached(changes, old_s, acc.causal[x] as int));
                    let w = choose|y: ChangeHash| #[trigger] old_s.contains(y) && reached(changes[y]) == acc.causal[x] as int;
                    if acc.causal[x] >= adv {
                        assert(causal2[x] == acc.causal[x]);
                        assert(new_s.contains(w));
                    } else {
                        assert(causal2[x] == adv);
                    }
                } else {
                    assert(old_s =~= Set::<ChangeHash>::empty()) by {
                        if old_s != Set::<ChangeHash>::empty() {
                            assert(acc.causal.contains_key(x));
                        }
                    }
                    assert(causal2[x] == adv);
                    assert(new_s =~= set![h]);
                }
            } else {
                assert(!kids.contains(x));
                assert(new_s =~= old_s);
                assert(causal2.contains_key(x) == acc.causal.contains_key(x));
                if acc.causal.contains_key(x) {
                    assert(causal2[x] == acc.causal[x]);
                }
            }
        }
    }
}

/// In a closure whose projection succeeds, every member starts at the
/// greatest counter any of its dependencies reached (a dependency reaches its
/// first counter plus its operations), or at one when it has none, whatever
/// order its dependencies were processed in.
pub proof fn lemma_projection_starts(
    members: Seq<ChangeHash>,
    changes: Map<ChangeHash, ChangeCandidate>,
    o: Seq<ChangeHash>,
    r: Result<TrustedEpochProjection, MeteredActorStateError>,
    m: ChangeHash,
)
    requires
        strictly_sorted(members),
        greedy_order(member_deps(members, changes, members.len() as int), o),
        projection_owed(members, changes, o, r),
        r is Ok,
        members.contains(m),
    ensures
        starts_after(changes, m, changes[m].dependencies@.to_set()),
{
    let n = members.len() as int;
    let d = member_deps(members, changes, n);
    assert(members.take(n) =~= members);
    assert(first_member_problem(members, changes, n) is None);
    assert(replay(d, changes, o, o.len() as int) is Ok);
    assert(o.len() >= n);
    lemma_replay_tracks(d, changes, o, o.len() as int);
    crate::ordered::lemma_sorted_no_duplicates(members);
    members.unique_seq_to_set();
    assert(o.no_duplicates()) by {
        assert forall|i: int, j: int| 0 <= i < j < o.len() implies o[i] != o[j] by {
            assert(is_least(ready_set(d, o.take(j).to_set()), o[j]));
            assert(o.take(j)[i] == o[i]);
            assert(o.take(j).to_set().contains(o[i]));
        }
    }
    o.unique_seq_to_set();
    let ms = members.to_set();
    assert(o.to_set().subset_of(ms)) by {
        assert forall|x: ChangeHash| o.to_set().contains(x) implies ms.contains(x) by {
            let i = choose|i: int| 0 <= i < o.len() && o[i] == x;
            assert(is_least(ready_set(d, o.take(i).to_set()), o[i]));
        }
    }
    assert(o.to_set().contains(m)) by {
        if !o.to_set().contains(m) {
            assert(o.to_set().subset_of(ms.remove(m)));
            vstd::seq_lib::seq_to_set_is_finite(members);
            vstd::set_lib::lemma_len_subset(o.to_set(), ms.remove(m));
        }
    }
    let i = choose|i: int| 0 <= i < o.len() && o[i] == m;
    assert(starts_after(changes, o[i], d[o[i]]));
    assert(d[m] == changes[m].dependencies@.to_set());
}

} // verus!
