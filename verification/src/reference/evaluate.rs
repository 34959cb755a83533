//! Verdicts of control branches and the propagation of control dispositions
//! from parents to their descendants.

use vstd::prelude::*;
use crate::ordered::{OrdMap, OrdSet, lemma_sorted_prefix_step};
use crate::reference::branch_state::{PersistentDeltaMap, extended_layers, key_prefix, lemma_key_prefix_step, lemma_visited_bound};
use crate::reference::epoch_engine::{PriorChangeKnowledge, PriorKnowledgeState};
use crate::types::{ChangeHash, EventId, ProtocolDisposition};
use crate::work_budget::{
    CancellationCheck, WorkBudget, affords, WorkCounter, WorkStop, WorkUsage, budget_grew, budget_within_limits, charge_from,
    lemma_budget_grew_trans, operations_exhausted,
};

verus! {

/// How a branch of control events evaluated.
#[derive(Clone, Copy, Debug, PartialEq, Eq, Structural)]
pub enum BranchEvaluationState {
    /// Every control on the branch is statefully valid.
    Valid,
    /// The branch waits for missing evidence.
    Pending,
    /// The branch breaks a protocol rule.
    Invalid,
}

impl BranchEvaluationState {
    /// The disposition a branch in this state receives, given whether it is
    /// the canonical branch.
    pub fn final_disposition(self, canonical: bool) -> (d: ProtocolDisposition)
        ensures
            d == (match self {
                BranchEvaluationState::Valid => if canonical {
                    ProtocolDisposition::Accepted
                } else {
                    ProtocolDisposition::Excluded
                },
                BranchEvaluationState::Pending => ProtocolDisposition::Pending,
                BranchEvaluationState::Invalid => ProtocolDisposition::Invalid,
            }),
    {
        match self {
            BranchEvaluationState::Valid => if canonical {
                ProtocolDisposition::Accepted
            } else {
                ProtocolDisposition::Excluded
            },
            BranchEvaluationState::Pending => ProtocolDisposition::Pending,
            BranchEvaluationState::Invalid => ProtocolDisposition::Invalid,
        }
    }
}

/// The entry of `m` for `k`, if any.
pub open spec fn entry<K, V>(m: Map<K, V>, k: K) -> Option<V> {
    if m.contains_key(k) {
        Some(m[k])
    } else {
        None
    }
}

/// The disposition a control takes from its parent's: a pending parent makes
/// it pending, an invalid or unsupported parent makes it invalid, and any
/// other parent leaves its own disposition.
pub open spec fn inherited(
    parent: Option<ProtocolDisposition>,
    own: Option<ProtocolDisposition>,
) -> Option<ProtocolDisposition> {
    match parent {
        Some(ProtocolDisposition::Pending) => Some(ProtocolDisposition::Pending),
        Some(ProtocolDisposition::Invalid) => Some(ProtocolDisposition::Invalid),
        Some(ProtocolDisposition::UnsupportedRevision) => Some(ProtocolDisposition::Invalid),
        _ => own,
    }
}

/// The disposition of the known control `x` after propagation agrees with
/// that of its parent, read after propagation too.
pub open spec fn settled_by_parent(
    parents: Map<EventId, Option<EventId>>,
    before: Map<EventId, ProtocolDisposition>,
    after: Map<EventId, ProtocolDisposition>,
    x: EventId,
) -> bool {
    match parents[x] {
        None => entry(after, x) == entry(before, x),
        Some(p) => entry(after, x) == inherited(entry(after, p), entry(before, x)),
    }
}

/// `x` is a known control with a parent, and so are the next `n` controls up
/// its parent chain.
pub open spec fn climbs(parents: Map<EventId, Option<EventId>>, x: EventId, n: nat) -> bool
    decreases n,
{
    if n == 0 {
        parents.contains_key(x) && parents[x] is Some
    } else {
        parents.contains_key(x) && parents[x] is Some && climbs(parents, parents[x]->0, (n - 1) as nat)
    }
}

/// The parent chain of `x` never leaves the known controls: it runs into a cycle.
pub open spec fn never_rooted(parents: Map<EventId, Option<EventId>>, x: EventId) -> bool {
    forall|n: nat| #[trigger] climbs(parents, x, n)
}

/// `after` is `before` with dispositions carried down every parent chain:
/// unknown controls keep theirs, each known control is settled against its
/// parent, and a control whose chain runs into a cycle is invalid.
pub open spec fn propagated(
    parents: Map<EventId, Option<EventId>>,
    before: Map<EventId, ProtocolDisposition>,
    after: Map<EventId, ProtocolDisposition>,
) -> bool {
    &&& forall|x: EventId| !parents.contains_key(x) ==> #[trigger] entry(after, x) == entry(before, x)
    &&& forall|x: EventId| #[trigger] parents.contains_key(x) ==> settled_by_parent(parents, before, after, x)
    &&& forall|x: EventId| #[trigger] never_rooted(parents, x) ==> entry(after, x) == Some(
        ProtocolDisposition::Invalid,
    )
}

/// What a parent does to a known child: a pending parent makes the child
/// pending, an invalid or unsupported parent makes it invalid, and an
/// accepted or excluded parent, or one with no disposition, leaves the child
/// with the disposition it had before propagation. A control with no parent
/// keeps its own.
pub proof fn lemma_parent_effect(
    parents: Map<EventId, Option<EventId>>,
    before: Map<EventId, ProtocolDisposition>,
    after: Map<EventId, ProtocolDisposition>,
    x: EventId,
)
    requires
        propagated(parents, before, after),
        parents.contains_key(x),
    ensures
        parents[x] is None ==> entry(after, x) == entry(before, x),
        parents[x] matches Some(p) && entry(after, p) == Some(ProtocolDisposition::Pending) ==> entry(after, x) == Some(
            ProtocolDisposition::Pending,
        ),
        parents[x] matches Some(p) && (entry(after, p) == Some(ProtocolDisposition::Invalid) || entry(after, p) == Some(
            ProtocolDisposition::UnsupportedRevision,
        )) ==> entry(after, x) == Some(ProtocolDisposition::Invalid),
        parents[x] matches Some(p) && (entry(after, p) == Some(ProtocolDisposition::Accepted) || entry(after, p) == Some(
            ProtocolDisposition::Excluded,
        ) || entry(after, p) is None) ==> entry(after, x) == entry(before, x),
{
    assert(settled_by_parent(parents, before, after, x));
}

/// Propagation has one outcome: any two dispositions that are both
/// `propagated` from the same parents and starting dispositions are equal,
/// whatever order the controls were visited in.
pub proof fn lemma_propagation_unique(
    parents: Map<EventId, Option<EventId>>,
    before: Map<EventId, ProtocolDisposition>,
    a: Map<EventId, ProtocolDisposition>,
    b: Map<EventId, ProtocolDisposition>,
)
    requires
        propagated(parents, before, a),
        propagated(parents, before, b),
    ensures
        a == b,
{
    assert forall|x: EventId| #[trigger] entry(a, x) == entry(b, x) by {
        if never_rooted(parents, x) {
        } else {
            let n = choose|n: nat| !#[trigger] climbs(parents, x, n);
            lemma_propagation_unique_at(parents, before, a, b, x, n);
        }
    }
    assert forall|x: EventId| a.contains_key(x) == b.contains_key(x) by {
        assert(entry(a, x) == entry(b, x));
    }
    assert forall|x: EventId| #[trigger] a.contains_key(x) implies a[x] == b[x] by {
        assert(entry(a, x) == entry(b, x));
    }
    assert(a =~= b);
}

/// Two propagated outcomes agree on a control whose parent chain leaves the
/// known controls within `n` steps.
proof fn lemma_propagation_unique_at(
    parents: Map<EventId, Option<EventId>>,
    before: Map<EventId, ProtocolDisposition>,
    a: Map<EventId, ProtocolDisposition>,
    b: Map<EventId, ProtocolDisposition>,
    x: EventId,
    n: nat,
)
    requires
        propagated(parents, before, a),
        propagated(parents, before, b),
        !climbs(parents, x, n),
    ensures
        entry(a, x) == entry(b, x),
    decreases n,
{
    if !parents.contains_key(x) {
        assert(entry(a, x) == entry(before, x));
        assert(entry(b, x) == entry(before, x));
    } else {
        assert(settled_by_parent(parents, before, a, x));
        assert(settled_by_parent(parents, before, b, x));
        match parents[x] {
            None => {},
            Some(p) => {
                if !parents.contains_key(p) {
                    assert(entry(a, p) == entry(before, p));
                    assert(entry(b, p) == entry(before, p));
                } else {
                    assert(n > 0);
                    lemma_propagation_unique_at(parents, before, a, b, p, (n - 1) as nat);
                }
            },
        }
    }
}

/// A chain that never leaves the known controls continues with the parent.
proof fn lemma_never_rooted_parent(parents: Map<EventId, Option<EventId>>, x: EventId)
    requires
        never_rooted(parents, x),
    ensures
        parents.contains_key(x),
        parents[x] is Some,
        parents.contains_key(parents[x]->0),
        never_rooted(parents, parents[x]->0),
{
    assert(climbs(parents, x, 0));
    assert(climbs(parents, x, 1));
    let p = parents[x]->0;
    assert(climbs(parents, p, 0));
    assert forall|n: nat| #[trigger] climbs(parents, p, n) by {
        assert(climbs(parents, x, n + 1));
    }
}

/// The parent of `x`, if it is a known control, is in `done`.
spec fn rooted_or_resolved(parents: Map<EventId, Option<EventId>>, done: Set<EventId>, x: EventId) -> bool {
    match parents[x] {
        None => true,
        Some(p) => !parents.contains_key(p) || done.contains(p),
    }
}

/// Controls outside `done` keep their dispositions; controls in `done` are
/// known, closed under known parents, settled, and invalid when their chain
/// runs into a cycle.
spec fn propagation_progress(
    parents: Map<EventId, Option<EventId>>,
    before: Map<EventId, ProtocolDisposition>,
    after: Map<EventId, ProtocolDisposition>,
    done: Set<EventId>,
) -> bool {
    &&& forall|x: EventId| !done.contains(x) ==> #[trigger] entry(after, x) == entry(before, x)
    &&& forall|x: EventId| #[trigger] done.contains(x) ==> {
        &&& parents.contains_key(x)
        &&& rooted_or_resolved(parents, done, x)
        &&& settled_by_parent(parents, before, after, x)
        &&& (never_rooted(parents, x) ==> entry(after, x) == Some(ProtocolDisposition::Invalid))
    }
}

/// The members of `path` at positions `lo .. hi`.
spec fn among(path: Seq<EventId>, lo: int, hi: int) -> Set<EventId> {
    Set::new(|x: EventId| exists|j: int| lo <= j < hi && path[j] == x)
}

proof fn lemma_among_extend(path: Seq<EventId>, lo: int, hi: int)
    requires
        0 <= lo <= hi < path.len(),
    ensures
        among(path, lo, hi + 1) == among(path, lo, hi).insert(path[hi]),
        among(path, hi, hi) == Set::<EventId>::empty(),
{
    assert(among(path, lo, hi + 1) =~= among(path, lo, hi).insert(path[hi])) by {
        assert forall|x: EventId| #[trigger] among(path, lo, hi + 1).contains(x) implies among(path, lo, hi).insert(
            path[hi],
        ).contains(x) by {
            let j = choose|j: int| lo <= j < hi + 1 && path[j] == x;
            if j < hi {
                assert(among(path, lo, hi).contains(x));
            }
        }
        assert forall|x: EventId| #[trigger] among(path, lo, hi).insert(path[hi]).contains(x) implies among(
            path,
            lo,
            hi + 1,
        ).contains(x) by {
            if x == path[hi] {
                assert(lo <= hi < hi + 1 && path[hi] == x);
            } else {
                let j = choose|j: int| lo <= j < hi && path[j] == x;
                assert(lo <= j < hi + 1 && path[j] == x);
            }
        }
    }
    assert(among(path, hi, hi) =~= Set::<EventId>::empty());
}

proof fn lemma_among_prepend(path: Seq<EventId>, lo: int, hi: int)
    requires
        0 < lo <= hi <= path.len(),
    ensures
        among(path, lo - 1, hi) == among(path, lo, hi).insert(path[lo - 1]),
{
    assert(among(path, lo - 1, hi) =~= among(path, lo, hi).insert(path[lo - 1])) by {
        assert forall|x: EventId| #[trigger] among(path, lo - 1, hi).contains(x) implies among(path, lo, hi).insert(
            path[lo - 1],
        ).contains(x) by {
            let j = choose|j: int| lo - 1 <= j < hi && path[j] == x;
            if j >= lo {
                assert(among(path, lo, hi).contains(x));
            }
        }
        assert forall|x: EventId| #[trigger] among(path, lo, hi).insert(path[lo - 1]).contains(x) implies among(
            path,
            lo - 1,
            hi,
        ).contains(x) by {
            if x == path[lo - 1] {
                assert(lo - 1 <= lo - 1 < hi && path[lo - 1] == x);
            } else {
                let j = choose|j: int| lo <= j < hi && path[j] == x;
                assert(lo - 1 <= j < hi && path[j] == x);
            }
        }
    }
}

/// The known controls that have a parent.
pub open spec fn with_parent(parents: Map<EventId, Option<EventId>>) -> Set<EventId> {
    Set::new(|x: EventId| parents.contains_key(x) && parents[x] is Some)
}

/// The members of `s` that are known controls with a parent.
spec fn linked(parents: Map<EventId, Option<EventId>>, s: Set<EventId>) -> Set<EventId> {
    Set::new(|x: EventId| s.contains(x) && parents.contains_key(x) && parents[x] is Some)
}

/// `after` is `before` with `extra` more control units and nothing else.
pub open spec fn control_units_added(before: WorkUsage, after: WorkUsage, extra: int) -> bool {
    &&& after.used(WorkCounter::Control) == before.used(WorkCounter::Control) + extra
    &&& forall|c: WorkCounter| c != WorkCounter::Control ==> #[trigger] after.used(c) == before.used(c)
}

/// Control units alone add to the operations charged.
proof fn lemma_control_units_ops(before: WorkUsage, after: WorkUsage, extra: int)
    requires
        control_units_added(before, after, extra),
    ensures
        after.operations() == before.operations() + extra,
{
    assert(after.used(WorkCounter::GraphNode) == before.used(WorkCounter::GraphNode));
    assert(after.used(WorkCounter::GraphEdge) == before.used(WorkCounter::GraphEdge));
    assert(after.used(WorkCounter::ApplyChange) == before.used(WorkCounter::ApplyChange));
    assert(after.used(WorkCounter::Assertion) == before.used(WorkCounter::Assertion));
}

/// The linked members of two disjoint sets are together no more numerous
/// than the controls with a parent.
proof fn lemma_linked_within(parents: Map<EventId, Option<EventId>>, a: Set<EventId>, b: Set<EventId>)
    requires
        parents.dom().finite(),
        a.finite(),
        b.finite(),
        a.disjoint(b),
    ensures
        linked(parents, a).len() + linked(parents, b).len() <= with_parent(parents).len(),
        with_parent(parents).finite(),
{
    lemma_linked_union(parents, a, b);
    assert(with_parent(parents).subset_of(parents.dom()));
    vstd::set_lib::lemma_len_subset(with_parent(parents), parents.dom());
    assert(linked(parents, a.union(b)).subset_of(with_parent(parents)));
    vstd::set_lib::lemma_len_subset(linked(parents, a.union(b)), with_parent(parents));
}

/// Adding a control to a finite set adds it to the linked members when it
/// has a parent.
proof fn lemma_linked_insert(parents: Map<EventId, Option<EventId>>, s: Set<EventId>, c: EventId)
    requires
        s.finite(),
        !s.contains(c),
    ensures
        linked(parents, s).finite(),
        linked(parents, s.insert(c)).finite(),
        linked(parents, s.insert(c)).len() == linked(parents, s).len() + if parents.contains_key(c)
            && parents[c] is Some {
            1int
        } else {
            0int
        },
{
    vstd::set_lib::lemma_len_subset(linked(parents, s), s);
    if parents.contains_key(c) && parents[c] is Some {
        assert(linked(parents, s.insert(c)) =~= linked(parents, s).insert(c));
    } else {
        assert(linked(parents, s.insert(c)) =~= linked(parents, s));
    }
}

/// Linked members of two disjoint finite sets add up.
proof fn lemma_linked_union(parents: Map<EventId, Option<EventId>>, a: Set<EventId>, b: Set<EventId>)
    requires
        a.finite(),
        b.finite(),
        a.disjoint(b),
    ensures
        linked(parents, a.union(b)).len() == linked(parents, a).len() + linked(parents, b).len(),
        linked(parents, a.union(b)).finite(),
{
    vstd::set_lib::lemma_len_subset(linked(parents, a), a);
    vstd::set_lib::lemma_len_subset(linked(parents, b), b);
    assert(linked(parents, a.union(b)) =~= linked(parents, a) + linked(parents, b));
    vstd::set_lib::lemma_set_disjoint_lens(linked(parents, a), linked(parents, b));
}

/// What a climb from `start` found: a path of distinct unresolved known
/// controls, each the child of the next, ending in a cycle back to position
/// `k` or at a control whose parent is absent, unknown, or resolved.
spec fn climbed(
    parents: Map<EventId, Option<EventId>>,
    done: Set<EventId>,
    start: EventId,
    path: Seq<EventId>,
    cycle_from: Option<usize>,
) -> bool {
    &&& path.len() > 0
    &&& path[0] == start
    &&& forall|j: int| 0 <= j < path.len() ==> parents.contains_key(#[trigger] path[j]) && !done.contains(
        path[j],
    )
    &&& forall|i: int, j: int| 0 <= i < j < path.len() ==> path[i] != path[j]
    &&& forall|j: int| 0 <= j < path.len() - 1 ==> parents[#[trigger] path[j]] == Some(path[j + 1])
    &&& match cycle_from {
        Some(k) => k < path.len() && parents[path.last()] == Some(path[k as int]),
        None => rooted_or_resolved(parents, done, path.last()),
    }
}

/// Follows parents up from `start` until the chain reaches a resolved or
/// unknown control, a root, or a control already on the path; one control
/// unit is charged for each parent link followed.
#[verifier::spinoff_prover]
fn climb_from(
    parents: &OrdMap<EventId, Option<EventId>>,
    start: EventId,
    resolved: &OrdSet<EventId>,
    budget: &mut WorkBudget,
    cancellation: &impl CancellationCheck,
) -> (r: Result<(Vec<EventId>, Option<usize>), WorkStop>)
    requires
        parents.wf(),
        resolved.wf(),
        parents@.contains_key(start),
        !resolved@.contains(start),
    ensures
        budget_grew(*old(budget), *final(budget)),
        r == Err::<(Vec<EventId>, Option<usize>), WorkStop>(WorkStop::BudgetExhausted) ==> operations_exhausted(
            *final(budget),
        ),
        r == Err::<(Vec<EventId>, Option<usize>), WorkStop>(WorkStop::Cancelled) ==> !cancellation.never_cancels(),
        r matches Ok((path, cycle_from)) ==> climbed(parents@, resolved@, start, path@, cycle_from),
        r matches Ok((path, cycle_from)) ==> control_units_added(
            old(budget).usage(),
            final(budget).usage(),
            linked(parents@, path@.to_set()).len() as int,
        ),
        cancellation.never_cancels() && affords(
            *old(budget),
            with_parent(parents@).len() - linked(parents@, resolved@).len(),
        ) ==> r is Ok,
{
    let ghost pm = parents@;
    let ghost start_budget = *budget;
    let n = parents.len();
    proof {
        parents.lemma_len();
    }
    let mut path: Vec<EventId> = Vec::new();
    let mut positions: OrdMap<EventId, usize> = OrdMap::new();
    let mut current = start;
    proof {
        assert(linked(pm, path@.to_set()) =~= Set::<EventId>::empty());
        vstd::seq_lib::seq_to_set_is_finite(resolved.seq());
    }
    loop
        invariant
            parents.wf(),
            positions.wf(),
            resolved.wf(),
            pm == parents@,
            n == pm.dom().len(),
            pm.dom().finite(),
            start_budget == *old(budget),
            budget_grew(start_budget, *budget),
            pm.contains_key(current),
            pm.contains_key(start),
            !resolved@.contains(start),
            path@.len() == 0 ==> current == start,
            path@.len() > 0 ==> path@[0] == start && pm[path@.last()] == Some(current),
            forall|j: int| 0 <= j < path@.len() ==> pm.contains_key(#[trigger] path@[j]) && !resolved@.contains(
                path@[j],
            ),
            forall|j: int| 0 <= j < path@.len() - 1 ==> pm[#[trigger] path@[j]] == Some(path@[j + 1]),
            forall|j: int|
                0 <= j < path@.len() ==> positions@.contains_key(#[trigger] path@[j]) && positions@[path@[j]]
                    == j,
            forall|x: EventId|
                #[trigger] positions@.contains_key(x) ==> positions@[x] < path@.len() && path@[positions@[x] as int]
                    == x,
            positions@.dom().subset_of(pm.dom()),
            positions@.dom().finite(),
            positions@.dom().len() == path@.len(),
            path@.len() <= n,
            control_units_added(start_budget.usage(), budget.usage(), linked(pm, path@.to_set()).len() as int),
            resolved@.finite(),
        decreases n - path@.len(),
    {
        proof {
            assert forall|i: int, j: int| 0 <= i < j < path@.len() implies path@[i] != path@[j] by {
                assert(positions@[path@[i]] == i);
                assert(positions@[path@[j]] == j);
            }
        }
        if resolved.contains(&current) {
            return Ok((path, None));
        }
        match positions.get(&current) {
            Some(k) => {
                let k = *k;
                return Ok((path, Some(k)));
            },
            None => {},
        }
        let ghost old_path = path@;
        let ghost old_pos = positions@;
        positions.insert(current, path.len());
        path.push(current);
        proof {
            assert(!old_path.to_set().contains(current)) by {
                if old_path.to_set().contains(current) {
                    let j = choose|j: int| 0 <= j < old_path.len() && old_path[j] == current;
                    assert(old_pos.contains_key(old_path[j]));
                }
            }
            old_path.lemma_push_to_set_commute(current);
            lemma_linked_insert(pm, old_path.to_set(), current);
            assert(positions@.dom() =~= old_pos.dom().insert(current));
            vstd::set_lib::lemma_len_subset(positions@.dom(), pm.dom());
            assert forall|j: int| 0 <= j < path@.len() implies positions@.contains_key(#[trigger] path@[j])
                && positions@[path@[j]] == j by {
                if j < old_path.len() {
                    assert(old_pos.contains_key(old_path[j]));
                }
            }
            assert forall|j: int| 0 <= j < path@.len() - 1 implies pm[#[trigger] path@[j]] == Some(
                path@[j + 1],
            ) by {
                if j < old_path.len() - 1 {
                    assert(pm[old_path[j]] == Some(old_path[j + 1]));
                }
            }
        }
        let step = match parents.get(&current) {
            Some(p) => *p,
            None => None,
        };
        let parent = match step {
            Some(p) => p,
            None => {
                return Ok((path, None));
            },
        };
        let ghost before_charge = budget.usage();
        proof {
            lemma_control_units_ops(start_budget.usage(), before_charge, linked(pm, old_path.to_set()).len() as int);
            assert(path@.to_set().disjoint(resolved@)) by {
                assert forall|x: EventId| #[trigger] path@.to_set().contains(x) implies !resolved@.contains(x) by {
                    let j = choose|j: int| 0 <= j < path@.len() && path@[j] == x;
                }
            }
            lemma_linked_within(pm, path@.to_set(), resolved@);
            lemma_linked_insert(pm, old_path.to_set(), current);
            assert(path@.to_set() == old_path.to_set().insert(current));
        }
        let c = charge_from(budget, cancellation, WorkCounter::Control, Ghost(start_budget));
        proof {
            match c {
                Err(WorkStop::Cancelled) => {},
                Err(WorkStop::BudgetExhausted) => {},
                Ok(()) => {},
            }
        }
        if let Err(e) = c {
            return Err(e);
        }
        proof {
            assert forall|c: WorkCounter| c != WorkCounter::Control implies #[trigger] budget.usage().used(c)
                == start_budget.usage().used(c) by {
                assert(budget.usage().used(c) == before_charge.used(c));
            }
        }
        if !parents.contains_key(&parent) {
            return Ok((path, None));
        }
        current = parent;
    }
}

/// Marks the controls at positions `from ..` of `path` invalid and resolved.
fn mark_cycle(
    path: &Vec<EventId>,
    from: usize,
    dispositions: &mut OrdMap<EventId, ProtocolDisposition>,
    resolved: &mut OrdSet<EventId>,
)
    requires
        old(dispositions).wf(),
        old(resolved).wf(),
        from <= path@.len(),
    ensures
        final(dispositions).wf(),
        final(resolved).wf(),
        forall|x: EventId| #[trigger]
            entry(final(dispositions)@, x) == if among(path@, from as int, path@.len() as int).contains(x) {
                Some(ProtocolDisposition::Invalid)
            } else {
                entry(old(dispositions)@, x)
            },
        final(resolved)@ == old(resolved)@.union(among(path@, from as int, path@.len() as int)),
{
    let ghost d_start = dispositions@;
    let ghost r_start = resolved@;
    let mut j = from;
    proof {
        assert(among(path@, from as int, from as int) =~= Set::<EventId>::empty());
        assert(r_start.union(Set::<EventId>::empty()) =~= r_start);
    }
    while j < path.len()
        invariant
            dispositions.wf(),
            resolved.wf(),
            from <= j <= path@.len(),
            d_start == old(dispositions)@,
            r_start == old(resolved)@,
            forall|x: EventId| #[trigger]
                entry(dispositions@, x) == if among(path@, from as int, j as int).contains(x) {
                    Some(ProtocolDisposition::Invalid)
                } else {
                    entry(d_start, x)
                },
            resolved@ == r_start.union(among(path@, from as int, j as int)),
        decreases path@.len() - j,
    {
        let ghost before = dispositions@;
        let event_id = path[j];
        dispositions.insert(event_id, ProtocolDisposition::Invalid);
        resolved.insert(event_id);
        proof {
            lemma_among_extend(path@, from as int, j as int);
            assert(resolved@ =~= r_start.union(among(path@, from as int, j + 1)));
            assert forall|x: EventId| #[trigger]
                entry(dispositions@, x) == if among(path@, from as int, j + 1).contains(x) {
                    Some(ProtocolDisposition::Invalid)
                } else {
                    entry(d_start, x)
                } by {
                if x != event_id {
                    assert(entry(dispositions@, x) == entry(before, x));
                }
            }
        }
        j = j + 1;
    }
}

/// Settles the controls at positions `.. len` of `path`, last first: each
/// takes its disposition from its parent's and becomes resolved.
#[verifier::spinoff_prover]
fn settle_path(
    parents: &OrdMap<EventId, Option<EventId>>,
    path: &Vec<EventId>,
    len: usize,
    dispositions: &mut OrdMap<EventId, ProtocolDisposition>,
    resolved: &mut OrdSet<EventId>,
    Ghost(initial): Ghost<Map<EventId, ProtocolDisposition>>,
)
    requires
        parents.wf(),
        old(dispositions).wf(),
        old(resolved).wf(),
        len <= path@.len(),
        propagation_progress(parents@, initial, old(dispositions)@, old(resolved)@),
        forall|j: int| 0 <= j < len ==> parents@.contains_key(#[trigger] path@[j]) && !old(
            resolved,
        )@.contains(path@[j]),
        forall|i: int, j: int| 0 <= i < j < len ==> path@[i] != path@[j],
        forall|j: int| 0 <= j && j + 1 < len ==> parents@[#[trigger] path@[j]] == Some(path@[j + 1]),
        len > 0 ==> rooted_or_resolved(parents@, old(resolved)@, path@[len - 1]),
    ensures
        final(dispositions).wf(),
        final(resolved).wf(),
        final(resolved)@ == old(resolved)@.union(among(path@, 0, len as int)),
        propagation_progress(parents@, initial, final(dispositions)@, final(resolved)@),
{
    let ghost pm = parents@;
    let ghost r_start = resolved@;
    let mut j = len;
    proof {
        assert(among(path@, len as int, len as int) =~= Set::<EventId>::empty());
        assert(r_start.union(Set::<EventId>::empty()) =~= r_start);
    }
    while j > 0
        invariant
            parents.wf(),
            dispositions.wf(),
            resolved.wf(),
            pm == parents@,
            j <= len <= path@.len(),
            r_start == old(resolved)@,
            resolved@ == r_start.union(among(path@, j as int, len as int)),
            propagation_progress(pm, initial, dispositions@, resolved@),
            forall|i: int| 0 <= i < len ==> pm.contains_key(#[trigger] path@[i]) && !r_start.contains(path@[i]),
            forall|a: int, b: int| 0 <= a < b < len ==> path@[a] != path@[b],
            forall|i: int| 0 <= i && i + 1 < len ==> pm[#[trigger] path@[i]] == Some(path@[i + 1]),
            j > 0 ==> rooted_or_resolved(pm, resolved@, path@[j - 1]),
        decreases j,
    {
        let child = path[j - 1];
        let ghost d_before = dispositions@;
        let ghost done = resolved@;
        proof {
            assert(pm.contains_key(path@[j - 1]));
            assert(!done.contains(child)) by {
                if among(path@, j as int, len as int).contains(child) {
                    let b = choose|b: int| j <= b < len && path@[b] == child;
                    assert(path@[j - 1] != path@[b]);
                }
            }
        }
        let step = match parents.get(&child) {
            Some(p) => *p,
            None => None,
        };
        match step {
            Some(parent) => {
                match dispositions.get(&parent) {
                    Some(ProtocolDisposition::Pending) => {
                        dispositions.insert(child, ProtocolDisposition::Pending);
                    },
                    Some(ProtocolDisposition::Invalid) | Some(ProtocolDisposition::UnsupportedRevision) => {
                        dispositions.insert(child, ProtocolDisposition::Invalid);
                    },
                    _ => {},
                }
            },
            None => {},
        }
        resolved.insert(child);
        proof {
            let d = dispositions@;
            let done2 = resolved@;
            assert(forall|x: EventId| x != child ==> #[trigger] entry(d, x) == entry(d_before, x));
            assert(entry(d_before, child) == entry(initial, child));
            assert(settled_by_parent(pm, initial, d, child)) by {
                match pm[child] {
                    Some(p) => {
                        if pm.contains_key(p) {
                            assert(done.contains(p));
                        }
                        assert(p != child);
                        assert(entry(d, p) == entry(d_before, p));
                    },
                    None => {},
                }
            }
            if never_rooted(pm, child) {
                lemma_never_rooted_parent(pm, child);
                let p = pm[child]->0;
                assert(done.contains(p));
                assert(p != child);
            }
            assert forall|x: EventId| #[trigger] done2.contains(x) implies {
                &&& pm.contains_key(x)
                &&& rooted_or_resolved(pm, done2, x)
                &&& settled_by_parent(pm, initial, d, x)
                &&& (never_rooted(pm, x) ==> entry(d, x) == Some(ProtocolDisposition::Invalid))
            } by {
                if x != child {
                    assert(done.contains(x));
                    match pm[x] {
                        Some(p) => {
                            if pm.contains_key(p) {
                                assert(done.contains(p));
                            }
                        },
                        None => {},
                    }
                }
            }
            lemma_among_prepend(path@, j as int, len as int);
            assert(done2 =~= r_start.union(among(path@, j - 1, len as int)));
            if j > 1 {
                assert(pm[path@[j - 2]] == Some(path@[j - 1]));
            }
        }
        j = j - 1;
    }
}

/// After the cycle at positions `k ..` of a climbed path is marked invalid
/// and resolved, progress still holds, the positions before `k` are
/// unresolved, and the last of them leads into the resolved cycle.
proof fn lemma_marked_cycle(
    pm: Map<EventId, Option<EventId>>,
    initial: Map<EventId, ProtocolDisposition>,
    d_before: Map<EventId, ProtocolDisposition>,
    d: Map<EventId, ProtocolDisposition>,
    r_before: Set<EventId>,
    done: Set<EventId>,
    path: Seq<EventId>,
    k: usize,
)
    requires
        propagation_progress(pm, initial, d_before, r_before),
        climbed(pm, r_before, path[0], path, Some(k)),
        forall|x: EventId| #[trigger]
            entry(d, x) == if among(path, k as int, path.len() as int).contains(x) {
                Some(ProtocolDisposition::Invalid)
            } else {
                entry(d_before, x)
            },
        done == r_before.union(among(path, k as int, path.len() as int)),
    ensures
        propagation_progress(pm, initial, d, done),
        forall|j: int| 0 <= j < k ==> !done.contains(#[trigger] path[j]),
        k > 0 ==> rooted_or_resolved(pm, done, path[k - 1]),
{
    let cyc = among(path, k as int, path.len() as int);
    assert forall|x: EventId| #[trigger] cyc.contains(x) implies {
        &&& pm.contains_key(x)
        &&& rooted_or_resolved(pm, done, x)
        &&& settled_by_parent(pm, initial, d, x)
        &&& (never_rooted(pm, x) ==> entry(d, x) == Some(ProtocolDisposition::Invalid))
    } by {
        let j = choose|j: int| k <= j < path.len() && path[j] == x;
        assert(pm.contains_key(path[j]));
        let q = if j + 1 < path.len() {
            assert(pm[path[j]] == Some(path[j + 1]));
            j + 1
        } else {
            k as int
        };
        assert(pm[x] == Some(path[q]));
        assert(cyc.contains(path[q])) by {
            assert(k <= q < path.len() && path[q] == path[q]);
        }
        assert(entry(d, path[q]) == Some(ProtocolDisposition::Invalid));
    }
    assert forall|x: EventId| #[trigger] done.contains(x) implies {
        &&& pm.contains_key(x)
        &&& rooted_or_resolved(pm, done, x)
        &&& settled_by_parent(pm, initial, d, x)
        &&& (never_rooted(pm, x) ==> entry(d, x) == Some(ProtocolDisposition::Invalid))
    } by {
        if !cyc.contains(x) {
            assert(r_before.contains(x));
            assert(entry(d, x) == entry(d_before, x));
            match pm[x] {
                Some(p) => {
                    if pm.contains_key(p) {
                        assert(r_before.contains(p));
                        if cyc.contains(p) {
                            let j = choose|j: int| k <= j < path.len() && path[j] == p;
                            assert(!r_before.contains(path[j]));
                        }
                        assert(entry(d, p) == entry(d_before, p));
                    }
                },
                None => {},
            }
        }
    }
    assert forall|x: EventId| !done.contains(x) implies #[trigger] entry(d, x) == entry(
        initial,
        x,
    ) by {
        assert(!r_before.contains(x));
        assert(entry(d_before, x) == entry(initial, x));
    }
    assert forall|j: int| 0 <= j < k implies !done.contains(#[trigger] path[j]) by {
        if cyc.contains(path[j]) {
            let b = choose|b: int| k <= b < path.len() && path[b] == path[j];
            assert(path[j] != path[b]);
        }
    }
    if k > 0 {
        assert(pm[path[k - 1]] == Some(path[k as int]));
        assert(cyc.contains(path[k as int])) by {
            assert(k <= k < path.len() && path[k as int] == path[k as int]);
        }
    }
}

/// Climbs from the unresolved control `start`, marks a cycle it runs into
/// invalid, and settles the climbed path; progress holds whether or not it
/// stops.
#[verifier::spinoff_prover]
fn resolve_chain(
    parents: &OrdMap<EventId, Option<EventId>>,
    start: EventId,
    dispositions: &mut OrdMap<EventId, ProtocolDisposition>,
    resolved: &mut OrdSet<EventId>,
    budget: &mut WorkBudget,
    cancellation: &impl CancellationCheck,
    Ghost(initial): Ghost<Map<EventId, ProtocolDisposition>>,
) -> (r: Result<(), WorkStop>)
    requires
        parents.wf(),
        old(dispositions).wf(),
        old(resolved).wf(),
        parents@.contains_key(start),
        !old(resolved)@.contains(start),
        propagation_progress(parents@, initial, old(dispositions)@, old(resolved)@),
    ensures
        final(dispositions).wf(),
        final(resolved).wf(),
        budget_grew(*old(budget), *final(budget)),
        r == Err::<(), WorkStop>(WorkStop::BudgetExhausted) ==> operations_exhausted(*final(budget)),
        r == Err::<(), WorkStop>(WorkStop::Cancelled) ==> !cancellation.never_cancels(),
        propagation_progress(parents@, initial, final(dispositions)@, final(resolved)@),
        old(resolved)@.subset_of(final(resolved)@),
        r is Ok ==> final(resolved)@.contains(start),
        r is Ok ==> control_units_added(
            old(budget).usage(),
            final(budget).usage(),
            linked(parents@, final(resolved)@).len() - linked(parents@, old(resolved)@).len(),
        ),
        cancellation.never_cancels() && affords(
            *old(budget),
            with_parent(parents@).len() - linked(parents@, old(resolved)@).len(),
        ) ==> r is Ok,
{
    let ghost pm = parents@;
    let ghost start_budget = *budget;
    let ghost before = *budget;
    let climb = climb_from(parents, start, resolved, budget, cancellation);
    proof {
        lemma_budget_grew_trans(start_budget, before, *budget);
    }
    let (path, cycle_from) = match climb {
        Ok(found) => found,
        Err(stop) => {
            return Err(stop);
        },
    };
    let ghost r_before = resolved@;
    let ghost climbed_usage = budget.usage();
    let settle_len = match cycle_from {
        Some(k) => {
            let ghost d_before = dispositions@;
            mark_cycle(&path, k, dispositions, resolved);
            proof {
                lemma_marked_cycle(pm, initial, d_before, dispositions@, r_before, resolved@, path@, k);
            }
            k
        },
        None => path.len(),
    };
    let ghost r_mid = resolved@;
    settle_path(parents, &path, settle_len, dispositions, resolved, Ghost(initial));
    proof {
        assert(resolved@.contains(start)) by {
            if settle_len > 0 {
                assert(among(path@, 0, settle_len as int).contains(path@[0])) by {
                    assert(0 <= 0 < settle_len && path@[0] == path@[0]);
                }
            } else {
                assert(among(path@, 0, path@.len() as int).contains(path@[0])) by {
                    assert(0 <= 0 < path@.len() && path@[0] == path@[0]);
                }
                assert(r_mid.contains(start));
            }
        }
        let ps = path@.to_set();
        assert(resolved@ =~= r_before.union(ps)) by {
            assert forall|x: EventId| #[trigger] ps.contains(x) implies resolved@.contains(x) by {
                let j = choose|j: int| 0 <= j < path@.len() && path@[j] == x;
                if j < settle_len {
                    assert(among(path@, 0, settle_len as int).contains(x)) by {
                        assert(0 <= j < settle_len && path@[j] == x);
                    }
                } else {
                    assert(among(path@, settle_len as int, path@.len() as int).contains(x)) by {
                        assert(settle_len <= j < path@.len() && path@[j] == x);
                    }
                }
            }
            assert forall|x: EventId| #[trigger] resolved@.contains(x) && !r_before.contains(x) implies ps.contains(x) by {
                if among(path@, 0, settle_len as int).contains(x) {
                    let j = choose|j: int| 0 <= j < settle_len && path@[j] == x;
                    assert(path@.contains(x));
                } else {
                    assert(among(path@, settle_len as int, path@.len() as int).contains(x));
                    let j = choose|j: int| settle_len <= j < path@.len() && path@[j] == x;
                    assert(path@.contains(x));
                }
            }
        }
        assert(r_before.disjoint(ps)) by {
            assert forall|x: EventId| #[trigger] ps.contains(x) implies !r_before.contains(x) by {
                let j = choose|j: int| 0 <= j < path@.len() && path@[j] == x;
            }
        }
        lemma_linked_union(pm, r_before, ps);
        assert(climbed_usage == budget.usage());
    }
    Ok(())
}

/// Carries pending and invalid dispositions from each control to its
/// descendants along `parents`, and marks every control whose parent chain
/// runs into a cycle invalid.
///
/// Controls are visited in ascending order; from each unresolved control the
/// chain is climbed once and then settled from the top down. Each parent
/// link is followed once, after a cancellation check and a charge of one
/// control unit, so a completed propagation charges one unit for each known
/// control that has a parent. A stop leaves the dispositions of controls
/// outside `parents` untouched.
#[verifier::spinoff_prover]
pub fn propagate_control_parent_dispositions(
    parents: &OrdMap<EventId, Option<EventId>>,
    dispositions: &mut OrdMap<EventId, ProtocolDisposition>,
    budget: &mut WorkBudget,
    cancellation: &impl CancellationCheck,
) -> (r: Result<(), WorkStop>)
    requires
        parents.wf(),
        old(dispositions).wf(),
    ensures
        final(dispositions).wf(),
        budget_grew(*old(budget), *final(budget)),
        r is Ok ==> propagated(parents@, old(dispositions)@, final(dispositions)@),
        forall|x: EventId| !parents@.contains_key(x) ==> #[trigger] entry(final(dispositions)@, x) == entry(
            old(dispositions)@,
            x,
        ),
        r == Err::<(), WorkStop>(WorkStop::BudgetExhausted) ==> operations_exhausted(*final(budget)),
        r == Err::<(), WorkStop>(WorkStop::Cancelled) ==> !cancellation.never_cancels(),
        r is Ok ==> control_units_added(old(budget).usage(), final(budget).usage(), with_parent(parents@).len() as int),
        cancellation.never_cancels() && affords(*old(budget), with_parent(parents@).len() as int) ==> r is Ok,
        cancellation.never_cancels() && operations_exhausted(*old(budget)) && with_parent(parents@).len() > 0
            ==> r == Err::<(), WorkStop>(WorkStop::BudgetExhausted),
{
    let ghost pm = parents@;
    let ghost initial = dispositions@;
    let ghost start_budget = *budget;
    let mut resolved: OrdSet<EventId> = OrdSet::new();
    let n = parents.len();
    let mut i: usize = 0;
    proof {
        assert(resolved@ =~= Set::<EventId>::empty());
        assert(linked(pm, resolved@) =~= Set::<EventId>::empty());
    }
    while i < n
        invariant
            parents.wf(),
            dispositions.wf(),
            resolved.wf(),
            pm == parents@,
            initial == old(dispositions)@,
            start_budget == *old(budget),
            n == parents.key_seq().len(),
            i <= n,
            budget_grew(start_budget, *budget),
            propagation_progress(pm, initial, dispositions@, resolved@),
            forall|j: int| 0 <= j < i ==> resolved@.contains(#[trigger] parents.key_seq()[j]),
            control_units_added(start_budget.usage(), budget.usage(), linked(pm, resolved@).len() as int),
        decreases n - i,
    {
        let start = parents.key_at(i);
        proof {
            parents.lemma_position(i as int);
        }
        if !resolved.contains(&start) {
            let ghost before = *budget;
            let ghost r_before = resolved@;
            proof {
                lemma_control_units_ops(start_budget.usage(), budget.usage(), linked(pm, resolved@).len() as int);
            }
            let resolved_chain = resolve_chain(parents, start, dispositions, &mut resolved, budget, cancellation, Ghost(initial));
            proof {
                lemma_budget_grew_trans(start_budget, before, *budget);
            }
            match resolved_chain {
                Ok(()) => {
                    proof {
                        assert forall|c: WorkCounter| c != WorkCounter::Control implies #[trigger] budget.usage().used(
                            c,
                        ) == start_budget.usage().used(c) by {
                            assert(budget.usage().used(c) == before.usage().used(c));
                        }
                    }
                },
                Err(stop) => {
                    proof {
                        assert forall|x: EventId| !pm.contains_key(x) implies #[trigger] entry(
                            dispositions@,
                            x,
                        ) == entry(initial, x) by {
                            if resolved@.contains(x) {
                                assert(pm.contains_key(x));
                            }
                        }
                    }
                    return Err(stop);
                },
            }
            proof {
                assert forall|j: int| 0 <= j < i + 1 implies resolved@.contains(#[trigger] parents.key_seq()[j]) by {
                    if j < i {
                        assert(r_before.contains(parents.key_seq()[j]));
                    }
                }
            }
        }
        i = i + 1;
    }
    proof {
        let d = dispositions@;
        let done = resolved@;
        assert forall|x: EventId| #[trigger] pm.contains_key(x) implies done.contains(x) by {
            assert(parents.key_seq().contains(x));
            let j = choose|j: int| 0 <= j < parents.key_seq().len() && parents.key_seq()[j] == x;
            assert(done.contains(parents.key_seq()[j]));
        }
        assert forall|x: EventId| #[trigger] never_rooted(pm, x) implies entry(d, x) == Some(
            ProtocolDisposition::Invalid,
        ) by {
            assert(climbs(pm, x, 0));
            assert(done.contains(x));
        }
        assert forall|x: EventId| !pm.contains_key(x) implies #[trigger] entry(d, x) == entry(initial, x) by {
            if done.contains(x) {
                assert(pm.contains_key(x));
            }
        }
        assert(linked(pm, done) =~= with_parent(pm));
        lemma_control_units_ops(start_budget.usage(), budget.usage(), with_parent(pm).len() as int);
    }
    budget_within_limits(budget);
    Ok(())
}

/// The entries of `local`, completed by those of `additional` that it lacks.
pub open spec fn prepared_knowledge(
    local: Map<ChangeHash, PriorChangeKnowledge>,
    additional: Option<Map<ChangeHash, PriorChangeKnowledge>>,
) -> Map<ChangeHash, PriorChangeKnowledge> {
    match additional {
        Some(extra) => extra.union_prefer_right(local),
        None => local,
    }
}

/// How many changes the parent accepted, none when it has no closure.
pub open spec fn accepted_size(accepted: Option<&OrdSet<ChangeHash>>) -> nat {
    match accepted {
        Some(a) => a@.len(),
        None => 0,
    }
}

/// How many entries the optional additional knowledge holds.
pub open spec fn extra_size(additional: Option<&OrdMap<ChangeHash, PriorChangeKnowledge>>) -> nat {
    match additional {
        Some(extra) => extra@.dom().len(),
        None => 0,
    }
}

/// Extends a parent's prior knowledge by a child's `local` knowledge,
/// completed by `additional`; each additional entry is charged one node unit
/// before it is read and one before it is stored, and publication is charged
/// as `extend_prepared_metered` charges it.
pub fn extend_prior_knowledge_metered(
    parent: &PriorKnowledgeState,
    local: OrdMap<ChangeHash, PriorChangeKnowledge>,
    additional: Option<&OrdMap<ChangeHash, PriorChangeKnowledge>>,
    budget: &mut WorkBudget,
    cancellation: &impl CancellationCheck,
) -> (r: Result<PriorKnowledgeState, WorkStop>)
    requires
        local.wf(),
        additional matches Some(extra) ==> extra.wf(),
    ensures
        budget_grew(*old(budget), *final(budget)),
        r == Err::<PriorKnowledgeState, WorkStop>(WorkStop::BudgetExhausted) ==> operations_exhausted(
            *final(budget),
        ),
        r == Err::<PriorKnowledgeState, WorkStop>(WorkStop::Cancelled) ==> !cancellation.never_cancels(),
        r matches Ok(m) ==> m@ == parent@.union_prefer_right(
            prepared_knowledge(
                local@,
                match additional {
                    Some(extra) => Some(extra@),
                    None => None,
                },
            ),
        ),
        r matches Ok(m) ==> m.layer_maps() == extended_layers(
            parent.layer_maps(),
            prepared_knowledge(
                local@,
                match additional {
                    Some(extra) => Some(extra@),
                    None => None,
                },
            ),
        ),
        cancellation.never_cancels() && affords(
            *old(budget),
            (2 * extra_size(additional) + (local@.dom().len() + extra_size(additional)) * (2
                + parent.layer_maps().len())) as int,
        ) ==> r is Ok,
{
    let ghost orig = local@;
    let ghost start = *budget;
    let ghost per: int = (2 + parent.layer_maps().len()) as int;
    let ghost xs: int = extra_size(additional) as int;
    proof {
        local.lemma_len();
        assert(0 <= (orig.dom().len() + xs) * per) by (nonlinear_arith)
            requires
                per >= 2,
                xs >= 0,
        ;
    }
    let mut merged = local;
    match additional {
        Some(extra) => {
            let n = extra.len();
            let mut i: usize = 0;
            proof {
                assert(key_prefix(extra.key_seq(), extra@, 0) =~= Map::<ChangeHash, PriorChangeKnowledge>::empty());
                assert(Map::<ChangeHash, PriorChangeKnowledge>::empty().union_prefer_right(orig) =~= orig);
            }
            while i < n
                invariant
                    merged.wf(),
                    extra.wf(),
                    n == extra.key_seq().len(),
                    i <= n,
                    start == *old(budget),
                    budget_grew(start, *budget),
                    merged@ == key_prefix(extra.key_seq(), extra@, i as int).union_prefer_right(orig),
                    xs == extra@.dom().len(),
                    orig == local@,
                    per == 2 + parent.layer_maps().len(),
                    xs == extra_size(additional),
                    0 <= (orig.dom().len() + xs) * per,
                    n == xs,
                    budget.usage().operations() == start.usage().operations() + 2 * i,
                decreases n - i,
            {
                let c = charge_from(budget, cancellation, WorkCounter::GraphNode, Ghost(start));
                proof {
                    match c {
                        Err(WorkStop::Cancelled) => {},
                        Err(WorkStop::BudgetExhausted) => {},
                        Ok(()) => {},
                    }
                }
                if let Err(e) = c {
                    return Err(e);
                }
                let hash = extra.key_at(i);
                let item = *extra.value_at(i);
                let c = charge_from(budget, cancellation, WorkCounter::GraphNode, Ghost(start));
                proof {
                    match c {
                        Err(WorkStop::Cancelled) => {},
                        Err(WorkStop::BudgetExhausted) => {},
                        Ok(()) => {},
                    }
                }
                if let Err(e) = c {
                    return Err(e);
                }
                let ghost before = merged@;
                let present = merged.contains_key(&hash);
                if !present {
                    merged.insert(hash, item);
                }
                proof {
                    lemma_key_prefix_step(extra.key_seq(), extra@, i as int);
                    let p = key_prefix(extra.key_seq(), extra@, i as int);
                    if present {
                        assert(orig.contains_key(hash));
                        assert(p.insert(hash, item).union_prefer_right(orig) =~= before);
                    } else {
                        assert(p.insert(hash, item).union_prefer_right(orig) =~= before.insert(hash, item));
                    }
                }
                i = i + 1;
            }
            proof {
                extra.lemma_len();
                assert(extra.key_seq().take(n as int) =~= extra.key_seq());
                assert(key_prefix(extra.key_seq(), extra@, n as int) =~= extra@);
                assert(merged@.dom() =~= extra@.dom().union(orig.dom()));
                vstd::set_lib::lemma_len_union(extra@.dom(), orig.dom());
            }
        },
        None => {},
    }
    let ghost mid = *budget;
    proof {
        merged.lemma_len();
        assert(merged@.dom().len() * per <= (orig.dom().len() + xs) * per) by (nonlinear_arith)
            requires
                merged@.dom().len() <= orig.dom().len() + xs,
                per >= 2,
        ;
    }
    let r = parent.extend_prepared_metered(merged, budget, cancellation);
    proof {
        lemma_budget_grew_trans(start, mid, *budget);
    }
    r
}

/// The verdict a change accepted by the parent control carries into the
/// child: accepted when the child validated it into its base, else excluded.
pub open spec fn carried_verdict(validated: Set<ChangeHash>, h: ChangeHash) -> ProtocolDisposition {
    if validated.contains(h) {
        ProtocolDisposition::Accepted
    } else {
        ProtocolDisposition::Excluded
    }
}

/// The carried verdicts of `keys` that differ from `parent`'s dispositions.
pub open spec fn carried_changes(
    parent: Map<ChangeHash, ProtocolDisposition>,
    keys: Set<ChangeHash>,
    validated: Set<ChangeHash>,
) -> Map<ChangeHash, ProtocolDisposition> {
    Map::new(
        |h: ChangeHash| keys.contains(h) && entry(parent, h) != Some(carried_verdict(validated, h)),
        |h: ChangeHash| carried_verdict(validated, h),
    )
}

/// Acceptance of `keys`, where `parent` does not already accept them.
pub open spec fn acceptance_changes(
    parent: Map<ChangeHash, ProtocolDisposition>,
    keys: Set<ChangeHash>,
) -> Map<ChangeHash, ProtocolDisposition> {
    Map::new(
        |h: ChangeHash| keys.contains(h) && entry(parent, h) != Some(ProtocolDisposition::Accepted),
        |h: ChangeHash| ProtocolDisposition::Accepted,
    )
}

/// The epoch's dispositions of `keys` that differ from `parent`'s.
pub open spec fn epoch_changes(
    parent: Map<ChangeHash, ProtocolDisposition>,
    keys: Set<ChangeHash>,
    epoch: Map<ChangeHash, ProtocolDisposition>,
) -> Map<ChangeHash, ProtocolDisposition> {
    Map::new(|h: ChangeHash| keys.contains(h) && entry(parent, h) != Some(epoch[h]), |h: ChangeHash| epoch[h])
}

/// The entries a child branch adds over its parent's dispositions: first the
/// carried verdicts of the parent's accepted changes, then acceptance of the
/// validated base, then the epoch's own dispositions, each later step
/// overriding earlier ones and each kept only where it differs from the
/// parent.
pub open spec fn branch_delta(
    parent: Map<ChangeHash, ProtocolDisposition>,
    parent_accepted: Option<Set<ChangeHash>>,
    validated: Set<ChangeHash>,
    epoch: Map<ChangeHash, ProtocolDisposition>,
) -> Map<ChangeHash, ProtocolDisposition> {
    let carried = match parent_accepted {
        Some(accepted) => carried_changes(parent, accepted, validated),
        None => Map::empty(),
    };
    carried.union_prefer_right(acceptance_changes(parent, validated)).union_prefer_right(
        epoch_changes(parent, epoch.dom(), epoch),
    )
}

/// Whether the parent's disposition of `hash` is `wanted`, charging the
/// lookup as `get_metered` does.
fn parent_agrees(
    parent: &PersistentDeltaMap<ChangeHash, ProtocolDisposition>,
    hash: &ChangeHash,
    wanted: ProtocolDisposition,
    budget: &mut WorkBudget,
    cancellation: &impl CancellationCheck,
) -> (r: Result<bool, WorkStop>)
    ensures
        budget_grew(*old(budget), *final(budget)),
        r == Err::<bool, WorkStop>(WorkStop::BudgetExhausted) ==> operations_exhausted(*final(budget)),
        r == Err::<bool, WorkStop>(WorkStop::Cancelled) ==> !cancellation.never_cancels(),
        r matches Ok(b) ==> b == (entry(parent@, *hash) == Some(wanted)),
        final(budget).usage().operations() <= old(budget).usage().operations() + parent.layer_maps().len(),
        cancellation.never_cancels() && affords(*old(budget), parent.layer_maps().len() as int) ==> r is Ok,
{
    proof {
        lemma_visited_bound(parent.layer_maps(), *hash);
    }
    let found = parent.get_metered(hash, budget, cancellation);
    proof {
        match found {
            Err(WorkStop::Cancelled) => {},
            Err(WorkStop::BudgetExhausted) => {},
            Ok(_) => {},
        }
    }
    match found {
        Ok(Some(current)) => Ok(*current == wanted),
        Ok(None) => Ok(false),
        Err(e) => Err(e),
    }
}

/// The dispositions of a child branch: the parent's, extended by the entries
/// of `branch_delta`. Each item read is charged one node unit, each parent
/// lookup as `get_metered` charges it, each kept entry one node unit, and
/// publication as `extend_prepared_metered` charges it.
#[verifier::spinoff_prover]
pub fn extend_branch_dispositions_metered(
    parent: &PersistentDeltaMap<ChangeHash, ProtocolDisposition>,
    parent_accepted: Option<&OrdSet<ChangeHash>>,
    validated_base: &OrdSet<ChangeHash>,
    epoch_dispositions: &OrdMap<ChangeHash, ProtocolDisposition>,
    budget: &mut WorkBudget,
    cancellation: &impl CancellationCheck,
) -> (r: Result<PersistentDeltaMap<ChangeHash, ProtocolDisposition>, WorkStop>)
    requires
        parent_accepted matches Some(accepted) ==> accepted.wf(),
        validated_base.wf(),
        epoch_dispositions.wf(),
    ensures
        budget_grew(*old(budget), *final(budget)),
        r == Err::<PersistentDeltaMap<ChangeHash, ProtocolDisposition>, WorkStop>(WorkStop::BudgetExhausted)
            ==> operations_exhausted(*final(budget)),
        r == Err::<PersistentDeltaMap<ChangeHash, ProtocolDisposition>, WorkStop>(WorkStop::Cancelled)
            ==> !cancellation.never_cancels(),
        r matches Ok(m) ==> m@ == parent@.union_prefer_right(
            branch_delta(
                parent@,
                match parent_accepted {
                    Some(accepted) => Some(accepted@),
                    None => None,
                },
                validated_base@,
                epoch_dispositions@,
            ),
        ),
        cancellation.never_cancels() && affords(
            *old(budget),
            (2 * (accepted_size(parent_accepted) + validated_base@.len() + epoch_dispositions@.dom().len()) * (2
                + parent.layer_maps().len())) as int,
        ) ==> r is Ok,
{
    let ghost start = *budget;
    let ghost per: int = (2 + parent.layer_maps().len()) as int;
    let ghost sa: int = accepted_size(parent_accepted) as int;
    let ghost sv: int = validated_base@.len() as int;
    let ghost se: int = epoch_dispositions@.dom().len() as int;
    let ghost total: int = sa + sv + se;
    let ghost cost: int = (2 * (accepted_size(parent_accepted) + validated_base@.len() + epoch_dispositions@.dom().len())
        * (2 + parent.layer_maps().len())) as int;
    proof {
        assert(total * per >= 0) by (nonlinear_arith)
            requires
                total >= 0,
                per >= 2,
        ;
        assert(cost == total * per + total * per) by (nonlinear_arith)
            requires
                cost == 2 * total * per,
        ;
    }
    let ghost pv = parent@;
    let ghost vset = validated_base@;
    let mut local: OrdMap<ChangeHash, ProtocolDisposition> = OrdMap::new();
    let ghost carried: Map<ChangeHash, ProtocolDisposition> = Map::empty();
    match parent_accepted {
        Some(accepted) => {
            let n = accepted.len();
            let mut i: usize = 0;
            proof {
                assert(carried_changes(pv, accepted.seq().take(0).to_set(), vset) =~= local@);
            }
            while i < n
                invariant
                    local.wf(),
                    accepted.wf(),
                    validated_base.wf(),
                    pv == parent@,
                    vset == validated_base@,
                    n == accepted.seq().len(),
                    i <= n,
                    start == *old(budget),
                    budget_grew(start, *budget),
                    local@ == carried_changes(pv, accepted.seq().take(i as int).to_set(), vset),
                    per == 2 + parent.layer_maps().len(),
                    sa == accepted@.len(),
                    n == sa,
                    total == sa + sv + se,
                    sv == validated_base@.len(),
                    se == epoch_dispositions@.dom().len(),
                    sa == accepted_size(parent_accepted),
                    cost == total * per + total * per,
                    cost == (2 * (accepted_size(parent_accepted) + validated_base@.len() + epoch_dispositions@.dom().len())
                        * (2 + parent.layer_maps().len())) as int,
                    budget.usage().operations() <= start.usage().operations() + i * per,
                decreases n - i,
            {
                proof {
                    assert((i + 1) * per == i * per + per) by (nonlinear_arith);
                    assert((i + 1) * per <= total * per) by (nonlinear_arith)
                        requires
                            i + 1 <= total,
                            per >= 0,
                    ;
                }
                let c = charge_from(budget, cancellation, WorkCounter::GraphNode, Ghost(start));
                proof {
                    match c {
                        Err(WorkStop::Cancelled) => {},
                        Err(WorkStop::BudgetExhausted) => {},
                        Ok(()) => {},
                    }
                }
                if let Err(e) = c {
                    return Err(e);
                }
                let hash = accepted.get(i);
                let verdict = if validated_base.contains(&hash) {
                    ProtocolDisposition::Accepted
                } else {
                    ProtocolDisposition::Excluded
                };
                let ghost before = *budget;
                let agrees = parent_agrees(parent, &hash, verdict, budget, cancellation);
                proof {
                    lemma_budget_grew_trans(start, before, *budget);
                }
                let ghost old_local = local@;
                proof {
            match agrees {
                Err(WorkStop::Cancelled) => {},
                Err(WorkStop::BudgetExhausted) => {},
                Ok(_) => {},
            }
        }
        let agrees = match agrees {
            Ok(b) => b,
            Err(e) => {
                return Err(e);
            },
        };
        if !agrees {
                    let c = charge_from(budget, cancellation, WorkCounter::GraphNode, Ghost(start));
                    proof {
                        match c {
                            Err(WorkStop::Cancelled) => {},
                            Err(WorkStop::BudgetExhausted) => {},
                            Ok(()) => {},
                        }
                    }
                    if let Err(e) = c {
                        return Err(e);
                    }
                    local.insert(hash, verdict);
                }
                proof {
                    lemma_sorted_prefix_step(accepted.seq(), i as int);
                    assert(local@ =~= carried_changes(pv, accepted.seq().take(i + 1).to_set(), vset));
                }
                i = i + 1;
            }
            proof {
                assert(accepted.seq().take(n as int) =~= accepted.seq());
                carried = local@;
            }
        },
        None => {
            proof {
                assert(local@ =~= Map::<ChangeHash, ProtocolDisposition>::empty());
                carried = local@;
            }
        },
    }
    let n = validated_base.len();
    let mut i: usize = 0;
    proof {
        assert(carried.union_prefer_right(acceptance_changes(pv, validated_base.seq().take(0).to_set())) =~= local@);
    }
    while i < n
        invariant
            local.wf(),
            validated_base.wf(),
            pv == parent@,
            n == validated_base.seq().len(),
            i <= n,
            start == *old(budget),
            budget_grew(start, *budget),
            local@ == carried.union_prefer_right(acceptance_changes(pv, validated_base.seq().take(i as int).to_set())),
            per == 2 + parent.layer_maps().len(),
            n == sv,
            total == sa + sv + se,
            sv == validated_base@.len(),
            se == epoch_dispositions@.dom().len(),
            sa == accepted_size(parent_accepted),
            cost == total * per + total * per,
            cost == (2 * (accepted_size(parent_accepted) + validated_base@.len() + epoch_dispositions@.dom().len())
                * (2 + parent.layer_maps().len())) as int,
            budget.usage().operations() <= start.usage().operations() + (sa + i) * per,
        decreases n - i,
    {
        proof {
            assert((sa + i + 1) * per == (sa + i) * per + per) by (nonlinear_arith);
            assert((sa + i + 1) * per <= total * per) by (nonlinear_arith)
                requires
                    sa + i + 1 <= total,
                    per >= 0,
            ;
        }
        let c = charge_from(budget, cancellation, WorkCounter::GraphNode, Ghost(start));
        proof {
            match c {
                Err(WorkStop::Cancelled) => {},
                Err(WorkStop::BudgetExhausted) => {},
                Ok(()) => {},
            }
        }
        if let Err(e) = c {
            return Err(e);
        }
        let hash = validated_base.get(i);
        let ghost before = *budget;
        let agrees = parent_agrees(parent, &hash, ProtocolDisposition::Accepted, budget, cancellation);
        proof {
            lemma_budget_grew_trans(start, before, *budget);
        }
        proof {
            match agrees {
                Err(WorkStop::Cancelled) => {},
                Err(WorkStop::BudgetExhausted) => {},
                Ok(_) => {},
            }
        }
        let agrees = match agrees {
            Ok(b) => b,
            Err(e) => {
                return Err(e);
            },
        };
        if !agrees {
            let c = charge_from(budget, cancellation, WorkCounter::GraphNode, Ghost(start));
            proof {
                match c {
                    Err(WorkStop::Cancelled) => {},
                    Err(WorkStop::BudgetExhausted) => {},
                    Ok(()) => {},
                }
            }
            if let Err(e) = c {
                return Err(e);
            }
            local.insert(hash, ProtocolDisposition::Accepted);
        }
        proof {
            lemma_sorted_prefix_step(validated_base.seq(), i as int);
            assert(local@ =~= carried.union_prefer_right(
                acceptance_changes(pv, validated_base.seq().take(i + 1).to_set()),
            ));
        }
        i = i + 1;
    }
    proof {
        assert(validated_base.seq().take(n as int) =~= validated_base.seq());
    }
    let ghost accepted_stage = local@;
    let ghost ev = epoch_dispositions@;
    let n = epoch_dispositions.len();
    let mut i: usize = 0;
    proof {
        assert(accepted_stage.union_prefer_right(epoch_changes(pv, epoch_dispositions.key_seq().take(0).to_set(), ev))
            =~= local@);
    }
    while i < n
        invariant
            local.wf(),
            epoch_dispositions.wf(),
            pv == parent@,
            ev == epoch_dispositions@,
            n == epoch_dispositions.key_seq().len(),
            i <= n,
            start == *old(budget),
            budget_grew(start, *budget),
            local@ == accepted_stage.union_prefer_right(
                epoch_changes(pv, epoch_dispositions.key_seq().take(i as int).to_set(), ev),
            ),
            per == 2 + parent.layer_maps().len(),
            n == se,
            total == sa + sv + se,
            sv == validated_base@.len(),
            se == epoch_dispositions@.dom().len(),
            sa == accepted_size(parent_accepted),
            cost == total * per + total * per,
            cost == (2 * (accepted_size(parent_accepted) + validated_base@.len() + epoch_dispositions@.dom().len())
                * (2 + parent.layer_maps().len())) as int,
            budget.usage().operations() <= start.usage().operations() + (sa + sv + i) * per,
        decreases n - i,
    {
        proof {
            assert((sa + sv + i + 1) * per == (sa + sv + i) * per + per) by (nonlinear_arith);
            assert((sa + sv + i + 1) * per <= total * per) by (nonlinear_arith)
                requires
                    sa + sv + i + 1 <= total,
                    per >= 0,
            ;
        }
        let c = charge_from(budget, cancellation, WorkCounter::GraphNode, Ghost(start));
        proof {
            match c {
                Err(WorkStop::Cancelled) => {},
                Err(WorkStop::BudgetExhausted) => {},
                Ok(()) => {},
            }
        }
        if let Err(e) = c {
            return Err(e);
        }
        let hash = epoch_dispositions.key_at(i);
        let disposition = *epoch_dispositions.value_at(i);
        let ghost before = *budget;
        let agrees = parent_agrees(parent, &hash, disposition, budget, cancellation);
        proof {
            lemma_budget_grew_trans(start, before, *budget);
        }
        proof {
            match agrees {
                Err(WorkStop::Cancelled) => {},
                Err(WorkStop::BudgetExhausted) => {},
                Ok(_) => {},
            }
        }
        let agrees = match agrees {
            Ok(b) => b,
            Err(e) => {
                return Err(e);
            },
        };
        if !agrees {
            let c = charge_from(budget, cancellation, WorkCounter::GraphNode, Ghost(start));
            proof {
                match c {
                    Err(WorkStop::Cancelled) => {},
                    Err(WorkStop::BudgetExhausted) => {},
                    Ok(()) => {},
                }
            }
            if let Err(e) = c {
                return Err(e);
            }
            local.insert(hash, disposition);
        }
        proof {
            lemma_sorted_prefix_step(epoch_dispositions.key_seq(), i as int);
            assert(local@ =~= accepted_stage.union_prefer_right(
                epoch_changes(pv, epoch_dispositions.key_seq().take(i + 1).to_set(), ev),
            ));
        }
        i = i + 1;
    }
    proof {
        epoch_dispositions.lemma_len();
        assert(epoch_dispositions.key_seq().take(n as int) =~= epoch_dispositions.key_seq());
        assert(local@ =~= branch_delta(
            pv,
            match parent_accepted {
                Some(accepted) => Some(accepted@),
                None => None,
            },
            vset,
            ev,
        ));
    }
    proof {
        let a = match parent_accepted {
            Some(accepted) => accepted@,
            None => Set::<ChangeHash>::empty(),
        };
        assert(a.len() == sa);
        assert(local@.dom().subset_of(a.union(vset).union(ev.dom())));
        local.lemma_len();
        vstd::seq_lib::seq_to_set_is_finite(validated_base.seq());
        epoch_dispositions.lemma_len();
        match parent_accepted {
            Some(accepted) => {
                vstd::seq_lib::seq_to_set_is_finite(accepted.seq());
            },
            None => {},
        }
        vstd::set_lib::lemma_len_union(a, vset);
        vstd::set_lib::lemma_len_union(a.union(vset), ev.dom());
        vstd::set_lib::lemma_len_subset(local@.dom(), a.union(vset).union(ev.dom()));
        assert(local@.dom().len() * per <= total * per) by (nonlinear_arith)
            requires
                local@.dom().len() <= total,
                per >= 0,
        ;
        assert(2 * total * per == total * per + total * per) by (nonlinear_arith);
    }
    let ghost mid = *budget;
    let r = parent.extend_prepared_metered(local, budget, cancellation);
    proof {
        lemma_budget_grew_trans(start, mid, *budget);
    }
    r
}

} // verus!
