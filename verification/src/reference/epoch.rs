//! Dispositions of one epoch's candidates: scheduling followed by a
//! fixpoint that carries rejection and acceptance through dependencies.

use vstd::prelude::*;
use crate::graph::change_candidate::ChangeCandidate;
use crate::graph::schedule::{
    Schedule, ScheduleError, latest_map, max_deps, room, schedule_candidates, schedule_cost, schedule_spec,
};
use crate::ordered::{OrdMap, OrdSet, sets_view, sets_wf};
use crate::types::{ChangeHash, ProtocolDisposition};
use crate::work_budget::{
    CancellationCheck, WorkBudget, WorkCounter, WorkStop, affords, budget_grew, budget_within_limits, charge_from,
    lemma_budget_grew_trans, lemma_grew_operations, operations_exhausted,
};

verus! {

/// A change candidate with the verdicts of the checks made before scheduling.
#[derive(Debug)]
pub struct EpochCandidate {
    /// The candidate.
    pub candidate: ChangeCandidate,
    /// Whether its content passed semantic validation.
    pub semantically_valid: bool,
    /// Whether it was written under the canonical control.
    pub canonical_control: bool,
}

/// Whether the candidate goes on to scheduling.
pub open spec fn is_eligible(e: EpochCandidate) -> bool {
    e.canonical_control && e.semantically_valid
}

/// The eligible candidates among the first `n` inputs, in input order.
pub open spec fn eligible_prefix(inputs: Seq<EpochCandidate>, n: int) -> Seq<ChangeCandidate>
    decreases n,
{
    if n <= 0 {
        Seq::empty()
    } else if is_eligible(inputs[n - 1]) {
        eligible_prefix(inputs, n - 1).push(inputs[n - 1].candidate)
    } else {
        eligible_prefix(inputs, n - 1)
    }
}

/// The dispositions the first `n` inputs decide before scheduling: a later
/// input overrides an earlier one with the same hash.
pub open spec fn initial_dispositions(inputs: Seq<EpochCandidate>, n: int) -> Map<ChangeHash, ProtocolDisposition>
    decreases n,
{
    if n <= 0 {
        Map::empty()
    } else {
        let d = initial_dispositions(inputs, n - 1);
        let e = inputs[n - 1];
        if !e.canonical_control {
            d.insert(e.candidate.change_hash, ProtocolDisposition::Excluded)
        } else if !e.semantically_valid {
            d.insert(e.candidate.change_hash, ProtocolDisposition::Invalid)
        } else {
            d
        }
    }
}

/// Each input's dependency set; a later input overrides an earlier one.
pub open spec fn input_dependencies(inputs: Seq<EpochCandidate>, n: int) -> Map<ChangeHash, Set<ChangeHash>>
    decreases n,
{
    if n <= 0 {
        Map::empty()
    } else {
        input_dependencies(inputs, n - 1).insert(
            inputs[n - 1].candidate.change_hash,
            inputs[n - 1].candidate.dependencies@.to_set(),
        )
    }
}

/// `d` with every member of `s` set to `v`.
pub open spec fn overlay(
    d: Map<ChangeHash, ProtocolDisposition>,
    s: Set<ChangeHash>,
    v: ProtocolDisposition,
) -> Map<ChangeHash, ProtocolDisposition> {
    Map::new(|h: ChangeHash| d.contains_key(h) || s.contains(h), |h: ChangeHash| if s.contains(h) { v } else { d[h] })
}

/// The dispositions after recording a schedule: ordered changes accepted,
/// pending ones pending, cyclic ones invalid.
pub open spec fn scheduled_dispositions(
    d: Map<ChangeHash, ProtocolDisposition>,
    s: Schedule,
) -> Map<ChangeHash, ProtocolDisposition> {
    overlay(
        overlay(overlay(d, s.ordered@.to_set(), ProtocolDisposition::Accepted), s.pending@, ProtocolDisposition::Pending),
        s.cyclic@,
        ProtocolDisposition::Invalid,
    )
}

/// `x` is known invalid or excluded.
pub open spec fn is_rejected(d: Map<ChangeHash, ProtocolDisposition>, x: ChangeHash) -> bool {
    d.contains_key(x) && (d[x] == ProtocolDisposition::Invalid || d[x] == ProtocolDisposition::Excluded)
}

/// `x` is accepted, in the base or in this epoch.
pub open spec fn is_settled(d: Map<ChangeHash, ProtocolDisposition>, base: Set<ChangeHash>, x: ChangeHash) -> bool {
    base.contains(x) || (d.contains_key(x) && d[x] == ProtocolDisposition::Accepted)
}

/// The change one round makes to `h`: an accepted or pending change with a
/// rejected dependency becomes invalid; a pending change whose dependencies
/// are all settled becomes accepted.
pub open spec fn update_of(
    deps: Map<ChangeHash, Set<ChangeHash>>,
    base: Set<ChangeHash>,
    d: Map<ChangeHash, ProtocolDisposition>,
    h: ChangeHash,
) -> Option<ProtocolDisposition> {
    if deps.contains_key(h) && d.contains_key(h) && (d[h] == ProtocolDisposition::Accepted || d[h]
        == ProtocolDisposition::Pending) {
        if exists|x: ChangeHash| #[trigger] deps[h].contains(x) && is_rejected(d, x) {
            Some(ProtocolDisposition::Invalid)
        } else if d[h] == ProtocolDisposition::Pending && forall|x: ChangeHash| #[trigger]
            deps[h].contains(x) ==> is_settled(d, base, x) {
            Some(ProtocolDisposition::Accepted)
        } else {
            None
        }
    } else {
        None
    }
}

/// All the changes one round makes, computed against the same dispositions.
pub open spec fn round_updates(
    deps: Map<ChangeHash, Set<ChangeHash>>,
    base: Set<ChangeHash>,
    d: Map<ChangeHash, ProtocolDisposition>,
) -> Map<ChangeHash, ProtocolDisposition> {
    Map::new(|h: ChangeHash| update_of(deps, base, d, h) is Some, |h: ChangeHash| update_of(deps, base, d, h)->0)
}

/// The dispositions after `k` rounds.
pub open spec fn settle(
    deps: Map<ChangeHash, Set<ChangeHash>>,
    base: Set<ChangeHash>,
    d: Map<ChangeHash, ProtocolDisposition>,
    k: nat,
) -> Map<ChangeHash, ProtocolDisposition>
    decreases k,
{
    if k == 0 {
        d
    } else {
        let prev = settle(deps, base, d, (k - 1) as nat);
        prev.union_prefer_right(round_updates(deps, base, prev))
    }
}

/// No round would change `d`.
pub open spec fn is_stable(
    deps: Map<ChangeHash, Set<ChangeHash>>,
    base: Set<ChangeHash>,
    d: Map<ChangeHash, ProtocolDisposition>,
) -> bool {
    forall|h: ChangeHash| #[trigger] update_of(deps, base, d, h) is None
}

} // verus!

verus! {

/// Moves the inputs into a vector in reverse order, so that popping yields
/// them in input order.
fn reversed(inputs: Vec<EpochCandidate>) -> (rev: Vec<EpochCandidate>)
    ensures
        rev@.len() == inputs@.len(),
        forall|k: int| 0 <= k < rev@.len() ==> #[trigger] rev@[k] == inputs@[inputs@.len() - 1 - k],
{
    let ghost orig = inputs@;
    let mut inputs = inputs;
    let mut rev: Vec<EpochCandidate> = Vec::new();
    while inputs.len() > 0
        invariant
            inputs@ == orig.take(orig.len() - rev@.len()),
            rev@.len() <= orig.len(),
            forall|k: int| 0 <= k < rev@.len() ==> #[trigger] rev@[k] == orig[orig.len() - 1 - k],
        decreases inputs@.len(),
    {
        let ghost before = inputs@;
        let e = inputs.pop().unwrap();
        proof {
            assert(e == orig[orig.len() - 1 - rev@.len()]);
        }
        rev.push(e);
        proof {
            assert(inputs@ =~= orig.take(orig.len() - rev@.len()));
        }
    }
    rev
}

/// The most dependencies any one of `cs` names.
pub open spec fn max_epoch_deps(cs: Seq<EpochCandidate>) -> nat
    decreases cs.len(),
{
    if cs.len() == 0 {
        0
    } else if cs.last().candidate.dependencies@.len() > max_epoch_deps(cs.drop_last()) {
        cs.last().candidate.dependencies@.len()
    } else {
        max_epoch_deps(cs.drop_last())
    }
}

/// Every input names at most `max_epoch_deps` dependencies.
pub proof fn lemma_max_epoch_deps(cs: Seq<EpochCandidate>, i: int)
    requires
        0 <= i < cs.len(),
    ensures
        cs[i].candidate.dependencies@.len() <= max_epoch_deps(cs),
    decreases cs.len(),
{
    if i < cs.len() - 1 {
        lemma_max_epoch_deps(cs.drop_last(), i);
    }
}

/// The first `n` inputs index at most `n` changes, each with at most `d`
/// dependencies when no input names more.
proof fn lemma_input_dependencies_bounds(inputs: Seq<EpochCandidate>, n: int, d: int)
    requires
        0 <= n <= inputs.len(),
        forall|k: int| 0 <= k < n ==> (#[trigger] inputs[k]).candidate.dependencies@.len() <= d,
    ensures
        input_dependencies(inputs, n).dom().finite(),
        input_dependencies(inputs, n).dom().len() <= n,
        forall|h: ChangeHash| #[trigger] input_dependencies(inputs, n).contains_key(h) ==> input_dependencies(
            inputs,
            n,
        )[h].len() <= d,
    decreases n,
{
    if n > 0 {
        lemma_input_dependencies_bounds(inputs, n - 1, d);
        let deps = inputs[n - 1].candidate.dependencies@;
        deps.lemma_cardinality_of_set();
        assert(input_dependencies(inputs, n).dom() =~= input_dependencies(inputs, n - 1).dom().insert(
            inputs[n - 1].candidate.change_hash,
        ));
    } else {
        assert(input_dependencies(inputs, 0).dom() =~= Set::<ChangeHash>::empty());
    }
}

/// The changes of `deps` that `d` leaves accepted or pending.
pub open spec fn open_changes(
    deps: Map<ChangeHash, Set<ChangeHash>>,
    d: Map<ChangeHash, ProtocolDisposition>,
) -> Set<ChangeHash> {
    deps.dom().filter(
        |h: ChangeHash|
            d.contains_key(h) && (d[h] == ProtocolDisposition::Accepted || d[h] == ProtocolDisposition::Pending),
    )
}

/// The changes of `deps` that `d` leaves pending.
pub open spec fn pending_changes(
    deps: Map<ChangeHash, Set<ChangeHash>>,
    d: Map<ChangeHash, ProtocolDisposition>,
) -> Set<ChangeHash> {
    deps.dom().filter(|h: ChangeHash| d.contains_key(h) && d[h] == ProtocolDisposition::Pending)
}

/// How many more rounds can change `d` at most: each open change can still
/// become invalid, and each pending one accepted.
pub open spec fn unsettled_weight(deps: Map<ChangeHash, Set<ChangeHash>>, d: Map<ChangeHash, ProtocolDisposition>) -> int {
    (open_changes(deps, d).len() + pending_changes(deps, d).len()) as int
}

/// The weight is at most twice the number of indexed changes.
proof fn lemma_weight_bound(deps: Map<ChangeHash, Set<ChangeHash>>, d: Map<ChangeHash, ProtocolDisposition>)
    requires
        deps.dom().finite(),
    ensures
        0 <= unsettled_weight(deps, d) <= 2 * deps.dom().len(),
{
    vstd::set_lib::lemma_len_subset(open_changes(deps, d), deps.dom());
    vstd::set_lib::lemma_len_subset(pending_changes(deps, d), deps.dom());
}

/// A round that changes something lowers the weight.
proof fn lemma_round_lowers_weight(
    deps: Map<ChangeHash, Set<ChangeHash>>,
    base: Set<ChangeHash>,
    d: Map<ChangeHash, ProtocolDisposition>,
    w: ChangeHash,
)
    requires
        deps.dom().finite(),
        update_of(deps, base, d, w) is Some,
    ensures
        unsettled_weight(deps, d.union_prefer_right(round_updates(deps, base, d))) < unsettled_weight(deps, d),
{
    let u = round_updates(deps, base, d);
    let d2 = d.union_prefer_right(u);
    let o = open_changes(deps, d);
    let o2 = open_changes(deps, d2);
    let p = pending_changes(deps, d);
    let p2 = pending_changes(deps, d2);
    vstd::set_lib::lemma_len_subset(o, deps.dom());
    vstd::set_lib::lemma_len_subset(p, deps.dom());
    assert forall|h: ChangeHash| o2.contains(h) implies o.contains(h) by {
        if u.contains_key(h) {
            assert(update_of(deps, base, d, h) is Some);
        }
    }
    assert forall|h: ChangeHash| p2.contains(h) implies p.contains(h) by {
        if u.contains_key(h) {
            assert(update_of(deps, base, d, h) is Some);
        }
    }
    assert(u.contains_key(w));
    if u[w] == ProtocolDisposition::Invalid {
        assert(o.contains(w));
        assert(!o2.contains(w));
        assert(o2.subset_of(o.remove(w)));
        vstd::set_lib::lemma_len_subset(o2, o.remove(w));
        vstd::set_lib::lemma_len_subset(p2, p);
    } else {
        assert(p.contains(w));
        assert(!p2.contains(w));
        assert(p2.subset_of(p.remove(w)));
        vstd::set_lib::lemma_len_subset(p2, p.remove(w));
        vstd::set_lib::lemma_len_subset(o2, o);
    }
}

/// The units resolving an epoch charges at most over `n` inputs naming at
/// most `d` dependencies each, `k` indexed changes and a scheduling cost of
/// `s`: indexing, scheduling, and at most `2 * k + 1` rounds, each reading
/// every indexed change with its dependencies and applying at most `k`
/// changes.
pub open spec fn epoch_cost(n: int, d: int, k: int, s: int) -> int {
    n * (1 + d) + s + (2 * k + 1) * (k * (1 + d) + k)
}

/// Indexes the inputs: each one's dependency set, the dispositions decided
/// before scheduling, and the candidates that go on to scheduling.
fn index_inputs(
    rev: Vec<EpochCandidate>,
    Ghost(orig): Ghost<Seq<EpochCandidate>>,
    budget: &mut WorkBudget,
    cancellation: &impl CancellationCheck,
    Ghost(start): Ghost<WorkBudget>,
    Ghost(dm): Ghost<int>,
) -> (r: Result<
    (OrdMap<ChangeHash, OrdSet<ChangeHash>>, OrdMap<ChangeHash, ProtocolDisposition>, Vec<ChangeCandidate>),
    WorkStop,
>)
    requires
        budget_grew(start, *old(budget)),
        rev@.len() == orig.len(),
        forall|k: int| 0 <= k < rev@.len() ==> #[trigger] rev@[k] == orig[orig.len() - 1 - k],
        dm >= 0,
        forall|k: int| 0 <= k < orig.len() ==> (#[trigger] orig[k]).candidate.dependencies@.len() <= dm,
    ensures
        final(budget).usage().operations() <= old(budget).usage().operations() + orig.len() * (1 + dm),
        cancellation.never_cancels() && affords(*old(budget), orig.len() * (1 + dm)) ==> r is Ok,
        budget_grew(start, *final(budget)),
        r == Err::<(OrdMap<ChangeHash, OrdSet<ChangeHash>>, OrdMap<ChangeHash, ProtocolDisposition>, Vec<ChangeCandidate>), WorkStop>(
            WorkStop::BudgetExhausted) ==> operations_exhausted(*final(budget)),
        r == Err::<(OrdMap<ChangeHash, OrdSet<ChangeHash>>, OrdMap<ChangeHash, ProtocolDisposition>, Vec<ChangeCandidate>), WorkStop>(
            WorkStop::Cancelled) ==> !cancellation.never_cancels(),
        cancellation.never_cancels() && operations_exhausted(*old(budget)) ==> r matches Err(WorkStop::BudgetExhausted)
            || (r is Ok && *final(budget) == *old(budget)),
        r matches Ok((deps, disp, elig)) ==> {
            &&& sets_wf(deps)
            &&& sets_view(deps) == input_dependencies(orig, orig.len() as int)
            &&& disp.wf()
            &&& disp@ == initial_dispositions(orig, orig.len() as int)
            &&& elig@ == eligible_prefix(orig, orig.len() as int)
        },
{
    let ghost entry = *budget;
    let n = rev.len();
    let mut rev = rev;
    let mut deps: OrdMap<ChangeHash, OrdSet<ChangeHash>> = OrdMap::new();
    let mut disp: OrdMap<ChangeHash, ProtocolDisposition> = OrdMap::new();
    let mut elig: Vec<ChangeCandidate> = Vec::new();
    let mut i: usize = 0;
    while i < n
        invariant
            budget_grew(start, *budget),
            n == orig.len(),
            i <= n,
            rev@.len() == n - i,
            forall|k: int| 0 <= k < rev@.len() ==> #[trigger] rev@[k] == orig[n - 1 - k],
            sets_wf(deps),
            sets_view(deps) == input_dependencies(orig, i as int),
            disp.wf(),
            disp@ == initial_dispositions(orig, i as int),
            elig@ == eligible_prefix(orig, i as int),
            entry == *old(budget),
            cancellation.never_cancels() && operations_exhausted(entry) ==> i == 0 && *budget == entry,
            budget_grew(entry, *budget),
            dm >= 0,
            forall|k: int| 0 <= k < orig.len() ==> (#[trigger] orig[k]).candidate.dependencies@.len() <= dm,
            budget.usage().operations() <= entry.usage().operations() + i * (1 + dm),
        decreases n - i,
    {
        proof {
            assert((i + 1) * (1 + dm) == i * (1 + dm) + 1 + dm) by (nonlinear_arith);
            assert((i + 1) * (1 + dm) <= n * (1 + dm)) by (nonlinear_arith)
                requires
                    i + 1 <= n,
                    dm >= 0,
            ;
        }
        let ghost b0 = *budget;
        let c = charge_from(budget, cancellation, WorkCounter::GraphNode, Ghost(start));
        proof {
            lemma_budget_grew_trans(entry, b0, *budget);
            match c {
                Err(WorkStop::Cancelled) => {},
                Err(WorkStop::BudgetExhausted) => {},
                Ok(()) => {},
            }
        }
        if let Err(e) = c {
            return Err(e);
        }
        let e = rev.pop().unwrap();
        proof {
            assert(e == orig[i as int]);
        }
        let hash = e.candidate.change_hash;
        let mut set: OrdSet<ChangeHash> = OrdSet::new();
        let m = e.candidate.dependencies.len();
        for j in 0..m
            invariant
                budget_grew(start, *budget),
                m == e.candidate.dependencies@.len(),
                set.wf(),
                set@ == e.candidate.dependencies@.take(j as int).to_set(),
                entry == *old(budget),
                budget_grew(entry, *budget),
                m <= dm,
                n == orig.len(),
                budget.usage().operations() <= entry.usage().operations() + i * (1 + dm) + 1 + j,
                (i + 1) * (1 + dm) == i * (1 + dm) + 1 + dm,
                (i + 1) * (1 + dm) <= n * (1 + dm),
                cancellation.never_cancels() && operations_exhausted(entry) ==> false,
        {
            let ghost b1 = *budget;
            let c = charge_from(budget, cancellation, WorkCounter::GraphEdge, Ghost(start));
            proof {
                lemma_budget_grew_trans(entry, b1, *budget);
                match c {
                    Err(WorkStop::Cancelled) => {},
                    Err(WorkStop::BudgetExhausted) => {},
                    Ok(()) => {},
                }
            }
            if let Err(e) = c {
                return Err(e);
            }
            let x = e.candidate.dependencies[j];
            proof {
                let s = e.candidate.dependencies@;
                assert(s.take(j + 1) =~= s.take(j as int).push(x));
                s.take(j as int).lemma_push_to_set_commute(x);
            }
            set.insert(x);
        }
        proof {
            assert(e.candidate.dependencies@.take(m as int) =~= e.candidate.dependencies@);
        }
        let ghost old_deps = deps;
        deps.insert(hash, set);
        proof {
            assert(sets_wf(deps)) by {
                assert forall|k: ChangeHash| #[trigger] deps@.contains_key(k) implies deps@[k].wf() by {
                    if k != hash {
                        assert(old_deps@.contains_key(k));
                    }
                }
            }
            assert(sets_view(deps) =~= input_dependencies(orig, i + 1));
        }
        if !e.canonical_control {
            disp.insert(hash, ProtocolDisposition::Excluded);
        } else if !e.semantically_valid {
            disp.insert(hash, ProtocolDisposition::Invalid);
        } else {
            elig.push(e.candidate);
        }
        i = i + 1;
    }
    Ok((deps, disp, elig))
}

/// Sets every member of `hs` to `v` in `d`.
fn mark_all(d: &mut OrdMap<ChangeHash, ProtocolDisposition>, hs: &Vec<ChangeHash>, v: ProtocolDisposition)
    requires
        old(d).wf(),
    ensures
        final(d).wf(),
        final(d)@ == overlay(old(d)@, hs@.to_set(), v),
{
    let ghost d0 = d@;
    let n = hs.len();
    for i in 0..n
        invariant
            n == hs@.len(),
            d.wf(),
            d@ == overlay(d0, hs@.take(i as int).to_set(), v),
    {
        let ghost before = d@;
        d.insert(hs[i], v);
        proof {
            let s = hs@;
            assert(s.take(i + 1) =~= s.take(i as int).push(s[i as int]));
            s.take(i as int).lemma_push_to_set_commute(s[i as int]);
            assert(d@ =~= overlay(d0, s.take(i + 1).to_set(), v));
        }
    }
    proof {
        assert(hs@.take(n as int) =~= hs@);
    }
}

} // verus!

verus! {

/// Computes one round's changes against the current dispositions, charging
/// each entry and each dependency looked at.
fn compute_round(
    deps: &OrdMap<ChangeHash, OrdSet<ChangeHash>>,
    base: &OrdSet<ChangeHash>,
    disp: &OrdMap<ChangeHash, ProtocolDisposition>,
    budget: &mut WorkBudget,
    cancellation: &impl CancellationCheck,
    Ghost(start): Ghost<WorkBudget>,
    Ghost(dd): Ghost<int>,
) -> (r: Result<OrdMap<ChangeHash, ProtocolDisposition>, WorkStop>)
    requires
        budget_grew(start, *old(budget)),
        sets_wf(*deps),
        base.wf(),
        disp.wf(),
        dd >= 0,
        forall|h: ChangeHash| #[trigger] sets_view(*deps).contains_key(h) ==> sets_view(*deps)[h].len() <= dd,
    ensures
        budget_grew(start, *final(budget)),
        budget_grew(*old(budget), *final(budget)),
        r == Err::<OrdMap<ChangeHash, ProtocolDisposition>, WorkStop>(WorkStop::BudgetExhausted)
            ==> operations_exhausted(*final(budget)),
        r == Err::<OrdMap<ChangeHash, ProtocolDisposition>, WorkStop>(WorkStop::Cancelled)
            ==> !cancellation.never_cancels(),
        r matches Ok(u) ==> u.wf() && u@ == round_updates(sets_view(*deps), base@, disp@),
        final(budget).usage().operations() <= old(budget).usage().operations() + deps.key_seq().len() * (1 + dd),
        cancellation.never_cancels() && affords(*old(budget), deps.key_seq().len() * (1 + dd)) ==> r is Ok,
{
    let ghost dv = sets_view(*deps);
    let ghost b0 = *budget;
    let ghost never = cancellation.never_cancels() && affords(b0, deps.key_seq().len() * (1 + dd));
    let mut updates: OrdMap<ChangeHash, ProtocolDisposition> = OrdMap::new();
    let n = deps.len();
    proof {
        deps.lemma_len();
    }
    for k in 0..n
        invariant
            budget_grew(start, *budget),
            budget_grew(b0, *budget),
            b0 == *old(budget),
            n == deps.key_seq().len(),
            sets_wf(*deps),
            dv == sets_view(*deps),
            base.wf(),
            disp.wf(),
            updates.wf(),
            updates@ == Map::new(
                |h: ChangeHash| deps.key_seq().take(k as int).contains(h) && update_of(dv, base@, disp@, h) is Some,
                |h: ChangeHash| update_of(dv, base@, disp@, h)->0,
            ),
            dd >= 0,
            forall|h: ChangeHash| #[trigger] dv.contains_key(h) ==> dv[h].len() <= dd,
            never == (cancellation.never_cancels() && affords(b0, n * (1 + dd))),
            budget.usage().operations() <= b0.usage().operations() + k * (1 + dd),
    {
        proof {
            assert((k + 1) * (1 + dd) == k * (1 + dd) + 1 + dd) by (nonlinear_arith);
            assert((k + 1) * (1 + dd) <= n * (1 + dd)) by (nonlinear_arith)
                requires
                    k + 1 <= n,
                    dd >= 0,
            ;
            deps.lemma_position(k as int);
        }
        let ghost b1 = *budget;
        let charged = charge_from(budget, cancellation, WorkCounter::GraphNode, Ghost(start));
        proof {
            lemma_budget_grew_trans(b0, b1, *budget);
        }
        if let Err(e) = charged {
            return Err(e);
        }
        let hash = deps.key_at(k);
        let ds = deps.value_at(k);
        proof {
            deps.lemma_position(k as int);
            assert(dv.contains_key(hash) && dv[hash] == ds@);
            assert(ds.wf());
        }
        let current: Option<ProtocolDisposition> = match disp.get(&hash) {
            Some(v) => Some(*v),
            None => None,
        };
        let ghost before = updates@;
        let open = match current {
            Some(ProtocolDisposition::Accepted) => true,
            Some(ProtocolDisposition::Pending) => true,
            _ => false,
        };
        if open {
            let mut rejected = false;
            let mut all_settled = true;
            let m = ds.len();
            for j in 0..m
                invariant
                    budget_grew(start, *budget),
                    budget_grew(b0, *budget),
                    b0 == *old(budget),
                    m == ds.seq().len(),
                    ds.wf(),
                    base.wf(),
                    disp.wf(),
                    rejected == exists|t: int| 0 <= t < j && is_rejected(disp@, #[trigger] ds.seq()[t]),
                    all_settled == forall|t: int| 0 <= t < j ==> is_settled(disp@, base@, #[trigger] ds.seq()[t]),
                    m <= dd,
                    n == deps.key_seq().len(),
                    dd >= 0,
                    never == (cancellation.never_cancels() && affords(b0, n * (1 + dd))),
                    budget.usage().operations() <= b0.usage().operations() + k * (1 + dd) + 1 + j,
                    (k + 1) * (1 + dd) == k * (1 + dd) + 1 + dd,
                    (k + 1) * (1 + dd) <= n * (1 + dd),
            {
                let ghost b2 = *budget;
                let charged = charge_from(budget, cancellation, WorkCounter::GraphEdge, Ghost(start));
                proof {
                    lemma_budget_grew_trans(b0, b2, *budget);
                }
                if let Err(e) = charged {
                    return Err(e);
                }
                let x = ds.get(j);
                let (is_bad, is_good) = match disp.get(&x) {
                    Some(v) => (
                        matches!(*v, ProtocolDisposition::Invalid) || matches!(*v, ProtocolDisposition::Excluded),
                        matches!(*v, ProtocolDisposition::Accepted),
                    ),
                    None => (false, false),
                };
                let in_base = base.contains(&x);
                proof {
                    assert(is_bad == is_rejected(disp@, x));
                    assert((in_base || is_good) == is_settled(disp@, base@, x));
                    if is_bad {
                        assert(ds.seq()[j as int] == x);
                    }
                    if rejected {
                        let t = choose|t: int| 0 <= t < j && is_rejected(disp@, #[trigger] ds.seq()[t]);
                        assert(0 <= t < j + 1);
                    }
                }
                rejected = rejected || is_bad;
                all_settled = all_settled && (in_base || is_good);
            }
            proof {
                let s = ds.seq();
                assert(rejected == exists|x: ChangeHash| #[trigger] ds@.contains(x) && is_rejected(disp@, x)) by {
                    if rejected {
                        let t = choose|t: int| 0 <= t < m && is_rejected(disp@, #[trigger] s[t]);
                        assert(ds@.contains(s[t]));
                    }
                    if exists|x: ChangeHash| #[trigger] ds@.contains(x) && is_rejected(disp@, x) {
                        let x = choose|x: ChangeHash| #[trigger] ds@.contains(x) && is_rejected(disp@, x);
                        let t = choose|t: int| 0 <= t < s.len() && s[t] == x;
                        assert(is_rejected(disp@, s[t]));
                    }
                }
                assert(all_settled == forall|x: ChangeHash| #[trigger] ds@.contains(x) ==> is_settled(disp@, base@, x)) by {
                    if all_settled {
                        assert forall|x: ChangeHash| #[trigger] ds@.contains(x) implies is_settled(disp@, base@, x) by {
                            let t = choose|t: int| 0 <= t < s.len() && s[t] == x;
                            assert(is_settled(disp@, base@, s[t]));
                        }
                    } else {
                        let t = choose|t: int| 0 <= t < m && !is_settled(disp@, base@, #[trigger] s[t]);
                        assert(ds@.contains(s[t]));
                    }
                }
            }
            if rejected {
                proof {
                    assert(update_of(dv, base@, disp@, hash) == Some(ProtocolDisposition::Invalid));
                }
                updates.insert(hash, ProtocolDisposition::Invalid);
            } else if matches!(current, Some(ProtocolDisposition::Pending)) && all_settled {
                proof {
                    assert(update_of(dv, base@, disp@, hash) == Some(ProtocolDisposition::Accepted));
                }
                updates.insert(hash, ProtocolDisposition::Accepted);
            } else {
                proof {
                    assert(update_of(dv, base@, disp@, hash) is None);
                }
            }
        } else {
            proof {
                assert(update_of(dv, base@, disp@, hash) is None);
            }
        }
        proof {
            let ks = deps.key_seq();
            assert(ks.take(k + 1) =~= ks.take(k as int).push(hash));
            ks.take(k as int).lemma_push_to_set_commute(hash);
            assert(!ks.take(k as int).contains(hash)) by {
                crate::ordered::lemma_sorted_no_duplicates(ks);
                if ks.take(k as int).contains(hash) {
                    let t = choose|t: int| 0 <= t < k && ks.take(k as int)[t] == hash;
                    assert(ks[t] == ks[k as int]);
                }
            }
            assert forall|h: ChangeHash| ks.take(k + 1).contains(h) <==> (ks.take(k as int).contains(h) || h == hash) by {
                assert(ks.take(k + 1).to_set().contains(h) == ks.take(k + 1).contains(h));
                assert(ks.take(k as int).to_set().contains(h) == ks.take(k as int).contains(h));
            }
            let target = Map::new(
                |h: ChangeHash| ks.take(k + 1).contains(h) && update_of(dv, base@, disp@, h) is Some,
                |h: ChangeHash| update_of(dv, base@, disp@, h)->0,
            );
            assert forall|h: ChangeHash| #[trigger] updates@.contains_key(h) <==> target.contains_key(h) by {
                if h != hash {
                    assert(updates@.contains_key(h) == before.contains_key(h));
                }
            }
            assert forall|h: ChangeHash| #[trigger] updates@.contains_key(h) implies updates@[h] == target[h] by {
                if h != hash {
                    assert(before.contains_key(h));
                }
            }
            assert(updates@ =~= target);
        }
    }
    proof {
        let ks = deps.key_seq();
        assert(ks.take(n as int) =~= ks);
        assert forall|h: ChangeHash| update_of(dv, base@, disp@, h) is Some implies ks.contains(h) by {
            assert(dv.contains_key(h));
        }
        assert(updates@ =~= round_updates(dv, base@, disp@));
    }
    Ok(updates)
}

} // verus!

verus! {

/// Applies one round's changes, charging each.
fn apply_round(
    disp: &mut OrdMap<ChangeHash, ProtocolDisposition>,
    updates: &OrdMap<ChangeHash, ProtocolDisposition>,
    budget: &mut WorkBudget,
    cancellation: &impl CancellationCheck,
    Ghost(start): Ghost<WorkBudget>,
) -> (r: Result<(), WorkStop>)
    requires
        budget_grew(start, *old(budget)),
        old(disp).wf(),
        updates.wf(),
    ensures
        budget_grew(start, *final(budget)),
        budget_grew(*old(budget), *final(budget)),
        r == Err::<(), WorkStop>(WorkStop::BudgetExhausted) ==> operations_exhausted(*final(budget)),
        r == Err::<(), WorkStop>(WorkStop::Cancelled) ==> !cancellation.never_cancels(),
        final(disp).wf(),
        r is Ok ==> final(disp)@ == old(disp)@.union_prefer_right(updates@),
        r is Ok ==> final(budget).usage().operations() == old(budget).usage().operations()
            + updates.key_seq().len(),
        final(budget).usage().operations() <= old(budget).usage().operations() + updates.key_seq().len(),
        cancellation.never_cancels() && affords(*old(budget), updates.key_seq().len() as int) ==> r is Ok,
{
    let ghost d0 = disp@;
    let ghost b0 = *budget;
    let entries = updates.entries();
    let n = entries.len();
    for i in 0..n
        invariant
            budget_grew(start, *budget),
            budget_grew(b0, *budget),
            b0 == *old(budget),
            d0 == old(disp)@,
            updates.wf(),
            n == entries@.len(),
            n == updates.key_seq().len(),
            forall|t: int| 0 <= t < n ==> #[trigger] entries@[t] == (updates.key_seq()[t], updates.val_seq()[t]),
            disp.wf(),
            disp@ == d0.union_prefer_right(Map::new(
                |h: ChangeHash| updates.key_seq().take(i as int).contains(h),
                |h: ChangeHash| updates@[h],
            )),
            budget.usage().operations() == b0.usage().operations() + i,
    {
        let ghost b1 = *budget;
        let charged = charge_from(budget, cancellation, WorkCounter::GraphNode, Ghost(start));
        proof {
            lemma_budget_grew_trans(b0, b1, *budget);
        }
        if let Err(e) = charged {
            return Err(e);
        }
        let (h, v) = entries[i];
        let ghost before = disp@;
        disp.insert(h, v);
        proof {
            updates.lemma_position(i as int);
            let ks = updates.key_seq();
            assert(ks.take(i + 1) =~= ks.take(i as int).push(h));
            assert forall|x: ChangeHash| ks.take(i + 1).contains(x) <==> (ks.take(i as int).contains(x) || x == h) by {
                assert(ks.take(i + 1).to_set().contains(x) == ks.take(i + 1).contains(x));
                ks.take(i as int).lemma_push_to_set_commute(h);
                assert(ks.take(i as int).to_set().contains(x) == ks.take(i as int).contains(x));
            }
            assert(entries@[i as int] == (ks[i as int], updates.val_seq()[i as int]));
            assert(v == updates@[h]);
            let prev = Map::new(|x: ChangeHash| ks.take(i as int).contains(x), |x: ChangeHash| updates@[x]);
            let next = Map::new(|x: ChangeHash| ks.take(i + 1).contains(x), |x: ChangeHash| updates@[x]);
            assert(before == d0.union_prefer_right(prev));
            assert forall|x: ChangeHash| #[trigger] disp@.contains_key(x) <==> d0.union_prefer_right(next).contains_key(x) by {
            }
            assert forall|x: ChangeHash| #[trigger] disp@.contains_key(x) implies disp@[x] == d0.union_prefer_right(next)[x] by {
                if x != h {
                    assert(disp@[x] == before[x]);
                    if prev.contains_key(x) {
                        assert(next.contains_key(x));
                    } else {
                        assert(!next.contains_key(x));
                    }
                } else {
                    assert(h == ks[i as int]);
                    assert(ks.take(i + 1)[i as int] == h);
                    assert(ks.take(i + 1).contains(h));
                    assert(next.contains_key(h));
                }
            }
            assert(disp@ =~= d0.union_prefer_right(next));
        }
    }
    proof {
        let ks = updates.key_seq();
        assert(ks.take(n as int) =~= ks);
        updates.lemma_len();
        assert(Map::new(|h: ChangeHash| ks.take(n as int).contains(h), |h: ChangeHash| updates@[h]) =~= updates@);
    }
    Ok(())
}

/// `d` is what resolving `inputs` over the accepted `base` yields: the
/// dispositions of some complete schedule of the eligible candidates, carried
/// through rounds until no round changes them.
pub open spec fn epoch_resolution(
    inputs: Seq<EpochCandidate>,
    base: Set<ChangeHash>,
    d: Map<ChangeHash, ProtocolDisposition>,
) -> bool {
    let n = inputs.len() as int;
    let deps = input_dependencies(inputs, n);
    &&& exists|s: Schedule| #[trigger] schedule_spec(s, latest_map(eligible_prefix(inputs, n)), base)
        && exists|k: nat| #[trigger] settle(deps, base, scheduled_dispositions(initial_dispositions(inputs, n), s), k) == d
    &&& is_stable(deps, base, d)
}

/// Inputs after position `i` that declare other changes leave the disposition
/// the first `n` inputs record for the change of input `i` as that input set it.
proof fn lemma_initial_at(inputs: Seq<EpochCandidate>, n: int, i: int)
    requires
        0 <= i < n <= inputs.len(),
        forall|j: int| i < j < inputs.len() ==> (#[trigger] inputs[j]).candidate.change_hash != inputs[i].candidate.change_hash,
    ensures
        !inputs[i].canonical_control ==> initial_dispositions(inputs, n).contains_key(inputs[i].candidate.change_hash)
            && initial_dispositions(inputs, n)[inputs[i].candidate.change_hash] == ProtocolDisposition::Excluded,
        inputs[i].canonical_control && !inputs[i].semantically_valid ==> initial_dispositions(inputs, n).contains_key(
            inputs[i].candidate.change_hash,
        ) && initial_dispositions(inputs, n)[inputs[i].candidate.change_hash] == ProtocolDisposition::Invalid,
    decreases n,
{
    if n > i + 1 {
        lemma_initial_at(inputs, n - 1, i);
        assert(inputs[n - 1].candidate.change_hash != inputs[i].candidate.change_hash);
    }
}

/// Every change the first `n` inputs send to scheduling comes from an input
/// written under the canonical control and semantically valid.
proof fn lemma_eligible_from(inputs: Seq<EpochCandidate>, n: int, k: int)
    requires
        0 <= n <= inputs.len(),
        0 <= k < eligible_prefix(inputs, n).len(),
    ensures
        exists|j: int|
            0 <= j < n && inputs[j].canonical_control && inputs[j].semantically_valid && eligible_prefix(inputs, n)[k]
                == #[trigger] inputs[j].candidate,
    decreases n,
{
    if n > 0 {
        if is_eligible(inputs[n - 1]) {
            if k < eligible_prefix(inputs, n - 1).len() {
                lemma_eligible_from(inputs, n - 1, k);
                let j = choose|j: int|
                    0 <= j < n - 1 && inputs[j].canonical_control && inputs[j].semantically_valid && eligible_prefix(
                        inputs,
                        n - 1,
                    )[k] == #[trigger] inputs[j].candidate;
                assert(eligible_prefix(inputs, n)[k] == inputs[j].candidate);
            } else {
                assert(eligible_prefix(inputs, n)[k] == inputs[n - 1].candidate);
            }
        } else {
            lemma_eligible_from(inputs, n - 1, k);
        }
    }
}

/// Rounds never change an invalid or excluded disposition.
proof fn lemma_settle_keeps_rejected(
    deps: Map<ChangeHash, Set<ChangeHash>>,
    base: Set<ChangeHash>,
    d: Map<ChangeHash, ProtocolDisposition>,
    k: nat,
    h: ChangeHash,
)
    requires
        d.contains_key(h),
        d[h] == ProtocolDisposition::Excluded || d[h] == ProtocolDisposition::Invalid,
    ensures
        settle(deps, base, d, k).contains_key(h),
        settle(deps, base, d, k)[h] == d[h],
    decreases k,
{
    if k > 0 {
        lemma_settle_keeps_rejected(deps, base, d, (k - 1) as nat, h);
        let prev = settle(deps, base, d, (k - 1) as nat);
        assert(!round_updates(deps, base, prev).contains_key(h));
    }
}

/// A change that no input sends to scheduling keeps the verdict of its last
/// input: excluded when that input is written under another control, whatever
/// its semantic validity, and invalid when it is under the canonical control
/// but semantically invalid.
pub proof fn lemma_unscheduled_verdict(
    inputs: Seq<EpochCandidate>,
    base: Set<ChangeHash>,
    d: Map<ChangeHash, ProtocolDisposition>,
    i: int,
)
    requires
        epoch_resolution(inputs, base, d),
        0 <= i < inputs.len(),
        forall|j: int| i < j < inputs.len() ==> (#[trigger] inputs[j]).candidate.change_hash != inputs[i].candidate.change_hash,
        forall|j: int|
            0 <= j < inputs.len() && (#[trigger] inputs[j]).candidate.change_hash == inputs[i].candidate.change_hash
                ==> !(inputs[j].canonical_control && inputs[j].semantically_valid),
    ensures
        !inputs[i].canonical_control ==> d.contains_key(inputs[i].candidate.change_hash)
            && d[inputs[i].candidate.change_hash] == ProtocolDisposition::Excluded,
        inputs[i].canonical_control && !inputs[i].semantically_valid ==> d.contains_key(inputs[i].candidate.change_hash)
            && d[inputs[i].candidate.change_hash] == ProtocolDisposition::Invalid,
{
    let n = inputs.len() as int;
    let h = inputs[i].candidate.change_hash;
    let deps = input_dependencies(inputs, n);
    let el = eligible_prefix(inputs, n);
    let all = latest_map(el);
    let s = choose|s: Schedule| #[trigger] schedule_spec(s, all, base) && exists|k: nat| #[trigger] settle(
        deps,
        base,
        scheduled_dispositions(initial_dispositions(inputs, n), s),
        k,
    ) == d;
    let k = choose|k: nat| #[trigger] settle(deps, base, scheduled_dispositions(initial_dispositions(inputs, n), s), k) == d;
    lemma_initial_at(inputs, n, i);
    assert(!all.contains_key(h)) by {
        if all.contains_key(h) {
            let q = choose|q: int| 0 <= q < el.len() && #[trigger] el[q].change_hash == h;
            lemma_eligible_from(inputs, n, q);
            let j = choose|j: int|
                0 <= j < n && inputs[j].canonical_control && inputs[j].semantically_valid && el[q]
                    == #[trigger] inputs[j].candidate;
            assert(inputs[j].candidate.change_hash == h);
        }
    }
    let d0 = initial_dispositions(inputs, n);
    let rem = all.remove_keys(s.ordered@.to_set());
    assert(!s.ordered@.to_set().contains(h));
    assert(!s.pending@.contains(h));
    assert(!s.cyclic@.contains(h));
    let d1 = scheduled_dispositions(d0, s);
    if !inputs[i].canonical_control || !inputs[i].semantically_valid {
        assert(d1.contains_key(h) && d1[h] == d0[h]);
        lemma_settle_keeps_rejected(deps, base, d1, k, h);
    }
}

/// Once no round changes the dispositions, later rounds keep them.
pub proof fn lemma_settle_stays(
    deps: Map<ChangeHash, Set<ChangeHash>>,
    base: Set<ChangeHash>,
    d: Map<ChangeHash, ProtocolDisposition>,
    k: nat,
    j: nat,
)
    requires
        is_stable(deps, base, settle(deps, base, d, k)),
        k <= j,
    ensures
        settle(deps, base, d, j) == settle(deps, base, d, k),
    decreases j - k,
{
    if j > k {
        lemma_settle_stays(deps, base, d, k, (j - 1) as nat);
        let prev = settle(deps, base, d, (j - 1) as nat);
        assert(round_updates(deps, base, prev) =~= Map::<ChangeHash, ProtocolDisposition>::empty()) by {
            assert forall|h: ChangeHash| !round_updates(deps, base, prev).contains_key(h) by {
                assert(update_of(deps, base, prev, h) is None);
            }
        }
        assert(prev.union_prefer_right(round_updates(deps, base, prev)) =~= prev);
    }
}

/// Resolving is deterministic when no eligible candidate is already
/// accepted: any two resolutions of the same inputs are equal.
pub proof fn lemma_resolution_deterministic(
    inputs: Seq<EpochCandidate>,
    base: Set<ChangeHash>,
    d1: Map<ChangeHash, ProtocolDisposition>,
    d2: Map<ChangeHash, ProtocolDisposition>,
)
    requires
        epoch_resolution(inputs, base, d1),
        epoch_resolution(inputs, base, d2),
        latest_map(eligible_prefix(inputs, inputs.len() as int)).dom().disjoint(base),
    ensures
        d1 == d2,
{
    let n = inputs.len() as int;
    let all = latest_map(eligible_prefix(inputs, n));
    let deps = input_dependencies(inputs, n);
    let d0 = initial_dispositions(inputs, n);
    let s1 = choose|s: Schedule| #[trigger] schedule_spec(s, all, base)
        && exists|k: nat| #[trigger] settle(deps, base, scheduled_dispositions(d0, s), k) == d1;
    let s2 = choose|s: Schedule| #[trigger] schedule_spec(s, all, base)
        && exists|k: nat| #[trigger] settle(deps, base, scheduled_dispositions(d0, s), k) == d2;
    crate::graph::schedule::lemma_schedule_deterministic(s1, s2, all, base);
    assert(scheduled_dispositions(d0, s1) =~= scheduled_dispositions(d0, s2));
    let start = scheduled_dispositions(d0, s1);
    let k1 = choose|k: nat| #[trigger] settle(deps, base, start, k) == d1;
    let k2 = choose|k: nat| #[trigger] settle(deps, base, scheduled_dispositions(d0, s2), k) == d2;
    if k1 <= k2 {
        lemma_settle_stays(deps, base, start, k1, k2);
    } else {
        lemma_settle_stays(deps, base, start, k2, k1);
    }
}

/// Decides the disposition of each of one epoch's candidates.
///
/// Candidates written under another control are excluded and semantically
/// invalid ones are invalid; the rest are scheduled, accepting the ordered
/// ones, leaving those blocked by a missing dependency pending and
/// invalidating those caught in cycles. Rounds then follow until none
/// changes anything: an accepted or pending change with an invalid or
/// excluded dependency becomes invalid, and a pending change whose
/// dependencies are all accepted (here or in the base) becomes accepted.
/// Every step is charged before it is taken.
pub fn resolve_epoch(
    candidates: Vec<EpochCandidate>,
    accepted_base: &OrdSet<ChangeHash>,
    budget: &mut WorkBudget,
    cancellation: &impl CancellationCheck,
) -> (r: Result<OrdMap<ChangeHash, ProtocolDisposition>, ScheduleError>)
    requires
        accepted_base.wf(),
    ensures
        budget_grew(*old(budget), *final(budget)),
        r == Err::<OrdMap<ChangeHash, ProtocolDisposition>, ScheduleError>(WorkStop::BudgetExhausted)
            ==> operations_exhausted(*final(budget)),
        r == Err::<OrdMap<ChangeHash, ProtocolDisposition>, ScheduleError>(WorkStop::Cancelled)
            ==> !cancellation.never_cancels(),
        cancellation.never_cancels() && operations_exhausted(*old(budget)) ==> r == Err::<
            OrdMap<ChangeHash, ProtocolDisposition>,
            ScheduleError,
        >(WorkStop::BudgetExhausted),
        r matches Ok(d) ==> d.wf() && epoch_resolution(candidates@, accepted_base@, d@),
        latest_map(eligible_prefix(candidates@, candidates@.len() as int)).dom().disjoint(accepted_base@)
            && cancellation.never_cancels() && affords(
            *old(budget),
            epoch_cost(
                candidates@.len() as int,
                max_epoch_deps(candidates@) as int,
                input_dependencies(candidates@, candidates@.len() as int).dom().len() as int,
                schedule_cost(
                    eligible_prefix(candidates@, candidates@.len() as int).len() as int,
                    latest_map(eligible_prefix(candidates@, candidates@.len() as int)).dom().len() as int,
                    max_deps(eligible_prefix(candidates@, candidates@.len() as int)) as int,
                ),
            ),
        ) ==> r is Ok,
{
    let ghost start = *budget;
    let ghost orig = candidates@;
    let ghost n = orig.len() as int;
    let ghost dm = max_epoch_deps(orig) as int;
    let ghost kk = input_dependencies(orig, n).dom().len() as int;
    let ghost el = eligible_prefix(orig, n);
    let ghost sc = schedule_cost(el.len() as int, latest_map(el).dom().len() as int, max_deps(el) as int);
    let ghost rc = kk * (1 + dm) + kk;
    let ghost cost = epoch_cost(n, dm, kk, sc);
    let ghost never = latest_map(el).dom().disjoint(accepted_base@) && cancellation.never_cancels() && affords(
        start,
        cost,
    );
    proof {
        assert forall|k: int| 0 <= k < orig.len() implies (#[trigger] orig[k]).candidate.dependencies@.len() <= dm by {
            lemma_max_epoch_deps(orig, k);
        }
        lemma_input_dependencies_bounds(orig, n, dm);
        assert(n * (1 + dm) >= 0 && kk * (1 + dm) >= 0 && rc >= 0) by (nonlinear_arith)
            requires
                n >= 0,
                kk >= 0,
                dm >= 0,
                rc == kk * (1 + dm) + kk,
        ;
        assert((2 * kk + 1) * rc >= 0) by (nonlinear_arith)
            requires
                kk >= 0,
                rc >= 0,
        ;
    }
    let rev = reversed(candidates);
    let (deps, mut disp, eligible) = index_inputs(rev, Ghost(orig), budget, cancellation, Ghost(start), Ghost(dm))?;
    let ghost elig = eligible@;
    let ghost b1 = *budget;
    proof {
        if never {
            assert(sc >= 0);
            assert(b1.usage().operations() + sc <= start.operation_limit());
        }
    }
    let schedule = schedule_candidates(eligible, accepted_base, budget, cancellation);
    proof {
        lemma_budget_grew_trans(start, b1, *budget);
    }
    let schedule = match schedule {
        Ok(s) => s,
        Err(e) => {
            return Err(e);
        },
    };
    let ghost d1 = disp@;
    mark_all(&mut disp, &schedule.ordered, ProtocolDisposition::Accepted);
    let pending = schedule.pending.to_vec();
    mark_all(&mut disp, &pending, ProtocolDisposition::Pending);
    let cyclic = schedule.cyclic.to_vec();
    mark_all(&mut disp, &cyclic, ProtocolDisposition::Invalid);
    let ghost dv = sets_view(deps);
    let ghost d2 = disp@;
    proof {
        assert(pending@.to_set() == schedule.pending@);
        assert(cyclic@.to_set() == schedule.cyclic@);
        assert(d2 == scheduled_dispositions(d1, schedule));
    }
    let ghost mut rounds: nat = 0;
    budget_within_limits(budget);
    let ghost bs = budget.usage().operations();
    let ghost w0 = unsettled_weight(dv, d2);
    proof {
        deps.lemma_len();
        lemma_weight_bound(dv, d2);
        assert(dv == input_dependencies(orig, n));
        assert(dv.dom() =~= deps@.dom());
        assert(deps.key_seq().len() == kk);
        if never {
            assert(bs + (2 * kk + 1) * rc <= start.usage().operations() + cost);
        }
    }
    loop
        invariant_except_break
            never ==> budget.usage().operations() <= bs + rounds * rc,
        invariant
            budget_grew(start, *budget),
            start == *old(budget),
            budget.usage().operations() <= budget.operation_limit(),
            sets_wf(deps),
            dv == sets_view(deps),
            accepted_base.wf(),
            disp.wf(),
            settle(dv, accepted_base@, d2, rounds) == disp@,
            dv.dom().finite(),
            deps.key_seq().len() == kk,
            dv.dom().len() == kk,
            dm >= 0,
            forall|h: ChangeHash| #[trigger] dv.contains_key(h) ==> dv[h].len() <= dm,
            rc == kk * (1 + dm) + kk,
            rc >= 0,
            w0 <= 2 * kk,
            unsettled_weight(dv, disp@) >= 0,
            unsettled_weight(dv, disp@) + rounds <= w0,
            never ==> bs + (2 * kk + 1) * rc <= start.usage().operations() + cost,
            never == (latest_map(el).dom().disjoint(accepted_base@) && cancellation.never_cancels() && affords(
                start,
                cost,
            )),
            orig == candidates@,
            n == orig.len(),
            el == eligible_prefix(orig, n),
            dm == max_epoch_deps(orig) as int,
            kk == input_dependencies(orig, n).dom().len() as int,
            sc == schedule_cost(el.len() as int, latest_map(el).dom().len() as int, max_deps(el) as int),
            cost == epoch_cost(n, dm, kk, sc),
        ensures
            disp.wf(),
            settle(dv, accepted_base@, d2, rounds) == disp@,
            is_stable(dv, accepted_base@, disp@),
        decreases room(*budget),
    {
        let ghost b2 = *budget;
        proof {
            lemma_weight_bound(dv, disp@);
            assert((rounds + 1) * rc == rounds * rc + rc) by (nonlinear_arith);
            assert((rounds + 1) * rc <= (2 * kk + 1) * rc) by (nonlinear_arith)
                requires
                    rounds + 1 <= 2 * kk + 1,
                    rc >= 0,
            ;
        }
        let updates = compute_round(&deps, accepted_base, &disp, budget, cancellation, Ghost(start), Ghost(dm))?;
        budget_within_limits(budget);
        let ghost b3 = *budget;
        if updates.is_empty() {
            proof {
                updates.lemma_len();
                assert(updates@.dom() =~= Set::<ChangeHash>::empty());
                assert forall|h: ChangeHash| #[trigger] update_of(dv, accepted_base@, disp@, h) is None by {
                    if update_of(dv, accepted_base@, disp@, h) is Some {
                        assert(round_updates(dv, accepted_base@, disp@).contains_key(h));
                    }
                }
            }
            break;
        }
        let ghost before = disp@;
        proof {
            updates.lemma_len();
            assert(updates@.dom().subset_of(dv.dom()));
            vstd::set_lib::lemma_len_subset(updates@.dom(), dv.dom());
            assert(updates@.dom().contains(updates.key_seq()[0]));
            lemma_round_lowers_weight(dv, accepted_base@, disp@, updates.key_seq()[0]);
        }
        apply_round(&mut disp, &updates, budget, cancellation, Ghost(start))?;
        budget_within_limits(budget);
        proof {
            lemma_grew_operations(b2, b3);
            rounds = rounds + 1;
            assert(settle(dv, accepted_base@, d2, rounds) == disp@);
        }
    }
    proof {
        assert(schedule_spec(schedule, latest_map(eligible_prefix(orig, n)), accepted_base@));
        assert(settle(
            input_dependencies(orig, n),
            accepted_base@,
            scheduled_dispositions(initial_dispositions(orig, n), schedule),
            rounds,
        ) == disp@);
        assert(epoch_resolution(orig, accepted_base@, disp@));
    }
    Ok(disp)
}

} // verus!
