//! What earlier controls tell an epoch about its candidates' dependencies,
//! and the metered checks an epoch evaluation makes against it.

use vstd::prelude::*;
use crate::graph::change_candidate::{ChangeCandidate, same_candidate};
use crate::ordered::{OrdMap, OrdSet, lemma_sorted_unique};
use crate::reference::branch_state::{PersistentDeltaMap, key_prefix, lemma_key_prefix_step, lemma_visited_bound};
use crate::types::{ChangeHash, OrderedKey, ProtocolDisposition, SameValue};
use crate::work_budget::{
    CancellationCheck, WorkBudget, WorkCounter, WorkStop, affords, budget_grew, charge_from,
    lemma_budget_grew_trans, operations_exhausted,
};

verus! {

/// What is known of a change before an epoch is evaluated.
#[derive(Clone, Copy, Debug, PartialEq, Eq, Structural)]
pub enum PriorChangeKnowledge {
    /// It is in the accepted base.
    AcceptedInBase,
    /// It is a candidate of the same epoch.
    SameEpochCandidate,
    /// It was pruned from an ancestor on the canonical branch.
    PrunedCanonicalAncestor,
    /// It belongs to another control.
    KnownOtherControl,
    /// It was found invalid.
    KnownInvalid,
    /// It was written under an unsupported revision.
    KnownUnsupported,
    /// It was excluded as an equivocation earlier.
    PriorEquivocationExcluded,
    /// Nothing is known of it.
    Unknown,
}

impl SameValue for PriorChangeKnowledge {
    fn same_value(&self, other: &Self) -> (r: bool) {
        *self == *other
    }
}

/// Prior knowledge under which no change can depend on this one.
pub open spec fn known_impossible(knowledge: PriorChangeKnowledge) -> bool {
    match knowledge {
        PriorChangeKnowledge::PrunedCanonicalAncestor => true,
        PriorChangeKnowledge::KnownOtherControl => true,
        PriorChangeKnowledge::KnownInvalid => true,
        PriorChangeKnowledge::KnownUnsupported => true,
        PriorChangeKnowledge::PriorEquivocationExcluded => true,
        _ => false,
    }
}

impl PriorChangeKnowledge {
    /// Whether a dependency with this knowledge can never be satisfied.
    pub fn is_known_impossible(self) -> (r: bool)
        ensures
            r == known_impossible(self),
    {
        match self {
            PriorChangeKnowledge::PrunedCanonicalAncestor => true,
            PriorChangeKnowledge::KnownOtherControl => true,
            PriorChangeKnowledge::KnownInvalid => true,
            PriorChangeKnowledge::KnownUnsupported => true,
            PriorChangeKnowledge::PriorEquivocationExcluded => true,
            _ => false,
        }
    }
}

/// Prior knowledge shared along a branch of controls.
pub type PriorKnowledgeState = PersistentDeltaMap<ChangeHash, PriorChangeKnowledge>;

/// `h` has prior knowledge under which it can never be satisfied.
pub open spec fn blocked_by(prior: Map<ChangeHash, PriorChangeKnowledge>, h: ChangeHash) -> bool {
    prior.contains_key(h) && known_impossible(prior[h])
}

/// Whether no declared or missing dependency is known to be impossible.
///
/// Declared dependencies are read first, in order, then missing ones in
/// ascending order; each read is charged one edge unit before it, and the
/// lookup one node unit per layer of `prior` it visits. The first impossible
/// dependency ends the scan.
pub fn prior_dependencies_valid_metered(
    prior: &PriorKnowledgeState,
    declared: &Vec<ChangeHash>,
    missing: &OrdSet<ChangeHash>,
    budget: &mut WorkBudget,
    cancellation: &impl CancellationCheck,
) -> (r: Result<bool, WorkStop>)
    requires
        missing.wf(),
    ensures
        budget_grew(*old(budget), *final(budget)),
        r == Err::<bool, WorkStop>(WorkStop::BudgetExhausted) ==> operations_exhausted(*final(budget)),
        r == Err::<bool, WorkStop>(WorkStop::Cancelled) ==> !cancellation.never_cancels(),
        r matches Ok(b) ==> b == forall|h: ChangeHash|
            (declared@.contains(h) || missing@.contains(h)) ==> !#[trigger] blocked_by(prior@, h),
        cancellation.never_cancels() && affords(
            *old(budget),
            ((declared@.len() + missing@.len()) * (1 + prior.layer_maps().len())) as int,
        ) ==> r is Ok,
{
    let ghost start = *budget;
    let ghost per: int = (1 + prior.layer_maps().len()) as int;
    let ghost total: int = (declared@.len() + missing@.len()) as int;
    let ghost cost: int = ((declared@.len() + missing@.len()) * (1 + prior.layer_maps().len())) as int;
    let mut i: usize = 0;
    while i < declared.len()
        invariant
            start == *old(budget),
            budget_grew(start, *budget),
            i <= declared@.len(),
            forall|j: int| 0 <= j < i ==> !#[trigger] blocked_by(prior@, declared@[j]),
            per == 1 + prior.layer_maps().len(),
            total == declared@.len() + missing@.len(),
            cost == total * per,
            budget.usage().operations() <= start.usage().operations() + i * per,
        decreases declared@.len() - i,
    {
        proof {
            assert((i + 1) * per == i * per + per) by (nonlinear_arith);
            assert((i + 1) * per <= total * per) by (nonlinear_arith)
                requires
                    i + 1 <= total,
                    per >= 0,
            ;
            lemma_visited_bound(prior.layer_maps(), declared@[i as int]);
        }
        let c = charge_from(budget, cancellation, WorkCounter::GraphEdge, Ghost(start));
        proof {
            match c {
                Err(WorkStop::Cancelled) => {},
                Err(WorkStop::BudgetExhausted) => {},
                Ok(()) => {},
            }
        }
        if let Err(e) = c {
            return Err(e);
        }
        let dependency = &declared[i];
        let before = Ghost(*budget);
        let found = prior.get_metered(dependency, budget, cancellation);
        proof {
            lemma_budget_grew_trans(start, before@, *budget);
        }
        proof {
            match found {
                Err(WorkStop::Cancelled) => {},
                Err(WorkStop::BudgetExhausted) => {},
                Ok(_) => {},
            }
        }
        let found = match found {
            Ok(v) => v,
            Err(e) => {
                return Err(e);
            },
        };
        match found {
            Some(knowledge) => {
                if knowledge.is_known_impossible() {
                    proof {
                        assert(declared@.contains(declared@[i as int]));
                        assert(blocked_by(prior@, declared@[i as int]));
                    }
                    return Ok(false);
                }
            },
            None => {},
        }
        i = i + 1;
    }
    let n = missing.len();
    let mut i: usize = 0;
    while i < n
        invariant
            missing.wf(),
            n == missing.seq().len(),
            start == *old(budget),
            budget_grew(start, *budget),
            i <= n,
            forall|j: int| 0 <= j < declared@.len() ==> !#[trigger] blocked_by(prior@, declared@[j]),
            forall|j: int| 0 <= j < i ==> !#[trigger] blocked_by(prior@, missing.seq()[j]),
            per == 1 + prior.layer_maps().len(),
            total == declared@.len() + missing@.len(),
            n == missing@.len(),
            cost == total * per,
            budget.usage().operations() <= start.usage().operations() + (declared@.len() + i) * per,
        decreases n - i,
    {
        proof {
            assert((declared@.len() + i + 1) * per == (declared@.len() + i) * per + per) by (nonlinear_arith);
            assert((declared@.len() + i + 1) * per <= total * per) by (nonlinear_arith)
                requires
                    declared@.len() + i + 1 <= total,
                    per >= 0,
            ;
            lemma_visited_bound(prior.layer_maps(), missing.seq()[i as int]);
        }
        let c = charge_from(budget, cancellation, WorkCounter::GraphEdge, Ghost(start));
        proof {
            match c {
                Err(WorkStop::Cancelled) => {},
                Err(WorkStop::BudgetExhausted) => {},
                Ok(()) => {},
            }
        }
        if let Err(e) = c {
            return Err(e);
        }
        let dependency = missing.get(i);
        let before = Ghost(*budget);
        let found = prior.get_metered(&dependency, budget, cancellation);
        proof {
            lemma_budget_grew_trans(start, before@, *budget);
        }
        proof {
            match found {
                Err(WorkStop::Cancelled) => {},
                Err(WorkStop::BudgetExhausted) => {},
                Ok(_) => {},
            }
        }
        let found = match found {
            Ok(v) => v,
            Err(e) => {
                return Err(e);
            },
        };
        match found {
            Some(knowledge) => {
                if knowledge.is_known_impossible() {
                    proof {
                        assert(missing.seq()[i as int] == dependency);
                        assert(missing.seq().contains(dependency));
                        assert(missing@.contains(dependency));
                        assert(blocked_by(prior@, dependency));
                    }
                    return Ok(false);
                }
            },
            None => {},
        }
        i = i + 1;
    }
    proof {
        assert forall|h: ChangeHash| (declared@.contains(h) || missing@.contains(h)) implies !#[trigger] blocked_by(
            prior@,
            h,
        ) by {
            if declared@.contains(h) {
                let j = choose|j: int| 0 <= j < declared@.len() && declared@[j] == h;
                assert(!blocked_by(prior@, declared@[j]));
            } else {
                assert(missing.seq().contains(h));
                let j = choose|j: int| 0 <= j < missing.seq().len() && missing.seq()[j] == h;
                assert(!blocked_by(prior@, missing.seq()[j]));
            }
        }
    }
    Ok(true)
}

/// Whether two sets of change hashes are equal, comparing them member by
/// member in ascending order and charging one node unit before each
/// comparison; sets of different sizes differ at no charge.
pub fn metered_hash_sets_equal(
    left: &OrdSet<ChangeHash>,
    right: &OrdSet<ChangeHash>,
    budget: &mut WorkBudget,
    cancellation: &impl CancellationCheck,
) -> (r: Result<bool, WorkStop>)
    requires
        left.wf(),
        right.wf(),
    ensures
        budget_grew(*old(budget), *final(budget)),
        r == Err::<bool, WorkStop>(WorkStop::BudgetExhausted) ==> operations_exhausted(*final(budget)),
        r == Err::<bool, WorkStop>(WorkStop::Cancelled) ==> !cancellation.never_cancels(),
        r matches Ok(b) ==> b == (left@ == right@),
        left@.len() != right@.len() ==> r == Ok::<bool, WorkStop>(false) && *final(budget) == *old(budget),
        r == Ok::<bool, WorkStop>(true) ==> final(budget).usage().operations() == old(budget).usage().operations()
            + left@.len(),
        cancellation.never_cancels() && affords(*old(budget), left@.len() as int) ==> r is Ok,
{
    let ghost start = *budget;
    let n = left.len();
    if n != right.len() {
        return Ok(false);
    }
    let mut i: usize = 0;
    while i < n
        invariant
            left.wf(),
            right.wf(),
            n == left.seq().len(),
            n == right.seq().len(),
            start == *old(budget),
            budget_grew(start, *budget),
            i <= n,
            forall|j: int| 0 <= j < i ==> left.seq()[j] == right.seq()[j],
            budget.usage().operations() == start.usage().operations() + i,
            left@.len() == right@.len(),
            n == left@.len(),
        decreases n - i,
    {
        let c = charge_from(budget, cancellation, WorkCounter::GraphNode, Ghost(start));
        proof {
            match c {
                Err(WorkStop::Cancelled) => {},
                Err(WorkStop::BudgetExhausted) => {},
                Ok(()) => {},
            }
        }
        if let Err(e) = c {
            return Err(e);
        }
        let a = left.get(i);
        let b = right.get(i);
        if !a.same_as(&b) {
            proof {
                if left@ == right@ {
                    lemma_sorted_unique(left.seq(), right.seq());
                }
            }
            return Ok(false);
        }
        i = i + 1;
    }
    proof {
        assert(left.seq() =~= right.seq());
    }
    Ok(true)
}

/// `copy` holds exact copies of the candidates of `source`, under the same hashes.
pub open spec fn copies_of(copy: Map<ChangeHash, ChangeCandidate>, source: Map<ChangeHash, ChangeCandidate>) -> bool {
    &&& copy.dom() == source.dom()
    &&& forall|h: ChangeHash| #[trigger] source.contains_key(h) ==> same_candidate(copy[h], source[h])
}

/// Copies `base` and then `local` into one map, `local` winning on a shared
/// hash; one node unit is charged for the map, and three for each entry:
/// before it is read, before it is copied and before it is stored.
pub fn clone_candidate_maps_metered(
    base: &OrdMap<ChangeHash, ChangeCandidate>,
    local: &OrdMap<ChangeHash, ChangeCandidate>,
    budget: &mut WorkBudget,
    cancellation: &impl CancellationCheck,
) -> (r: Result<OrdMap<ChangeHash, ChangeCandidate>, WorkStop>)
    requires
        base.wf(),
        local.wf(),
    ensures
        budget_grew(*old(budget), *final(budget)),
        r == Err::<OrdMap<ChangeHash, ChangeCandidate>, WorkStop>(WorkStop::BudgetExhausted) ==> operations_exhausted(
            *final(budget),
        ),
        r == Err::<OrdMap<ChangeHash, ChangeCandidate>, WorkStop>(WorkStop::Cancelled) ==> !cancellation.never_cancels(),
        r matches Ok(m) ==> m.wf() && copies_of(m@, base@.union_prefer_right(local@)),
        r is Ok ==> final(budget).usage().operations() == old(budget).usage().operations() + 1 + 3 * (
        base@.dom().len() + local@.dom().len()),
        cancellation.never_cancels() && affords(*old(budget), (1 + 3 * (base@.dom().len() + local@.dom().len())) as int)
            ==> r is Ok,
{
    let ghost start = *budget;
    charge_from(budget, cancellation, WorkCounter::GraphNode, Ghost(start))?;
    let mut result: OrdMap<ChangeHash, ChangeCandidate> = OrdMap::new();
    let ghost empty = Map::<ChangeHash, ChangeCandidate>::empty();
    copy_entries_metered(base, &mut result, budget, cancellation, Ghost(empty), Ghost(start))?;
    let ghost after_base = base@;
    proof {
        assert(empty.union_prefer_right(base@) =~= base@);
    }
    copy_entries_metered(local, &mut result, budget, cancellation, Ghost(after_base), Ghost(start))?;
    Ok(result)
}

/// Copies every entry of `source` into `result`, charging as
/// `clone_candidate_maps_metered` does for each entry.
fn copy_entries_metered(
    source: &OrdMap<ChangeHash, ChangeCandidate>,
    result: &mut OrdMap<ChangeHash, ChangeCandidate>,
    budget: &mut WorkBudget,
    cancellation: &impl CancellationCheck,
    Ghost(copied): Ghost<Map<ChangeHash, ChangeCandidate>>,
    Ghost(start): Ghost<WorkBudget>,
) -> (r: Result<(), WorkStop>)
    requires
        source.wf(),
        old(result).wf(),
        copies_of(old(result)@, copied),
        budget_grew(start, *old(budget)),
    ensures
        final(result).wf(),
        budget_grew(start, *final(budget)),
        budget_grew(*old(budget), *final(budget)),
        r == Err::<(), WorkStop>(WorkStop::BudgetExhausted) ==> operations_exhausted(*final(budget)),
        r == Err::<(), WorkStop>(WorkStop::Cancelled) ==> !cancellation.never_cancels(),
        r is Ok ==> copies_of(final(result)@, copied.union_prefer_right(source@)),
        r is Ok ==> final(budget).usage().operations() == old(budget).usage().operations() + 3 * source@.dom().len(),
        cancellation.never_cancels() && affords(*old(budget), (3 * source@.dom().len()) as int) ==> r is Ok,
        r is Err ==> !cancellation.never_cancels() || !affords(*old(budget), (3 * source@.dom().len()) as int),
{
    let ghost entry_budget = *budget;
    let n = source.len();
    let mut i: usize = 0;
    proof {
        assert(copied.union_prefer_right(key_prefix(source.key_seq(), source@, 0)) =~= copied);
    }
    while i < n
        invariant
            source.wf(),
            result.wf(),
            n == source.key_seq().len(),
            i <= n,
            budget_grew(start, entry_budget),
            entry_budget == *old(budget),
            budget_grew(entry_budget, *budget),
            copies_of(result@, copied.union_prefer_right(key_prefix(source.key_seq(), source@, i as int))),
            budget.usage().operations() == entry_budget.usage().operations() + 3 * i,
            n == source@.dom().len(),
        decreases n - i,
    {
        let c = charge_from(budget, cancellation, WorkCounter::GraphNode, Ghost(entry_budget));
        proof {
            match c {
                Err(WorkStop::Cancelled) => {},
                Err(WorkStop::BudgetExhausted) => {},
                Ok(()) => {},
            }
        }
        if let Err(e) = c {
            return Err(e);
        }
        let hash = source.key_at(i);
        let candidate = source.value_at(i);
        let c = charge_from(budget, cancellation, WorkCounter::GraphNode, Ghost(entry_budget));
        proof {
            match c {
                Err(WorkStop::Cancelled) => {},
                Err(WorkStop::BudgetExhausted) => {},
                Ok(()) => {},
            }
        }
        if let Err(e) = c {
            return Err(e);
        }
        let copy = candidate.duplicate();
        let c = charge_from(budget, cancellation, WorkCounter::GraphNode, Ghost(entry_budget));
        proof {
            match c {
                Err(WorkStop::Cancelled) => {},
                Err(WorkStop::BudgetExhausted) => {},
                Ok(()) => {},
            }
        }
        if let Err(e) = c {
            return Err(e);
        }
        let ghost before = result@;
        result.insert(hash, copy);
        proof {
            lemma_key_prefix_step(source.key_seq(), source@, i as int);
            let target = copied.union_prefer_right(key_prefix(source.key_seq(), source@, i + 1));
            assert(target =~= copied.union_prefer_right(key_prefix(source.key_seq(), source@, i as int)).insert(
                hash,
                source@[hash],
            ));
            assert forall|h: ChangeHash| #[trigger] target.contains_key(h) implies same_candidate(result@[h], target[h]) by {
                if h != hash {
                    assert(before.contains_key(h));
                }
            }
            assert(result@.dom() =~= target.dom());
        }
        i = i + 1;
    }
    proof {
        source.lemma_len();
        assert(source.key_seq().take(n as int) =~= source.key_seq());
        assert(key_prefix(source.key_seq(), source@, n as int) =~= source@);
        lemma_budget_grew_trans(start, entry_budget, *budget);
    }
    Ok(())
}

/// A change counts as accepted when it is in the accepted base or its
/// disposition is accepted.
pub open spec fn counts_as_accepted(
    accepted_base: Set<ChangeHash>,
    dispositions: Map<ChangeHash, ProtocolDisposition>,
    h: ChangeHash,
) -> bool {
    accepted_base.contains(h) || (dispositions.contains_key(h) && dispositions[h]
        == ProtocolDisposition::Accepted)
}

/// The hashes among the first `n` of `keys` that count as accepted, in order.
pub open spec fn accepted_in_order(
    keys: Seq<ChangeHash>,
    accepted_base: Set<ChangeHash>,
    dispositions: Map<ChangeHash, ProtocolDisposition>,
    n: int,
) -> Seq<ChangeHash>
    decreases n,
{
    if n <= 0 {
        Seq::empty()
    } else if counts_as_accepted(accepted_base, dispositions, keys[n - 1]) {
        accepted_in_order(keys, accepted_base, dispositions, n - 1).push(keys[n - 1])
    } else {
        accepted_in_order(keys, accepted_base, dispositions, n - 1)
    }
}

/// Whether `hash` counts as accepted: a base lookup, and a disposition
/// lookup only when the base lacks it, each charged one node unit first.
fn accepted_lookup(
    hash: &ChangeHash,
    accepted_base: &OrdSet<ChangeHash>,
    dispositions: &OrdMap<ChangeHash, ProtocolDisposition>,
    budget: &mut WorkBudget,
    cancellation: &impl CancellationCheck,
    Ghost(start): Ghost<WorkBudget>,
) -> (r: Result<bool, WorkStop>)
    requires
        accepted_base.wf(),
        dispositions.wf(),
        budget_grew(start, *old(budget)),
    ensures
        budget_grew(start, *final(budget)),
        r == Err::<bool, WorkStop>(WorkStop::BudgetExhausted) ==> operations_exhausted(*final(budget)),
        r == Err::<bool, WorkStop>(WorkStop::Cancelled) ==> !cancellation.never_cancels(),
        r matches Ok(b) ==> b == counts_as_accepted(accepted_base@, dispositions@, *hash),
        final(budget).usage().operations() <= old(budget).usage().operations() + 2,
        cancellation.never_cancels() && affords(*old(budget), 2) ==> r is Ok,
{
    let c = charge_from(budget, cancellation, WorkCounter::GraphNode, Ghost(start));
    proof {
        match c {
            Err(WorkStop::Cancelled) => {},
            Err(WorkStop::BudgetExhausted) => {},
            Ok(()) => {},
        }
    }
    if let Err(e) = c {
        return Err(e);
    }
    if accepted_base.contains(hash) {
        return Ok(true);
    }
    let c = charge_from(budget, cancellation, WorkCounter::GraphNode, Ghost(start));
    proof {
        match c {
            Err(WorkStop::Cancelled) => {},
            Err(WorkStop::BudgetExhausted) => {},
            Ok(()) => {},
        }
    }
    if let Err(e) = c {
        return Err(e);
    }
    Ok(has_disposition(hash, dispositions, ProtocolDisposition::Accepted))
}

/// Whether `dispositions` gives `hash` the disposition `wanted`.
fn has_disposition(
    hash: &ChangeHash,
    dispositions: &OrdMap<ChangeHash, ProtocolDisposition>,
    wanted: ProtocolDisposition,
) -> (b: bool)
    requires
        dispositions.wf(),
    ensures
        b == (dispositions@.contains_key(*hash) && dispositions@[*hash] == wanted),
{
    match dispositions.get(hash) {
        Some(d) => *d == wanted,
        None => false,
    }
}

/// Copies, in hash order, the candidates that count as accepted. One node
/// unit is charged for the vector, and for each entry one before it is read,
/// one per lookup, and, for a kept candidate, one before it is copied and one
/// before it is pushed.
pub fn collect_eligible_candidates_metered(
    candidates: &OrdMap<ChangeHash, ChangeCandidate>,
    accepted_base: &OrdSet<ChangeHash>,
    dispositions: &OrdMap<ChangeHash, ProtocolDisposition>,
    budget: &mut WorkBudget,
    cancellation: &impl CancellationCheck,
) -> (r: Result<Vec<ChangeCandidate>, WorkStop>)
    requires
        candidates.wf(),
        accepted_base.wf(),
        dispositions.wf(),
    ensures
        budget_grew(*old(budget), *final(budget)),
        r == Err::<Vec<ChangeCandidate>, WorkStop>(WorkStop::BudgetExhausted) ==> operations_exhausted(
            *final(budget),
        ),
        r == Err::<Vec<ChangeCandidate>, WorkStop>(WorkStop::Cancelled) ==> !cancellation.never_cancels(),
        r matches Ok(v) ==> {
            let hashes = accepted_in_order(
                candidates.key_seq(),
                accepted_base@,
                dispositions@,
                candidates.key_seq().len() as int,
            );
            &&& v@.len() == hashes.len()
            &&& forall|i: int| 0 <= i < v@.len() ==> same_candidate(#[trigger] v@[i], candidates@[hashes[i]])
        },
        final(budget).usage().operations() <= old(budget).usage().operations() + 1 + 5 * candidates@.dom().len(),
        cancellation.never_cancels() && affords(*old(budget), (1 + 5 * candidates@.dom().len()) as int) ==> r is Ok,
{
    let ghost start = *budget;
    let c = charge_from(budget, cancellation, WorkCounter::GraphNode, Ghost(start));
    proof {
        match c {
            Err(WorkStop::Cancelled) => {},
            Err(WorkStop::BudgetExhausted) => {},
            Ok(()) => {},
        }
    }
    if let Err(e) = c {
        return Err(e);
    }
    let mut result: Vec<ChangeCandidate> = Vec::new();
    let n = candidates.len();
    let mut i: usize = 0;
    while i < n
        invariant
            candidates.wf(),
            accepted_base.wf(),
            dispositions.wf(),
            n == candidates.key_seq().len(),
            i <= n,
            start == *old(budget),
            budget_grew(start, *budget),
            result@.len() == accepted_in_order(candidates.key_seq(), accepted_base@, dispositions@, i as int).len(),
            forall|j: int|
                0 <= j < result@.len() ==> same_candidate(
                    #[trigger] result@[j],
                    candidates@[accepted_in_order(candidates.key_seq(), accepted_base@, dispositions@, i as int)[j]],
                ),
            n == candidates@.dom().len(),
            budget.usage().operations() <= start.usage().operations() + 1 + 5 * i,
        decreases n - i,
    {
        let c = charge_from(budget, cancellation, WorkCounter::GraphNode, Ghost(start));
        proof {
            match c {
                Err(WorkStop::Cancelled) => {},
                Err(WorkStop::BudgetExhausted) => {},
                Ok(()) => {},
            }
        }
        if let Err(e) = c {
            return Err(e);
        }
        let hash = candidates.key_at(i);
        let candidate = candidates.value_at(i);
        let c = accepted_lookup(&hash, accepted_base, dispositions, budget, cancellation, Ghost(start));
        proof {
            match c {
                Err(WorkStop::Cancelled) => {},
                Err(WorkStop::BudgetExhausted) => {},
                Ok(_) => {},
            }
        }
        let accepted = match c {
            Ok(v) => v,
            Err(e) => {
                return Err(e);
            },
        };
        if accepted {
            let c = charge_from(budget, cancellation, WorkCounter::GraphNode, Ghost(start));
            proof {
                match c {
                    Err(WorkStop::Cancelled) => {},
                    Err(WorkStop::BudgetExhausted) => {},
                    Ok(()) => {},
                }
            }
            if let Err(e) = c {
                return Err(e);
            }
            let copy = candidate.duplicate();
            let c = charge_from(budget, cancellation, WorkCounter::GraphNode, Ghost(start));
            proof {
                match c {
                    Err(WorkStop::Cancelled) => {},
                    Err(WorkStop::BudgetExhausted) => {},
                    Ok(()) => {},
                }
            }
            if let Err(e) = c {
                return Err(e);
            }
            result.push(copy);
        }
        i = i + 1;
    }
    Ok(result)
}

/// The hashes of `candidates` that count as accepted and are not excluded.
pub open spec fn projected_hashes(
    candidates: Map<ChangeHash, ChangeCandidate>,
    accepted_base: Set<ChangeHash>,
    dispositions: Map<ChangeHash, ProtocolDisposition>,
) -> Set<ChangeHash> {
    Set::new(
        |h: ChangeHash|
            candidates.contains_key(h) && counts_as_accepted(accepted_base, dispositions, h) && !(
            dispositions.contains_key(h) && dispositions[h] == ProtocolDisposition::Excluded),
    )
}

/// The accepted closure and its candidates: the candidates that count as
/// accepted and are not excluded. One node unit is charged for each of the
/// two results, and for each entry one before it is read, one per lookup
/// (the exclusion lookup always made), and for a kept candidate three more:
/// before the hash is stored, before the copy, and before it is stored.
#[verifier::spinoff_prover]
pub fn project_accepted_candidates_metered(
    candidates: &OrdMap<ChangeHash, ChangeCandidate>,
    accepted_base: &OrdSet<ChangeHash>,
    dispositions: &OrdMap<ChangeHash, ProtocolDisposition>,
    budget: &mut WorkBudget,
    cancellation: &impl CancellationCheck,
) -> (r: Result<(OrdSet<ChangeHash>, OrdMap<ChangeHash, ChangeCandidate>), WorkStop>)
    requires
        candidates.wf(),
        accepted_base.wf(),
        dispositions.wf(),
    ensures
        budget_grew(*old(budget), *final(budget)),
        r == Err::<(OrdSet<ChangeHash>, OrdMap<ChangeHash, ChangeCandidate>), WorkStop>(WorkStop::BudgetExhausted)
            ==> operations_exhausted(*final(budget)),
        r == Err::<(OrdSet<ChangeHash>, OrdMap<ChangeHash, ChangeCandidate>), WorkStop>(WorkStop::Cancelled)
            ==> !cancellation.never_cancels(),
        r matches Ok((closure, projected)) ==> {
            let hashes = projected_hashes(candidates@, accepted_base@, dispositions@);
            &&& closure.wf()
            &&& projected.wf()
            &&& closure@ == hashes
            &&& copies_of(projected@, candidates@.restrict(hashes))
        },
        final(budget).usage().operations() <= old(budget).usage().operations() + 2 + 7 * candidates@.dom().len(),
        cancellation.never_cancels() && affords(*old(budget), (2 + 7 * candidates@.dom().len()) as int) ==> r is Ok,
{
    let ghost start = *budget;
    let ghost hashes = projected_hashes(candidates@, accepted_base@, dispositions@);
    let c = charge_from(budget, cancellation, WorkCounter::GraphNode, Ghost(start));
    proof {
        match c {
            Err(WorkStop::Cancelled) => {},
            Err(WorkStop::BudgetExhausted) => {},
            Ok(()) => {},
        }
    }
    if let Err(e) = c {
        return Err(e);
    }
    let mut closure: OrdSet<ChangeHash> = OrdSet::new();
    let c = charge_from(budget, cancellation, WorkCounter::GraphNode, Ghost(start));
    proof {
        match c {
            Err(WorkStop::Cancelled) => {},
            Err(WorkStop::BudgetExhausted) => {},
            Ok(()) => {},
        }
    }
    if let Err(e) = c {
        return Err(e);
    }
    let mut projected: OrdMap<ChangeHash, ChangeCandidate> = OrdMap::new();
    let n = candidates.len();
    let mut i: usize = 0;
    proof {
        assert(closure@ =~= hashes.intersect(candidates.key_seq().take(0).to_set()));
        assert(candidates@.restrict(closure@) =~= Map::<ChangeHash, ChangeCandidate>::empty());
    }
    while i < n
        invariant
            candidates.wf(),
            accepted_base.wf(),
            dispositions.wf(),
            closure.wf(),
            projected.wf(),
            hashes == projected_hashes(candidates@, accepted_base@, dispositions@),
            n == candidates.key_seq().len(),
            i <= n,
            start == *old(budget),
            budget_grew(start, *budget),
            closure@ == hashes.intersect(candidates.key_seq().take(i as int).to_set()),
            copies_of(projected@, candidates@.restrict(closure@)),
            n == candidates@.dom().len(),
            budget.usage().operations() <= start.usage().operations() + 2 + 7 * i,
        decreases n - i,
    {
        let c = charge_from(budget, cancellation, WorkCounter::GraphNode, Ghost(start));
        proof {
            match c {
                Err(WorkStop::Cancelled) => {},
                Err(WorkStop::BudgetExhausted) => {},
                Ok(()) => {},
            }
        }
        if let Err(e) = c {
            return Err(e);
        }
        let hash = candidates.key_at(i);
        let candidate = candidates.value_at(i);
        proof {
            candidates.lemma_position(i as int);
        }
        let c = accepted_lookup(&hash, accepted_base, dispositions, budget, cancellation, Ghost(start));
        proof {
            match c {
                Err(WorkStop::Cancelled) => {},
                Err(WorkStop::BudgetExhausted) => {},
                Ok(_) => {},
            }
        }
        let accepted = match c {
            Ok(v) => v,
            Err(e) => {
                return Err(e);
            },
        };
        let c = charge_from(budget, cancellation, WorkCounter::GraphNode, Ghost(start));
        proof {
            match c {
                Err(WorkStop::Cancelled) => {},
                Err(WorkStop::BudgetExhausted) => {},
                Ok(()) => {},
            }
        }
        if let Err(e) = c {
            return Err(e);
        }
        let excluded = has_disposition(&hash, dispositions, ProtocolDisposition::Excluded);
        let ghost before_closure = closure@;
        let ghost before_projected = projected@;
        if accepted && !excluded {
            let c = charge_from(budget, cancellation, WorkCounter::GraphNode, Ghost(start));
            proof {
                match c {
                    Err(WorkStop::Cancelled) => {},
                    Err(WorkStop::BudgetExhausted) => {},
                    Ok(()) => {},
                }
            }
            if let Err(e) = c {
                return Err(e);
            }
            closure.insert(hash);
            let c = charge_from(budget, cancellation, WorkCounter::GraphNode, Ghost(start));
            proof {
                match c {
                    Err(WorkStop::Cancelled) => {},
                    Err(WorkStop::BudgetExhausted) => {},
                    Ok(()) => {},
                }
            }
            if let Err(e) = c {
                return Err(e);
            }
            let copy = candidate.duplicate();
            let c = charge_from(budget, cancellation, WorkCounter::GraphNode, Ghost(start));
            proof {
                match c {
                    Err(WorkStop::Cancelled) => {},
                    Err(WorkStop::BudgetExhausted) => {},
                    Ok(()) => {},
                }
            }
            if let Err(e) = c {
                return Err(e);
            }
            projected.insert(hash, copy);
        }
        proof {
            let keys = candidates.key_seq();
            assert(keys.take(i + 1) =~= keys.take(i as int).push(hash));
            keys.take(i as int).lemma_push_to_set_commute(hash);
            assert(closure@ =~= hashes.intersect(keys.take(i + 1).to_set()));
            let target = candidates@.restrict(closure@);
            assert forall|h: ChangeHash| #[trigger] target.contains_key(h) implies same_candidate(
                projected@[h],
                target[h],
            ) by {
                if h != hash {
                    assert(before_projected.contains_key(h));
                    assert(candidates@.restrict(before_closure).contains_key(h));
                }
            }
            assert(projected@.dom() =~= target.dom());
        }
        i = i + 1;
    }
    proof {
        candidates.lemma_len();
        assert(candidates.key_seq().take(n as int) =~= candidates.key_seq());
        assert(closure@ =~= hashes);
    }
    Ok((closure, projected))
}

} // verus!
