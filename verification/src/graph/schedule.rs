//! Deterministic scheduling of change candidates.
//!
//! Candidates whose dependencies are all accepted or scheduled are emitted in
//! ascending hash order as they become ready. Candidates blocked by a missing
//! dependency, directly or through other blocked candidates, are pending; the
//! rest are caught in dependency cycles.

use vstd::prelude::*;
use crate::graph::change_candidate::ChangeCandidate;
use crate::graph::dependency_graph::count_in;
use crate::ordered::{OrdMap, OrdSet, insert_into_set_entry, sets_view, sets_wf};
use crate::types::{ChangeHash, OrderedKey};
use crate::work_budget::{
    CancellationCheck, WorkBudget, WorkCounter, WorkStop, affords, budget_grew, charge_from,
    operations_exhausted, lemma_grew_operations,
};

verus! {

/// The outcome of scheduling a batch of candidates.
#[derive(Debug)]
pub struct Schedule {
    /// Candidates in the order they can be applied.
    pub ordered: Vec<ChangeHash>,
    /// Candidates blocked by a missing dependency.
    pub pending: OrdSet<ChangeHash>,
    /// Dependencies that are neither candidates nor accepted.
    pub missing_dependencies: OrdSet<ChangeHash>,
    /// Candidates caught in dependency cycles.
    pub cyclic: OrdSet<ChangeHash>,
}

/// Scheduling stopped before completing.
pub type ScheduleError = WorkStop;

/// `i` is the last position of its change hash in `cs`.
pub open spec fn is_last_index(cs: Seq<ChangeCandidate>, i: int) -> bool {
    &&& 0 <= i < cs.len()
    &&& forall|j: int| i < j < cs.len() ==> #[trigger] cs[j].change_hash != cs[i].change_hash
}

/// Each change hash in `cs`, mapped to its last candidate.
pub open spec fn latest_map(cs: Seq<ChangeCandidate>) -> Map<ChangeHash, ChangeCandidate> {
    Map::new(
        |h: ChangeHash| exists|i: int| 0 <= i < cs.len() && #[trigger] cs[i].change_hash == h,
        |h: ChangeHash| cs[choose|i: int| is_last_index(cs, i) && cs[i].change_hash == h],
    )
}

/// A hash's last position is unique.
pub proof fn lemma_last_index_unique(cs: Seq<ChangeCandidate>, i: int, j: int)
    requires
        is_last_index(cs, i),
        is_last_index(cs, j),
        cs[i].change_hash == cs[j].change_hash,
    ensures
        i == j,
{
}

/// The candidate hashes that name `p` as a dependency.
pub open spec fn children_of(rem: Map<ChangeHash, ChangeCandidate>, p: ChangeHash) -> Set<ChangeHash> {
    Set::new(|c: ChangeHash| rem.contains_key(c) && rem[c].dependencies@.contains(p))
}

/// For every candidate named as a dependency, the candidates naming it.
pub open spec fn candidate_dependants(rem: Map<ChangeHash, ChangeCandidate>) -> Map<
    ChangeHash,
    Set<ChangeHash>,
> {
    Map::new(
        |p: ChangeHash| rem.contains_key(p) && exists|c: ChangeHash| #[trigger]
            children_of(rem, p).contains(c),
        |p: ChangeHash| children_of(rem, p),
    )
}

/// The most dependencies any one of `cs` names.
pub open spec fn max_deps(cs: Seq<ChangeCandidate>) -> nat
    decreases cs.len(),
{
    if cs.len() == 0 {
        0
    } else if cs.last().dependencies@.len() > max_deps(cs.drop_last()) {
        cs.last().dependencies@.len()
    } else {
        max_deps(cs.drop_last())
    }
}

/// No candidate of `m` names more than `d` dependencies.
pub open spec fn deps_bounded(m: Map<ChangeHash, ChangeCandidate>, d: int) -> bool {
    forall|h: ChangeHash| #[trigger] m.contains_key(h) ==> m[h].dependencies@.len() <= d
}

/// Every candidate names at most `max_deps` dependencies.
pub proof fn lemma_max_deps(cs: Seq<ChangeCandidate>, i: int)
    requires
        0 <= i < cs.len(),
    ensures
        cs[i].dependencies@.len() <= max_deps(cs),
    decreases cs.len(),
{
    if i < cs.len() - 1 {
        lemma_max_deps(cs.drop_last(), i);
    }
}

/// The latest candidates are no more numerous than the inputs and name at
/// most `max_deps` dependencies each.
pub proof fn lemma_latest_map_bounds(cs: Seq<ChangeCandidate>)
    ensures
        latest_map(cs).dom().len() <= cs.len(),
        latest_map(cs).dom().finite(),
        deps_bounded(latest_map(cs), max_deps(cs) as int),
{
    let hs = cs.map_values(|c: ChangeCandidate| c.change_hash);
    assert forall|h: ChangeHash| latest_map(cs).dom().contains(h) <==> hs.to_set().contains(h) by {
        if latest_map(cs).dom().contains(h) {
            let i = choose|i: int| 0 <= i < cs.len() && #[trigger] cs[i].change_hash == h;
            assert(hs[i] == h);
        }
        if hs.to_set().contains(h) {
            let i = choose|i: int| 0 <= i < hs.len() && hs[i] == h;
            assert(cs[i].change_hash == h);
        }
    }
    assert(latest_map(cs).dom() =~= hs.to_set());
    hs.lemma_cardinality_of_set();
    vstd::seq_lib::seq_to_set_is_finite(hs);
    assert forall|h: ChangeHash| #[trigger] latest_map(cs).contains_key(h) implies latest_map(cs)[h].dependencies@.len()
        <= max_deps(cs) by {
        let k = choose|k: int| 0 <= k < cs.len() && #[trigger] cs[k].change_hash == h;
        assert(exists|i: int| is_last_index(cs, i) && cs[i].change_hash == h) by {
            lemma_last_exists(cs, k);
        }
        let i = choose|i: int| is_last_index(cs, i) && cs[i].change_hash == h;
        lemma_max_deps(cs, i);
    }
}

/// A hash present in `cs` has a last position.
pub proof fn lemma_last_exists(cs: Seq<ChangeCandidate>, k: int)
    requires
        0 <= k < cs.len(),
    ensures
        exists|i: int| is_last_index(cs, i) && cs[i].change_hash == cs[k].change_hash,
    decreases cs.len() - k,
{
    if exists|j: int| k < j < cs.len() && cs[j].change_hash == cs[k].change_hash {
        let j = choose|j: int| k < j < cs.len() && cs[j].change_hash == cs[k].change_hash;
        lemma_last_exists(cs, j);
    } else {
        assert(is_last_index(cs, k));
    }
}

fn collect_candidates(
    candidates: Vec<ChangeCandidate>,
    budget: &mut WorkBudget,
    cancellation: &impl CancellationCheck,
    Ghost(start): Ghost<WorkBudget>,
) -> (r: Result<(OrdMap<ChangeHash, ChangeCandidate>, OrdSet<ChangeHash>), WorkStop>)
    requires
        budget_grew(start, *old(budget)),
    ensures
        budget_grew(start, *final(budget)),
        r == Err::<(OrdMap<ChangeHash, ChangeCandidate>, OrdSet<ChangeHash>), WorkStop>(WorkStop::BudgetExhausted)
            ==> operations_exhausted(*final(budget)),
        r == Err::<(OrdMap<ChangeHash, ChangeCandidate>, OrdSet<ChangeHash>), WorkStop>(WorkStop::Cancelled)
            ==> !cancellation.never_cancels(),
        cancellation.never_cancels() && operations_exhausted(*old(budget)) ==> r matches Err(
            WorkStop::BudgetExhausted,
        ),
        cancellation.always_cancels() ==> r matches Err(WorkStop::Cancelled),
        r matches Ok((rem, hashes)) ==> {
            &&& rem.wf()
            &&& rem@ == latest_map(candidates@)
            &&& hashes.wf()
            &&& hashes@ == rem@.dom()
        },
        final(budget).usage().operations() <= old(budget).usage().operations() + 4 + 2 * candidates@.len() + 2
            * latest_map(candidates@).dom().len(),
        cancellation.never_cancels() && affords(
            *old(budget),
            (4 + 2 * candidates@.len() + 2 * latest_map(candidates@).dom().len()) as int,
        ) ==> r is Ok,
{
    let ghost orig = candidates@;
    let ghost entry = *budget;
    let ghost a = latest_map(candidates@).dom().len() as int;
    let n = candidates.len();
    let c = charge_from(budget, cancellation, WorkCounter::GraphNode, Ghost(start));
    proof {
        match c {
            Err(WorkStop::Cancelled) => {},
            Err(WorkStop::BudgetExhausted) => {},
            Ok(()) => {},
        }
    }
    if let Err(e) = c {
        return Err(e);
    }
    let c = charge_from(budget, cancellation, WorkCounter::GraphNode, Ghost(start));
    proof {
        match c {
            Err(WorkStop::Cancelled) => {},
            Err(WorkStop::BudgetExhausted) => {},
            Ok(()) => {},
        }
    }
    if let Err(e) = c {
        return Err(e);
    }
    let mut remaining: OrdMap<ChangeHash, ChangeCandidate> = OrdMap::new();
    let mut rest = candidates;
    loop
        invariant_except_break
            budget.usage().operations() <= entry.usage().operations() + 2 + 2 * (n - rest@.len()),
        invariant
            budget_grew(start, *budget),
            entry == *old(budget),
            budget_grew(start, entry),
            a == latest_map(orig).dom().len(),
            orig == candidates@,
            orig.len() == n,
            rest@.len() <= n,
            rest@ == orig.subrange(0, rest@.len() as int),
            remaining.wf(),
            forall|h: ChangeHash| #[trigger] remaining@.contains_key(h) <==> exists|i: int|
                rest@.len() <= i < n && orig[i].change_hash == h,
            forall|h: ChangeHash| #[trigger] remaining@.contains_key(h) ==> exists|i: int|
                rest@.len() <= i < n && is_last_index(orig, i) && orig[i].change_hash == h
                    && remaining@[h] == orig[i],
        ensures
            rest@.len() == 0,
            budget.usage().operations() <= entry.usage().operations() + 3 + 2 * n,
        decreases rest@.len(),
    {
        let c = charge_from(budget, cancellation, WorkCounter::GraphNode, Ghost(start));
        proof {
            match c {
                Err(WorkStop::Cancelled) => {},
                Err(WorkStop::BudgetExhausted) => {},
                Ok(()) => {},
            }
        }
        if let Err(e) = c {
            return Err(e);
        }
        let ghost k = rest@.len();
        let ghost before = rest@;
        match rest.pop() {
            None => break,
            Some(candidate) => {
                let c = charge_from(budget, cancellation, WorkCounter::GraphNode, Ghost(start));
                proof {
                    match c {
                        Err(WorkStop::Cancelled) => {},
                        Err(WorkStop::BudgetExhausted) => {},
                        Ok(()) => {},
                    }
                }
                if let Err(e) = c {
                    return Err(e);
                }
                let ghost old_rem = remaining@;
                assert(k > 0);
                assert(before[k - 1] == orig[k - 1]);
                assert(candidate == orig[k - 1]);
                if !remaining.contains_key(&candidate.change_hash) {
                    let ghost c = candidate;
                    proof {
                        assert forall|j: int| k - 1 < j < n implies #[trigger] orig[j].change_hash
                            != orig[k - 1].change_hash by {
                            if orig[j].change_hash == orig[k - 1].change_hash {
                                assert(remaining@.contains_key(orig[j].change_hash));
                            }
                        }
                    }
                    remaining.insert(candidate.change_hash, candidate);
                    proof {
                        assert forall|h: ChangeHash| #[trigger] remaining@.contains_key(h) implies exists|i: int|
                            k - 1 <= i < n && is_last_index(orig, i) && orig[i].change_hash == h
                                && remaining@[h] == orig[i] by {
                            if h == c.change_hash {
                                assert(is_last_index(orig, k - 1));
                            } else {
                                assert(old_rem.contains_key(h));
                            }
                        }
                        assert forall|h: ChangeHash| #[trigger] remaining@.contains_key(h) <==> exists|i: int|
                            k - 1 <= i < n && orig[i].change_hash == h by {
                            if h != c.change_hash {
                                if exists|i: int| k - 1 <= i < n && orig[i].change_hash == h {
                                    let i = choose|i: int| k - 1 <= i < n && orig[i].change_hash == h;
                                    assert(i != k - 1);
                                }
                            } else {
                                assert(orig[k - 1].change_hash == h);
                            }
                        }
                    }
                } else {
                    proof {
                        assert forall|h: ChangeHash| #[trigger] remaining@.contains_key(h) <==> exists|i: int|
                            k - 1 <= i < n && orig[i].change_hash == h by {
                            if exists|i: int| k - 1 <= i < n && orig[i].change_hash == h {
                                let i = choose|i: int| k - 1 <= i < n && orig[i].change_hash == h;
                                if i == k - 1 {
                                    assert(remaining@.contains_key(orig[k - 1].change_hash));
                                }
                            }
                        }
                        assert forall|h: ChangeHash| #[trigger] remaining@.contains_key(h) implies exists|i: int|
                            k - 1 <= i < n && is_last_index(orig, i) && orig[i].change_hash == h
                                && remaining@[h] == orig[i] by {
                            let i = choose|i: int|
                                k <= i < n && is_last_index(orig, i) && orig[i].change_hash == h
                                    && remaining@[h] == orig[i];
                        }
                    }
                }
                proof {
                    assert(rest@ =~= orig.subrange(0, rest@.len() as int));
                }
            },
        }
    }
    proof {
        assert(remaining@ =~= latest_map(orig)) by {
            assert forall|h: ChangeHash| #[trigger] remaining@.contains_key(h) implies remaining@[h]
                == latest_map(orig)[h] by {
                let i = choose|i: int|
                    0 <= i < n && is_last_index(orig, i) && orig[i].change_hash == h
                        && remaining@[h] == orig[i];
                let j = choose|j: int| is_last_index(orig, j) && orig[j].change_hash == h;
                lemma_last_index_unique(orig, i, j);
            }
        }
    }
    let c = charge_from(budget, cancellation, WorkCounter::GraphNode, Ghost(start));
    proof {
        match c {
            Err(WorkStop::Cancelled) => {},
            Err(WorkStop::BudgetExhausted) => {},
            Ok(()) => {},
        }
    }
    if let Err(e) = c {
        return Err(e);
    }
    let mut hashes: OrdSet<ChangeHash> = OrdSet::new();
    let m = remaining.len();
    proof {
        remaining.lemma_len();
    }
    for i in 0..m
        invariant
            budget_grew(start, *budget),
            entry == *old(budget),
            budget_grew(start, entry),
            orig == candidates@,
            n == orig.len(),
            m == a,
            a == latest_map(orig).dom().len(),
            budget.usage().operations() <= entry.usage().operations() + 4 + 2 * n + 2 * i,
            m == remaining.key_seq().len(),
            remaining.wf(),
            hashes.wf(),
            hashes@ == remaining.key_seq().take(i as int).to_set(),
    {
        let c = charge_from(budget, cancellation, WorkCounter::GraphNode, Ghost(start));
        proof {
            match c {
                Err(WorkStop::Cancelled) => {},
                Err(WorkStop::BudgetExhausted) => {},
                Ok(()) => {},
            }
        }
        if let Err(e) = c {
            return Err(e);
        }
        let key = remaining.key_at(i);
        let c = charge_from(budget, cancellation, WorkCounter::GraphNode, Ghost(start));
        proof {
            match c {
                Err(WorkStop::Cancelled) => {},
                Err(WorkStop::BudgetExhausted) => {},
                Ok(()) => {},
            }
        }
        if let Err(e) = c {
            return Err(e);
        }
        hashes.insert(key);
        proof {
            assert(remaining.key_seq().take(i + 1) =~= remaining.key_seq().take(i as int).push(key));
            remaining.key_seq().take(i as int).lemma_push_to_set_commute(key);
        }
    }
    proof {
        assert(remaining.key_seq().take(m as int) =~= remaining.key_seq());
        remaining.lemma_len();
    }
    Ok((remaining, hashes))
}

} // verus!

verus! {

/// The dependants map spanned by a set of (child, parent) edges.
pub open spec fn pair_map(edges: Set<(ChangeHash, ChangeHash)>) -> Map<ChangeHash, Set<ChangeHash>> {
    Map::new(
        |p: ChangeHash| exists|c: ChangeHash| #[trigger] edges.contains((c, p)),
        |p: ChangeHash| Set::new(|c: ChangeHash| edges.contains((c, p))),
    )
}

/// Candidate-to-candidate edges of the first `i` candidates and the first `k`
/// dependencies of candidate `i`.
pub open spec fn candidate_edges_upto(
    rem: OrdMap<ChangeHash, ChangeCandidate>,
    i: int,
    k: int,
) -> Set<(ChangeHash, ChangeHash)> {
    Set::new(
        |q: (ChangeHash, ChangeHash)|
            rem@.contains_key(q.1) && ((exists|j: int|
                0 <= j < i && q.0 == rem.key_seq()[j] && #[trigger] rem.val_seq()[j].dependencies@.contains(
                    q.1,
                )) || (i < rem.key_seq().len() && q.0 == rem.key_seq()[i] && exists|m: int|
                0 <= m < k && q.1 == #[trigger] rem.val_seq()[i].dependencies@[m])),
    )
}

fn index_dependencies(
    remaining: &OrdMap<ChangeHash, ChangeCandidate>,
    hashes: &OrdSet<ChangeHash>,
    accepted_base: &OrdSet<ChangeHash>,
    budget: &mut WorkBudget,
    cancellation: &impl CancellationCheck,
    Ghost(start): Ghost<WorkBudget>,
    Ghost(dmax): Ghost<int>,
) -> (r: Result<(OrdMap<ChangeHash, usize>, OrdMap<ChangeHash, OrdSet<ChangeHash>>), WorkStop>)
    requires
        budget_grew(start, *old(budget)),
        dmax >= 0,
        deps_bounded(remaining@, dmax),
        remaining.wf(),
        hashes.wf(),
        hashes@ == remaining@.dom(),
        accepted_base.wf(),
    ensures
        budget_grew(start, *final(budget)),
        r == Err::<(OrdMap<ChangeHash, usize>, OrdMap<ChangeHash, OrdSet<ChangeHash>>), WorkStop>(WorkStop::BudgetExhausted)
            ==> operations_exhausted(*final(budget)),
        r == Err::<(OrdMap<ChangeHash, usize>, OrdMap<ChangeHash, OrdSet<ChangeHash>>), WorkStop>(WorkStop::Cancelled)
            ==> !cancellation.never_cancels(),
        r matches Ok((unresolved, dependants)) ==> {
            &&& unresolved.wf()
            &&& unresolved@.dom() == remaining@.dom()
            &&& forall|c: ChangeHash| #[trigger] unresolved@.contains_key(c) ==> unresolved@[c] == count_in(
                remaining@[c].dependencies@,
                accepted_base@.complement(),
            )
            &&& sets_wf(dependants)
            &&& sets_view(dependants) == candidate_dependants(remaining@)
        },
        final(budget).usage().operations() <= old(budget).usage().operations() + 2 + remaining@.dom().len() * (2 + 8
            * dmax),
        cancellation.never_cancels() && affords(*old(budget), 2 + remaining@.dom().len() * (2 + 8 * dmax))
            ==> r is Ok,
{
    let ghost entry = *budget;
    let ghost per: int = 2 + 8 * dmax;
    let c = charge_from(budget, cancellation, WorkCounter::GraphNode, Ghost(start));
    proof {
        match c {
            Err(WorkStop::Cancelled) => {},
            Err(WorkStop::BudgetExhausted) => {},
            Ok(()) => {},
        }
    }
    if let Err(e) = c {
        return Err(e);
    }
    let mut unresolved: OrdMap<ChangeHash, usize> = OrdMap::new();
    let c = charge_from(budget, cancellation, WorkCounter::GraphEdge, Ghost(start));
    proof {
        match c {
            Err(WorkStop::Cancelled) => {},
            Err(WorkStop::BudgetExhausted) => {},
            Ok(()) => {},
        }
    }
    if let Err(e) = c {
        return Err(e);
    }
    let mut dependants: OrdMap<ChangeHash, OrdSet<ChangeHash>> = OrdMap::new();
    let n = remaining.len();
    proof {
        assert(sets_view(dependants) =~= pair_map(candidate_edges_upto(*remaining, 0, 0)));
    }
    for i in 0..n
        invariant
            budget_grew(start, *budget),
            n == remaining.key_seq().len(),
            remaining.wf(),
            hashes.wf(),
            hashes@ == remaining@.dom(),
            accepted_base.wf(),
            unresolved.wf(),
            unresolved@.dom() == remaining.key_seq().take(i as int).to_set(),
            forall|c: ChangeHash| #[trigger] unresolved@.contains_key(c) ==> unresolved@[c] == count_in(
                remaining@[c].dependencies@,
                accepted_base@.complement(),
            ),
            sets_wf(dependants),
            sets_view(dependants) == pair_map(candidate_edges_upto(*remaining, i as int, 0)),
            entry == *old(budget),
            budget_grew(start, entry),
            per == 2 + 8 * dmax,
            dmax >= 0,
            deps_bounded(remaining@, dmax),
            n == remaining@.dom().len(),
            budget.usage().operations() <= entry.usage().operations() + 2 + i * per,
    {
        proof {
            remaining.lemma_position(i as int);
            assert((i + 1) * per == i * per + per) by (nonlinear_arith);
            assert((i + 1) * per <= n * per) by (nonlinear_arith)
                requires
                    i + 1 <= n,
                    per >= 0,
            ;
        }
        let c = charge_from(budget, cancellation, WorkCounter::GraphNode, Ghost(start));
        proof {
            match c {
                Err(WorkStop::Cancelled) => {},
                Err(WorkStop::BudgetExhausted) => {},
                Ok(()) => {},
            }
        }
        if let Err(e) = c {
            return Err(e);
        }
        let hash = remaining.key_at(i);
        let candidate = remaining.value_at(i);
        let mut count: usize = 0;
        let m = candidate.dependencies.len();
        for k in 0..m
            invariant
                budget_grew(start, *budget),
                n == remaining.key_seq().len(),
                0 <= i < n,
                remaining.wf(),
                hashes.wf(),
                hashes@ == remaining@.dom(),
                accepted_base.wf(),
                hash == remaining.key_seq()[i as int],
                *candidate == remaining.val_seq()[i as int],
                m == candidate.dependencies@.len(),
                count <= k,
                count == count_in(candidate.dependencies@.take(k as int), accepted_base@.complement()),
                sets_wf(dependants),
                sets_view(dependants) == pair_map(candidate_edges_upto(*remaining, i as int, k as int)),
                entry == *old(budget),
                budget_grew(start, entry),
                per == 2 + 8 * dmax,
                m <= dmax,
                n == remaining@.dom().len(),
                (i + 1) * per <= n * per,
                (i + 1) * per == i * per + per,
                budget.usage().operations() <= entry.usage().operations() + 3 + i * per + 8 * k,
        {
            let c = charge_from(budget, cancellation, WorkCounter::GraphEdge, Ghost(start));
            proof {
                match c {
                    Err(WorkStop::Cancelled) => {},
                    Err(WorkStop::BudgetExhausted) => {},
                    Ok(()) => {},
                }
            }
            if let Err(e) = c {
                return Err(e);
            }
            let dependency = candidate.dependencies[k];
            let c = charge_from(budget, cancellation, WorkCounter::GraphEdge, Ghost(start));
            proof {
                match c {
                    Err(WorkStop::Cancelled) => {},
                    Err(WorkStop::BudgetExhausted) => {},
                    Ok(()) => {},
                }
            }
            if let Err(e) = c {
                return Err(e);
            }
            let accepted = accepted_base.contains(&dependency);
            proof {
                let ds = candidate.dependencies@;
                assert(ds.take(k + 1).drop_last() =~= ds.take(k as int));
                assert(ds.take(k + 1).last() == dependency);
            }
            if !accepted {
                let c = charge_from(budget, cancellation, WorkCounter::GraphEdge, Ghost(start));
                proof {
                    match c {
                        Err(WorkStop::Cancelled) => {},
                        Err(WorkStop::BudgetExhausted) => {},
                        Ok(()) => {},
                    }
                }
                if let Err(e) = c {
                    return Err(e);
                }
                count = count + 1;
            }
            let c = charge_from(budget, cancellation, WorkCounter::GraphEdge, Ghost(start));
            proof {
                match c {
                    Err(WorkStop::Cancelled) => {},
                    Err(WorkStop::BudgetExhausted) => {},
                    Ok(()) => {},
                }
            }
            if let Err(e) = c {
                return Err(e);
            }
            let is_candidate = hashes.contains(&dependency);
            let ghost before = candidate_edges_upto(*remaining, i as int, k as int);
            let ghost after = candidate_edges_upto(*remaining, i as int, k + 1);
            if is_candidate {
                let c = charge_from(budget, cancellation, WorkCounter::GraphEdge, Ghost(start));
                proof {
                    match c {
                        Err(WorkStop::Cancelled) => {},
                        Err(WorkStop::BudgetExhausted) => {},
                        Ok(()) => {},
                    }
                }
                if let Err(e) = c {
                    return Err(e);
                }
                let has_bucket = dependants.contains_key(&dependency);
                if !has_bucket {
                    let c = charge_from(budget, cancellation, WorkCounter::GraphEdge, Ghost(start));
                    proof {
                        match c {
                            Err(WorkStop::Cancelled) => {},
                            Err(WorkStop::BudgetExhausted) => {},
                            Ok(()) => {},
                        }
                    }
                    if let Err(e) = c {
                        return Err(e);
                    }
                }
                let c = charge_from(budget, cancellation, WorkCounter::GraphEdge, Ghost(start));
                proof {
                    match c {
                        Err(WorkStop::Cancelled) => {},
                        Err(WorkStop::BudgetExhausted) => {},
                        Ok(()) => {},
                    }
                }
                if let Err(e) = c {
                    return Err(e);
                }
                let c = charge_from(budget, cancellation, WorkCounter::GraphEdge, Ghost(start));
                proof {
                    match c {
                        Err(WorkStop::Cancelled) => {},
                        Err(WorkStop::BudgetExhausted) => {},
                        Ok(()) => {},
                    }
                }
                if let Err(e) = c {
                    return Err(e);
                }
                let ghost old_view = sets_view(dependants);
                insert_into_set_entry(&mut dependants, dependency, hash);
                proof {
                    assert forall|q: (ChangeHash, ChangeHash)| after.contains(q) <==> (before.contains(q) || q == (hash, dependency)) by {
                        if q == (hash, dependency) {
                            assert(dependency == remaining.val_seq()[i as int].dependencies@[k as int]);
                        }
                        if after.contains(q) && q.0 == hash && !(exists|j: int| 0 <= j < i && q.0 == remaining.key_seq()[j] && #[trigger] remaining.val_seq()[j].dependencies@.contains(q.1)) {
                            let mm = choose|mm: int| 0 <= mm < k + 1 && q.1 == #[trigger] remaining.val_seq()[i as int].dependencies@[mm];
                            if mm < k {
                                assert(before.contains(q));
                            }
                        }
                    }
                    lemma_pair_map_insert(before, after, hash, dependency, old_view, sets_view(dependants));
                }
            } else {
                proof {
                    assert forall|q: (ChangeHash, ChangeHash)| after.contains(q) <==> before.contains(q) by {
                        if after.contains(q) && q.0 == hash && !(exists|j: int| 0 <= j < i && q.0 == remaining.key_seq()[j] && #[trigger] remaining.val_seq()[j].dependencies@.contains(q.1)) {
                            let mm = choose|mm: int| 0 <= mm < k + 1 && q.1 == #[trigger] remaining.val_seq()[i as int].dependencies@[mm];
                            if mm == k {
                                assert(!remaining@.contains_key(q.1));
                            }
                        }
                    }
                    assert(after =~= before);
                }
            }
        }
        let c = charge_from(budget, cancellation, WorkCounter::GraphNode, Ghost(start));
        proof {
            match c {
                Err(WorkStop::Cancelled) => {},
                Err(WorkStop::BudgetExhausted) => {},
                Ok(()) => {},
            }
        }
        if let Err(e) = c {
            return Err(e);
        }
        proof {
            assert(candidate.dependencies@.take(m as int) =~= candidate.dependencies@);
            remaining.lemma_position(i as int);
        }
        let ghost old_unresolved = unresolved@;
        unresolved.insert(hash, count);
        proof {
            assert forall|c: ChangeHash| #[trigger] unresolved@.contains_key(c) implies unresolved@[c] == count_in(
                remaining@[c].dependencies@,
                accepted_base@.complement(),
            ) by {
                if c != hash {
                    assert(old_unresolved.contains_key(c));
                }
            }
        }
        proof {
            assert(remaining.key_seq().take(i + 1) =~= remaining.key_seq().take(i as int).push(hash));
            remaining.key_seq().take(i as int).lemma_push_to_set_commute(hash);
            let a = candidate_edges_upto(*remaining, i as int, m as int);
            let b = candidate_edges_upto(*remaining, i + 1, 0);
            assert forall|q: (ChangeHash, ChangeHash)| a.contains(q) <==> b.contains(q) by {
                if a.contains(q) && q.0 == hash && !(exists|j: int| 0 <= j < i && q.0 == remaining.key_seq()[j] && #[trigger] remaining.val_seq()[j].dependencies@.contains(q.1)) {
                    let mm = choose|mm: int| 0 <= mm < m && q.1 == #[trigger] remaining.val_seq()[i as int].dependencies@[mm];
                    assert(remaining.val_seq()[i as int].dependencies@.contains(q.1));
                }
                if b.contains(q) && !(exists|j: int| 0 <= j < i && q.0 == remaining.key_seq()[j] && #[trigger] remaining.val_seq()[j].dependencies@.contains(q.1)) {
                    let j = choose|j: int| 0 <= j < i + 1 && q.0 == remaining.key_seq()[j] && #[trigger] remaining.val_seq()[j].dependencies@.contains(q.1);
                    assert(j == i);
                    let mm = choose|mm: int| 0 <= mm < m && remaining.val_seq()[i as int].dependencies@[mm] == q.1;
                    assert(q.1 == remaining.val_seq()[i as int].dependencies@[mm]);
                }
            }
            assert(a =~= b);
        }
    }
    proof {
        assert(remaining.key_seq().take(n as int) =~= remaining.key_seq());
        remaining.lemma_len();
        let e = candidate_edges_upto(*remaining, n as int, 0);
        assert forall|c: ChangeHash, p: ChangeHash| e.contains((c, p)) <==> (remaining@.contains_key(c) && remaining@.contains_key(p) && remaining@[c].dependencies@.contains(p)) by {
            if e.contains((c, p)) {
                let q = (c, p);
                let j = choose|j: int| 0 <= j < n && q.0 == remaining.key_seq()[j] && #[trigger] remaining.val_seq()[j].dependencies@.contains(q.1);
                remaining.lemma_position(j);
            }
            if remaining@.contains_key(c) && remaining@.contains_key(p) && remaining@[c].dependencies@.contains(p) {
                assert(remaining.key_seq().contains(c));
                let j = choose|j: int| 0 <= j < n && remaining.key_seq()[j] == c;
                remaining.lemma_position(j);
                let q = (c, p);
                assert(q.0 == remaining.key_seq()[j] && remaining.val_seq()[j].dependencies@.contains(q.1));
            }
        }
        assert(pair_map(e) =~= candidate_dependants(remaining@)) by {
            assert forall|p: ChangeHash| pair_map(e).contains_key(p) <==> candidate_dependants(remaining@).contains_key(p) by {
                if pair_map(e).contains_key(p) {
                    let c = choose|c: ChangeHash| #[trigger] e.contains((c, p));
                    assert(children_of(remaining@, p).contains(c));
                }
                if candidate_dependants(remaining@).contains_key(p) {
                    let c = choose|c: ChangeHash| #[trigger] children_of(remaining@, p).contains(c);
                    assert(e.contains((c, p)));
                }
            }
            assert forall|p: ChangeHash| pair_map(e).contains_key(p) implies pair_map(e)[p] =~= candidate_dependants(remaining@)[p] by {
                let c0 = choose|c: ChangeHash| #[trigger] e.contains((c, p));
                assert(remaining@.contains_key(p));
            }
        }
    }
    Ok((unresolved, dependants))
}

/// Adding one edge to a pair map adds one member to one entry.
pub proof fn lemma_pair_map_insert(
    before: Set<(ChangeHash, ChangeHash)>,
    after: Set<(ChangeHash, ChangeHash)>,
    c: ChangeHash,
    p: ChangeHash,
    old_view: Map<ChangeHash, Set<ChangeHash>>,
    new_view: Map<ChangeHash, Set<ChangeHash>>,
)
    requires
        forall|q: (ChangeHash, ChangeHash)| after.contains(q) <==> (before.contains(q) || q == (c, p)),
        old_view == pair_map(before),
        new_view == old_view.insert(
            p,
            if old_view.contains_key(p) {
                old_view[p].insert(c)
            } else {
                Set::<ChangeHash>::empty().insert(c)
            },
        ),
    ensures
        new_view == pair_map(after),
{
    let pa = pair_map(after);
    assert forall|x: ChangeHash| new_view.contains_key(x) <==> pa.contains_key(x) by {
        if x == p {
            assert(after.contains((c, p)));
        } else {
            if exists|h: ChangeHash| #[trigger] after.contains((h, x)) {
                let h = choose|h: ChangeHash| #[trigger] after.contains((h, x));
                assert(before.contains((h, x)));
            }
            if exists|h: ChangeHash| #[trigger] before.contains((h, x)) {
                let h = choose|h: ChangeHash| #[trigger] before.contains((h, x));
                assert(after.contains((h, x)));
            }
        }
    }
    assert forall|x: ChangeHash| new_view.contains_key(x) implies new_view[x] =~= pa[x] by {
        if x == p {
            if old_view.contains_key(p) {
                assert forall|h: ChangeHash| new_view[x].contains(h) <==> pa[x].contains(h) by {
                    if h != c {
                        assert(after.contains((h, p)) <==> before.contains((h, p)));
                    } else {
                        assert(after.contains((c, p)));
                    }
                }
            } else {
                assert forall|h: ChangeHash| !before.contains((h, p)) by {
                    if before.contains((h, p)) {
                        assert(pair_map(before).contains_key(p));
                    }
                }
                assert forall|h: ChangeHash| new_view[x].contains(h) <==> pa[x].contains(h) by {
                    if h == c {
                        assert(after.contains((c, p)));
                    }
                }
            }
        } else {
            assert forall|h: ChangeHash| new_view[x].contains(h) <==> pa[x].contains(h) by {
                assert(after.contains((h, x)) <==> before.contains((h, x)));
            }
        }
    }
    assert(new_view =~= pa);
}

} // verus!

verus! {

/// The operation allowance still available.
pub open spec fn room(b: WorkBudget) -> int {
    b.operation_limit() - b.usage().operations()
}

fn initial_ready(
    unresolved: &OrdMap<ChangeHash, usize>,
    budget: &mut WorkBudget,
    cancellation: &impl CancellationCheck,
    Ghost(start): Ghost<WorkBudget>,
) -> (r: Result<OrdSet<ChangeHash>, WorkStop>)
    requires
        budget_grew(start, *old(budget)),
        unresolved.wf(),
    ensures
        budget_grew(start, *final(budget)),
        r == Err::<OrdSet<ChangeHash>, WorkStop>(WorkStop::BudgetExhausted) ==> operations_exhausted(*final(budget)),
        r == Err::<OrdSet<ChangeHash>, WorkStop>(WorkStop::Cancelled) ==> !cancellation.never_cancels(),
        r matches Ok(ready) ==> ready.wf() && ready@ == Set::new(
            |h: ChangeHash| unresolved@.contains_key(h) && unresolved@[h] == 0,
        ),
        final(budget).usage().operations() <= old(budget).usage().operations() + 1 + 3 * unresolved@.dom().len(),
        cancellation.never_cancels() && affords(*old(budget), (1 + 3 * unresolved@.dom().len()) as int) ==> r is Ok,
{
    let ghost entry = *budget;
    let c = charge_from(budget, cancellation, WorkCounter::GraphNode, Ghost(start));
    proof {
        match c {
            Err(WorkStop::Cancelled) => {},
            Err(WorkStop::BudgetExhausted) => {},
            Ok(()) => {},
        }
    }
    if let Err(e) = c {
        return Err(e);
    }
    let mut ready: OrdSet<ChangeHash> = OrdSet::new();
    let n = unresolved.len();
    for i in 0..n
        invariant
            budget_grew(start, *budget),
            n == unresolved.key_seq().len(),
            unresolved.wf(),
            ready.wf(),
            entry == *old(budget),
            budget_grew(start, entry),
            n == unresolved@.dom().len(),
            budget.usage().operations() <= entry.usage().operations() + 1 + 3 * i,
            ready@ == Set::new(
                |h: ChangeHash| exists|j: int| 0 <= j < i && unresolved.key_seq()[j] == h && #[trigger] unresolved.val_seq()[j] == 0,
            ),
    {
        let c = charge_from(budget, cancellation, WorkCounter::GraphNode, Ghost(start));
        proof {
            match c {
                Err(WorkStop::Cancelled) => {},
                Err(WorkStop::BudgetExhausted) => {},
                Ok(()) => {},
            }
        }
        if let Err(e) = c {
            return Err(e);
        }
        let hash = unresolved.key_at(i);
        let count = *unresolved.value_at(i);
        let c = charge_from(budget, cancellation, WorkCounter::GraphNode, Ghost(start));
        proof {
            match c {
                Err(WorkStop::Cancelled) => {},
                Err(WorkStop::BudgetExhausted) => {},
                Ok(()) => {},
            }
        }
        if let Err(e) = c {
            return Err(e);
        }
        let ghost old_ready = ready@;
        if count == 0 {
            let c = charge_from(budget, cancellation, WorkCounter::GraphNode, Ghost(start));
            proof {
                match c {
                    Err(WorkStop::Cancelled) => {},
                    Err(WorkStop::BudgetExhausted) => {},
                    Ok(()) => {},
                }
            }
            if let Err(e) = c {
                return Err(e);
            }
            ready.insert(hash);
        }
        proof {
            assert(ready@ =~= Set::new(
                |h: ChangeHash| exists|j: int| 0 <= j < i + 1 && unresolved.key_seq()[j] == h && #[trigger] unresolved.val_seq()[j] == 0,
            )) by {
                assert forall|h: ChangeHash| ready@.contains(h) implies exists|j: int| 0 <= j < i + 1 && unresolved.key_seq()[j] == h && #[trigger] unresolved.val_seq()[j] == 0 by {
                    if h == hash && count == 0 {
                        assert(unresolved.key_seq()[i as int] == h && unresolved.val_seq()[i as int] == 0);
                    } else {
                        assert(old_ready.contains(h));
                    }
                }
                assert forall|h: ChangeHash| (exists|j: int| 0 <= j < i + 1 && unresolved.key_seq()[j] == h && #[trigger] unresolved.val_seq()[j] == 0) implies ready@.contains(h) by {
                    let j = choose|j: int| 0 <= j < i + 1 && unresolved.key_seq()[j] == h && #[trigger] unresolved.val_seq()[j] == 0;
                    if j < i {
                        assert(old_ready.contains(h));
                    }
                }
            }
        }
    }
    proof {
        assert forall|h: ChangeHash| ready@.contains(h) <==> (unresolved@.contains_key(h) && unresolved@[h] == 0) by {
            if ready@.contains(h) {
                let j = choose|j: int| 0 <= j < n && unresolved.key_seq()[j] == h && #[trigger] unresolved.val_seq()[j] == 0;
                unresolved.lemma_position(j);
            }
            if unresolved@.contains_key(h) && unresolved@[h] == 0 {
                assert(unresolved.key_seq().contains(h));
                let j = choose|j: int| 0 <= j < n && unresolved.key_seq()[j] == h;
                unresolved.lemma_position(j);
                assert(unresolved.val_seq()[j] == 0);
            }
        }
        assert(ready@ =~= Set::new(|h: ChangeHash| unresolved@.contains_key(h) && unresolved@[h] == 0));
    }
    Ok(ready)
}

fn order_ready(
    remaining: &mut OrdMap<ChangeHash, ChangeCandidate>,
    unresolved: &mut OrdMap<ChangeHash, usize>,
    dependants: &OrdMap<ChangeHash, OrdSet<ChangeHash>>,
    ready: &mut OrdSet<ChangeHash>,
    budget: &mut WorkBudget,
    cancellation: &impl CancellationCheck,
    Ghost(start): Ghost<WorkBudget>,
    Ghost(all): Ghost<Map<ChangeHash, ChangeCandidate>>,
    Ghost(base): Ghost<Set<ChangeHash>>,
) -> (r: Result<Vec<ChangeHash>, WorkStop>)
    requires
        budget_grew(start, *old(budget)),
        old(remaining).wf(),
        old(remaining)@ == all,
        old(unresolved).wf(),
        old(unresolved)@.dom() == all.dom(),
        forall|c: ChangeHash| #[trigger] old(unresolved)@.contains_key(c) ==> old(unresolved)@[c] == count_in(
            all[c].dependencies@,
            base.complement(),
        ),
        sets_wf(*dependants),
        sets_view(*dependants) == candidate_dependants(all),
        old(ready).wf(),
        old(ready)@ == Set::new(|h: ChangeHash| old(unresolved)@.contains_key(h) && old(unresolved)@[h] == 0),
        all.dom().finite(),
    ensures
        budget_grew(start, *final(budget)),
        r == Err::<Vec<ChangeHash>, WorkStop>(WorkStop::BudgetExhausted) ==> operations_exhausted(*final(budget)),
        r == Err::<Vec<ChangeHash>, WorkStop>(WorkStop::Cancelled) ==> !cancellation.never_cancels(),
        r matches Ok(ordered) ==> {
            &&& final(remaining).wf()
            &&& ordered@.to_set().subset_of(all.dom())
            &&& final(remaining)@ == all.remove_keys(ordered@.to_set())
            &&& all.dom().disjoint(base) ==> crate::graph::order::greedy_order(schedule_deps(all, base), ordered@)
        },
        all.dom().disjoint(base) ==> final(budget).usage().operations() <= old(budget).usage().operations() + 2
            + all.dom().len() * (6 + 5 * all.dom().len()),
        all.dom().disjoint(base) && cancellation.never_cancels() && affords(
            *old(budget),
            (2 + all.dom().len() * (6 + 5 * all.dom().len())) as int,
        ) ==> r is Ok,
{
    let ghost entry = *budget;
    let ghost na: int = all.dom().len() as int;
    let ghost per: int = 6 + 5 * na;
    let ghost regular = all.dom().disjoint(base);
    let ghost ds = schedule_deps(all, base);
    let c = charge_from(budget, cancellation, WorkCounter::GraphNode, Ghost(start));
    proof {
        match c {
            Err(WorkStop::Cancelled) => {},
            Err(WorkStop::BudgetExhausted) => {},
            Ok(()) => {},
        }
    }
    if let Err(e) = c {
        return Err(e);
    }
    let mut ordered: Vec<ChangeHash> = Vec::new();
    proof {
        assert(all.remove_keys(ordered@.to_set()) =~= all);
        use_budget_room(*budget);
        assert(ordered@.to_set() =~= Set::<ChangeHash>::empty());
        if regular {
            assert forall|c: ChangeHash| #[trigger] unresolved@.contains_key(c) && !ordered@.to_set().contains(c)
                implies unresolved@[c] == sched_slack(all, base, c) + open_core(all, base, c).difference(ordered@.to_set()).len() by {
                assert(open_core(all, base, c).difference(ordered@.to_set()) =~= open_core(all, base, c));
            }
            assert forall|c: ChangeHash| #[trigger] crate::graph::order::ready_set(ds, ordered@.to_set()).contains(c)
                <==> ready@.contains(c) by {
                if all.contains_key(c) {
                    lemma_count_zero_ready(all, base, ordered@.to_set(), c, unresolved@[c] as int);
                }
            }
            assert(ready@ =~= crate::graph::order::ready_set(ds, ordered@.to_set()));
        }
    }
    loop
        invariant_except_break
            regular ==> budget.usage().operations() <= entry.usage().operations() + 1 + ordered@.len() * per,
        invariant
            entry == *old(budget),
            budget_grew(start, entry),
            all.dom().finite(),
            na == all.dom().len(),
            per == 6 + 5 * na,
            budget_grew(start, *budget),
            budget.usage().operations() <= budget.operation_limit(),
            remaining.wf(),
            unresolved.wf(),
            unresolved@.dom() == all.dom(),
            sets_wf(*dependants),
            sets_view(*dependants) == candidate_dependants(all),
            ready.wf(),
            ready@.subset_of(all.dom()),
            ordered@.to_set().subset_of(all.dom()),
            remaining@ == all.remove_keys(ordered@.to_set()),
            regular == all.dom().disjoint(base),
            ds == schedule_deps(all, base),
            regular ==> crate::graph::order::greedy_prefix(ds, ordered@),
            regular ==> done_closed(ds, ordered@.to_set()),
            regular ==> ready@ == crate::graph::order::ready_set(ds, ordered@.to_set()),
            regular ==> counts_open(all, base, ordered@.to_set(), unresolved@),
        ensures
            remaining.wf(),
            ordered@.to_set().subset_of(all.dom()),
            remaining@ == all.remove_keys(ordered@.to_set()),
            regular ==> crate::graph::order::greedy_order(ds, ordered@),
            regular ==> budget.usage().operations() <= entry.usage().operations() + 2 + na * per,
        decreases room(*budget),
    {
        proof {
            if regular {
                crate::graph::order::lemma_greedy_distinct(ds, ordered@);
                ordered@.unique_seq_to_set();
                vstd::set_lib::lemma_len_subset(ordered@.to_set(), all.dom());
                assert(ordered@.len() * per <= na * per) by (nonlinear_arith)
                    requires
                        ordered@.len() <= na,
                        per >= 0,
                ;
            }
        }
        let ghost iter_start = *budget;
        let c = charge_from(budget, cancellation, WorkCounter::GraphNode, Ghost(start));
        proof {
            match c {
                Err(WorkStop::Cancelled) => {},
                Err(WorkStop::BudgetExhausted) => {},
                Ok(()) => {},
            }
        }
        if let Err(e) = c {
            return Err(e);
        }
        let ghost mark = *budget;
        let first = ready.first();
        if first.is_none() {
            proof {
                if regular {
                    assert forall|c: ChangeHash| !#[trigger] crate::graph::order::is_ready(ds, ordered@.to_set(), c) by {
                        if crate::graph::order::is_ready(ds, ordered@.to_set(), c) {
                            assert(ready@.contains(c));
                        }
                    }
                }
            }
            break;
        }
        proof {
            if regular {
                let c = first->0;
                assert(ready@.contains(c));
                assert(crate::graph::order::ready_set(ds, ordered@.to_set()).contains(c));
                assert(!ordered@.to_set().contains(c));
                assert(ordered@.to_set().insert(c).subset_of(all.dom()));
                vstd::set_lib::lemma_len_subset(ordered@.to_set().insert(c), all.dom());
                assert((ordered@.len() + 1) * per <= na * per) by (nonlinear_arith)
                    requires
                        ordered@.len() + 1 <= na,
                        per >= 0,
                ;
                assert((ordered@.len() + 1) * per == ordered@.len() * per + per) by (nonlinear_arith);
            }
        }
        let c = charge_from(budget, cancellation, WorkCounter::GraphNode, Ghost(start));
        proof {
            match c {
                Err(WorkStop::Cancelled) => {},
                Err(WorkStop::BudgetExhausted) => {},
                Ok(()) => {},
            }
        }
        if let Err(e) = c {
            return Err(e);
        }
        let c = charge_from(budget, cancellation, WorkCounter::GraphNode, Ghost(start));
        proof {
            match c {
                Err(WorkStop::Cancelled) => {},
                Err(WorkStop::BudgetExhausted) => {},
                Ok(()) => {},
            }
        }
        if let Err(e) = c {
            return Err(e);
        }
        let ghost old_ready = ready@;
        let hash = match ready.pop_first() {
            Some(h) => h,
            None => {
                proof {
                    assert(false);
                }
                break;
            },
        };
        let ghost done = ordered@.to_set();
        proof {
            if regular {
                assert(crate::graph::order::is_least(crate::graph::order::ready_set(ds, done), hash));
            }
        }
        let c = charge_from(budget, cancellation, WorkCounter::GraphNode, Ghost(start));
        proof {
            match c {
                Err(WorkStop::Cancelled) => {},
                Err(WorkStop::BudgetExhausted) => {},
                Ok(()) => {},
            }
        }
        if let Err(e) = c {
            return Err(e);
        }
        remaining.remove(&hash);
        let c = charge_from(budget, cancellation, WorkCounter::GraphNode, Ghost(start));
        proof {
            match c {
                Err(WorkStop::Cancelled) => {},
                Err(WorkStop::BudgetExhausted) => {},
                Ok(()) => {},
            }
        }
        if let Err(e) = c {
            return Err(e);
        }
        let ghost old_ordered = ordered@;
        ordered.push(hash);
        proof {
            lemma_grew_operations(mark, *budget);
            old_ordered.lemma_push_to_set_commute(hash);
            assert(all.remove_keys(ordered@.to_set()) =~= all.remove_keys(old_ordered.to_set()).remove(hash));
            if regular {
                crate::graph::order::lemma_greedy_push(ds, old_ordered, hash);
            }
        }
        let ghost before_release = *budget;
        release_children(
            hash,
            dependants,
            unresolved,
            ready,
            budget,
            cancellation,
            Ghost(start),
            Ghost(all),
            Ghost(base),
            Ghost(done),
        )?;
        proof {
            lemma_grew_operations(mark, before_release);
            lemma_grew_operations(before_release, *budget);
            if regular {
                assert(done.insert(hash) == ordered@.to_set());
                assert(done_closed(ds, ordered@.to_set())) by {
                    assert forall|c: ChangeHash| #[trigger] ordered@.to_set().contains(c) implies ds.contains_key(c)
                        && ds[c].subset_of(ordered@.to_set()) by {
                        crate::graph::order::lemma_greedy_closed(ds, ordered@, c);
                    }
                }
            }
        }
        crate::work_budget::budget_within_limits(budget);
    }
    Ok(ordered)
}

/// The charged work never exceeds the allowance.
proof fn use_budget_room(b: WorkBudget)
    requires
        b.usage().operations() <= b.operation_limit(),
    ensures
        room(b) >= 0,
{
}

} // verus!

verus! {

/// Dependencies of unscheduled candidates that are neither candidates nor accepted.
pub open spec fn missing_of(
    rem: Map<ChangeHash, ChangeCandidate>,
    candidates: Set<ChangeHash>,
    base: Set<ChangeHash>,
) -> Set<ChangeHash> {
    Set::new(
        |d: ChangeHash|
            !candidates.contains(d) && !base.contains(d) && exists|c: ChangeHash| #[trigger]
                rem.contains_key(c) && rem[c].dependencies@.contains(d),
    )
}

/// Unscheduled candidates that name a missing dependency directly.
pub open spec fn directly_blocked(rem: Map<ChangeHash, ChangeCandidate>, missing: Set<ChangeHash>) -> Set<
    ChangeHash,
> {
    Set::new(
        |c: ChangeHash|
            rem.contains_key(c) && exists|d: ChangeHash| #[trigger]
                rem[c].dependencies@.contains(d) && missing.contains(d),
    )
}

/// Every candidate of `rem` that depends on a member of `s` is in `s`.
pub open spec fn closed_under_dependants(rem: Map<ChangeHash, ChangeCandidate>, s: Set<ChangeHash>) -> bool {
    forall|p: ChangeHash| #[trigger] s.contains(p) ==> children_of(rem, p).subset_of(s)
}

/// `s` is the least set that holds `seed` and is closed under the dependants in `rem`.
pub open spec fn least_closure(
    rem: Map<ChangeHash, ChangeCandidate>,
    seed: Set<ChangeHash>,
    s: Set<ChangeHash>,
) -> bool {
    &&& seed.subset_of(s)
    &&& s.subset_of(rem.dom())
    &&& closed_under_dependants(rem, s)
    &&& forall|t: Set<ChangeHash>|
        seed.subset_of(t) && #[trigger] closed_under_dependants(rem, t) ==> s.subset_of(t)
}

/// What a completed schedule reports about the candidate map `all`.
pub open spec fn schedule_spec(s: Schedule, all: Map<ChangeHash, ChangeCandidate>, base: Set<ChangeHash>) -> bool {
    let done = s.ordered@.to_set();
    let rem = all.remove_keys(done);
    &&& s.pending.wf()
    &&& s.missing_dependencies.wf()
    &&& s.cyclic.wf()
    &&& done.subset_of(all.dom())
    &&& s.missing_dependencies@ == missing_of(rem, all.dom(), base)
    &&& least_closure(rem, directly_blocked(rem, s.missing_dependencies@), s.pending@)
    &&& s.cyclic@ == rem.dom().difference(s.pending@)
    &&& all.dom().disjoint(base) ==> crate::graph::order::greedy_order(schedule_deps(all, base), s.ordered@)
}

fn collect_missing(
    rem: &OrdMap<ChangeHash, ChangeCandidate>,
    hashes: &OrdSet<ChangeHash>,
    accepted_base: &OrdSet<ChangeHash>,
    budget: &mut WorkBudget,
    cancellation: &impl CancellationCheck,
    Ghost(start): Ghost<WorkBudget>,
    Ghost(dmax): Ghost<int>,
) -> (r: Result<OrdSet<ChangeHash>, WorkStop>)
    requires
        dmax >= 0,
        deps_bounded(rem@, dmax),
        budget_grew(start, *old(budget)),
        rem.wf(),
        hashes.wf(),
        accepted_base.wf(),
    ensures
        budget_grew(start, *final(budget)),
        r == Err::<OrdSet<ChangeHash>, WorkStop>(WorkStop::BudgetExhausted) ==> operations_exhausted(*final(budget)),
        r == Err::<OrdSet<ChangeHash>, WorkStop>(WorkStop::Cancelled) ==> !cancellation.never_cancels(),
        r matches Ok(missing) ==> missing.wf() && missing@ == missing_of(rem@, hashes@, accepted_base@),
        final(budget).usage().operations() <= old(budget).usage().operations() + 1 + rem@.dom().len() * (1 + 4
            * dmax),
        cancellation.never_cancels() && affords(*old(budget), 1 + rem@.dom().len() * (1 + 4 * dmax)) ==> r is Ok,
{
    let ghost entry = *budget;
    let ghost per: int = 1 + 4 * dmax;
    let c = charge_from(budget, cancellation, WorkCounter::GraphEdge, Ghost(start));
    proof {
        match c {
            Err(WorkStop::Cancelled) => {},
            Err(WorkStop::BudgetExhausted) => {},
            Ok(()) => {},
        }
    }
    if let Err(e) = c {
        return Err(e);
    }
    let mut missing: OrdSet<ChangeHash> = OrdSet::new();
    let n = rem.len();
    for i in 0..n
        invariant
            budget_grew(start, *budget),
            n == rem.key_seq().len(),
            rem.wf(),
            hashes.wf(),
            accepted_base.wf(),
            missing.wf(),
            missing@ == Set::new(
                |d: ChangeHash|
                    !hashes@.contains(d) && !accepted_base@.contains(d) && exists|j: int|
                        0 <= j < i && #[trigger] rem.val_seq()[j].dependencies@.contains(d),
            ),
            entry == *old(budget),
            budget_grew(start, entry),
            per == 1 + 4 * dmax,
            dmax >= 0,
            deps_bounded(rem@, dmax),
            n == rem@.dom().len(),
            budget.usage().operations() <= entry.usage().operations() + 1 + i * per,
    {
        proof {
            rem.lemma_position(i as int);
            assert((i + 1) * per == i * per + per) by (nonlinear_arith);
            assert((i + 1) * per <= n * per) by (nonlinear_arith)
                requires
                    i + 1 <= n,
                    per >= 0,
            ;
        }
        let c = charge_from(budget, cancellation, WorkCounter::GraphNode, Ghost(start));
        proof {
            match c {
                Err(WorkStop::Cancelled) => {},
                Err(WorkStop::BudgetExhausted) => {},
                Ok(()) => {},
            }
        }
        if let Err(e) = c {
            return Err(e);
        }
        let candidate = rem.value_at(i);
        let m = candidate.dependencies.len();
        let ghost before = missing@;
        for k in 0..m
            invariant
                budget_grew(start, *budget),
                0 <= i < n,
                n == rem.key_seq().len(),
                rem.wf(),
                hashes.wf(),
                accepted_base.wf(),
                *candidate == rem.val_seq()[i as int],
                m == candidate.dependencies@.len(),
                missing.wf(),
                missing@ == before.union(Set::new(
                    |d: ChangeHash|
                        !hashes@.contains(d) && !accepted_base@.contains(d)
                            && candidate.dependencies@.take(k as int).contains(d),
                )),
                entry == *old(budget),
                budget_grew(start, entry),
                per == 1 + 4 * dmax,
                m <= dmax,
                n == rem@.dom().len(),
                (i + 1) * per <= n * per,
                (i + 1) * per == i * per + per,
                budget.usage().operations() <= entry.usage().operations() + 2 + i * per + 4 * k,
        {
            let c = charge_from(budget, cancellation, WorkCounter::GraphEdge, Ghost(start));
            proof {
                match c {
                    Err(WorkStop::Cancelled) => {},
                    Err(WorkStop::BudgetExhausted) => {},
                    Ok(()) => {},
                }
            }
            if let Err(e) = c {
                return Err(e);
            }
            let dependency = candidate.dependencies[k];
            let c = charge_from(budget, cancellation, WorkCounter::GraphEdge, Ghost(start));
            proof {
                match c {
                    Err(WorkStop::Cancelled) => {},
                    Err(WorkStop::BudgetExhausted) => {},
                    Ok(()) => {},
                }
            }
            if let Err(e) = c {
                return Err(e);
            }
            let known = hashes.contains(&dependency);
            let c = charge_from(budget, cancellation, WorkCounter::GraphEdge, Ghost(start));
            proof {
                match c {
                    Err(WorkStop::Cancelled) => {},
                    Err(WorkStop::BudgetExhausted) => {},
                    Ok(()) => {},
                }
            }
            if let Err(e) = c {
                return Err(e);
            }
            let accepted = accepted_base.contains(&dependency);
            let ghost old_missing = missing@;
            if !known && !accepted {
                let c = charge_from(budget, cancellation, WorkCounter::GraphEdge, Ghost(start));
                proof {
                    match c {
                        Err(WorkStop::Cancelled) => {},
                        Err(WorkStop::BudgetExhausted) => {},
                        Ok(()) => {},
                    }
                }
                if let Err(e) = c {
                    return Err(e);
                }
                missing.insert(dependency);
            }
            proof {
                assert(candidate.dependencies@.take(k + 1) =~= candidate.dependencies@.take(k as int).push(dependency));
                let target = before.union(Set::new(
                    |d: ChangeHash|
                        !hashes@.contains(d) && !accepted_base@.contains(d)
                            && candidate.dependencies@.take(k + 1).contains(d),
                ));
                assert forall|d: ChangeHash| #[trigger] missing@.contains(d) <==> target.contains(d) by {
                    let short = candidate.dependencies@.take(k as int);
                    let long = candidate.dependencies@.take(k + 1);
                    if long.contains(d) {
                        let idx = choose|idx: int| 0 <= idx < long.len() && long[idx] == d;
                        if idx < k {
                            assert(short[idx] == d);
                        }
                    }
                    if short.contains(d) {
                        let idx = choose|idx: int| 0 <= idx < short.len() && short[idx] == d;
                        assert(long[idx] == d);
                    }
                    if d == dependency {
                        assert(long[k as int] == d);
                    }
                }
                assert(missing@ =~= target);
            }
        }
        proof {
            assert(missing@ =~= Set::new(
                |d: ChangeHash|
                    !hashes@.contains(d) && !accepted_base@.contains(d) && exists|j: int|
                        0 <= j < i + 1 && #[trigger] rem.val_seq()[j].dependencies@.contains(d),
            )) by {
                assert forall|d: ChangeHash| (exists|j: int| 0 <= j < i + 1 && #[trigger] rem.val_seq()[j].dependencies@.contains(d))
                    <==> ((exists|j: int| 0 <= j < i && #[trigger] rem.val_seq()[j].dependencies@.contains(d))
                        || candidate.dependencies@.take(m as int).contains(d)) by {
                    assert(candidate.dependencies@.take(m as int) =~= candidate.dependencies@);
                    if exists|j: int| 0 <= j < i + 1 && #[trigger] rem.val_seq()[j].dependencies@.contains(d) {
                        let j = choose|j: int| 0 <= j < i + 1 && #[trigger] rem.val_seq()[j].dependencies@.contains(d);
                        if j == i {
                            assert(candidate.dependencies@.contains(d));
                        }
                    }
                }
            }
        }
    }
    proof {
        assert(missing@ =~= missing_of(rem@, hashes@, accepted_base@)) by {
            assert forall|d: ChangeHash| #[trigger] missing@.contains(d) <==> missing_of(rem@, hashes@, accepted_base@).contains(d) by {
                if exists|j: int| 0 <= j < n && #[trigger] rem.val_seq()[j].dependencies@.contains(d) {
                    let j = choose|j: int| 0 <= j < n && #[trigger] rem.val_seq()[j].dependencies@.contains(d);
                    rem.lemma_position(j);
                    assert(rem@.contains_key(rem.key_seq()[j]));
                }
                if exists|c: ChangeHash| #[trigger] rem@.contains_key(c) && rem@[c].dependencies@.contains(d) {
                    let c = choose|c: ChangeHash| #[trigger] rem@.contains_key(c) && rem@[c].dependencies@.contains(d);
                    assert(rem.key_seq().contains(c));
                    let j = choose|j: int| 0 <= j < n && rem.key_seq()[j] == c;
                    rem.lemma_position(j);
                    assert(rem.val_seq()[j].dependencies@.contains(d));
                }
            }
        }
    }
    Ok(missing)
}

fn seed_pending(
    rem: &OrdMap<ChangeHash, ChangeCandidate>,
    missing: &OrdSet<ChangeHash>,
    budget: &mut WorkBudget,
    cancellation: &impl CancellationCheck,
    Ghost(start): Ghost<WorkBudget>,
    Ghost(dmax): Ghost<int>,
) -> (r: Result<OrdSet<ChangeHash>, WorkStop>)
    requires
        dmax >= 0,
        deps_bounded(rem@, dmax),
        budget_grew(start, *old(budget)),
        rem.wf(),
        missing.wf(),
    ensures
        budget_grew(start, *final(budget)),
        r == Err::<OrdSet<ChangeHash>, WorkStop>(WorkStop::BudgetExhausted) ==> operations_exhausted(*final(budget)),
        r == Err::<OrdSet<ChangeHash>, WorkStop>(WorkStop::Cancelled) ==> !cancellation.never_cancels(),
        r matches Ok(pending) ==> pending.wf() && pending@ == directly_blocked(rem@, missing@),
        final(budget).usage().operations() <= old(budget).usage().operations() + 1 + rem@.dom().len() * (2 + 2
            * dmax),
        cancellation.never_cancels() && affords(*old(budget), 1 + rem@.dom().len() * (2 + 2 * dmax)) ==> r is Ok,
{
    let ghost entry = *budget;
    let ghost per: int = 2 + 2 * dmax;
    let c = charge_from(budget, cancellation, WorkCounter::GraphNode, Ghost(start));
    proof {
        match c {
            Err(WorkStop::Cancelled) => {},
            Err(WorkStop::BudgetExhausted) => {},
            Ok(()) => {},
        }
    }
    if let Err(e) = c {
        return Err(e);
    }
    let mut pending: OrdSet<ChangeHash> = OrdSet::new();
    let n = rem.len();
    for i in 0..n
        invariant
            budget_grew(start, *budget),
            n == rem.key_seq().len(),
            rem.wf(),
            missing.wf(),
            pending.wf(),
            pending@ == Set::new(
                |c: ChangeHash|
                    exists|j: int|
                        0 <= j < i && rem.key_seq()[j] == c && exists|d: ChangeHash| #[trigger]
                            rem.val_seq()[j].dependencies@.contains(d) && missing@.contains(d),
            ),
            entry == *old(budget),
            budget_grew(start, entry),
            per == 2 + 2 * dmax,
            dmax >= 0,
            deps_bounded(rem@, dmax),
            n == rem@.dom().len(),
            budget.usage().operations() <= entry.usage().operations() + 1 + i * per,
    {
        proof {
            rem.lemma_position(i as int);
            assert((i + 1) * per == i * per + per) by (nonlinear_arith);
            assert((i + 1) * per <= n * per) by (nonlinear_arith)
                requires
                    i + 1 <= n,
                    per >= 0,
            ;
        }
        let c = charge_from(budget, cancellation, WorkCounter::GraphNode, Ghost(start));
        proof {
            match c {
                Err(WorkStop::Cancelled) => {},
                Err(WorkStop::BudgetExhausted) => {},
                Ok(()) => {},
            }
        }
        if let Err(e) = c {
            return Err(e);
        }
        let hash = rem.key_at(i);
        let candidate = rem.value_at(i);
        let m = candidate.dependencies.len();
        let mut is_pending = false;
        let mut k: usize = 0;
        while k < m
            invariant_except_break
                !is_pending,
                budget.usage().operations() <= entry.usage().operations() + 2 + i * per + 2 * k,
                forall|mm: int| 0 <= mm < k ==> !missing@.contains(#[trigger] candidate.dependencies@[mm]),
            invariant
                budget_grew(start, *budget),
                0 <= i < n,
                n == rem.key_seq().len(),
                rem.wf(),
                missing.wf(),
                *candidate == rem.val_seq()[i as int],
                m == candidate.dependencies@.len(),
                0 <= k <= m,
                entry == *old(budget),
                budget_grew(start, entry),
                per == 2 + 2 * dmax,
                m <= dmax,
                n == rem@.dom().len(),
                (i + 1) * per <= n * per,
                (i + 1) * per == i * per + per,
            ensures
                budget.usage().operations() <= entry.usage().operations() + 2 + i * per + 2 * m,
                is_pending ==> k < m && missing@.contains(candidate.dependencies@[k as int]),
                !is_pending ==> forall|mm: int| 0 <= mm < m ==> !missing@.contains(#[trigger] candidate.dependencies@[mm]),
            decreases m - k,
        {
            let c = charge_from(budget, cancellation, WorkCounter::GraphEdge, Ghost(start));
            proof {
                match c {
                    Err(WorkStop::Cancelled) => {},
                    Err(WorkStop::BudgetExhausted) => {},
                    Ok(()) => {},
                }
            }
            if let Err(e) = c {
                return Err(e);
            }
            let dependency = candidate.dependencies[k];
            let c = charge_from(budget, cancellation, WorkCounter::GraphEdge, Ghost(start));
            proof {
                match c {
                    Err(WorkStop::Cancelled) => {},
                    Err(WorkStop::BudgetExhausted) => {},
                    Ok(()) => {},
                }
            }
            if let Err(e) = c {
                return Err(e);
            }
            if missing.contains(&dependency) {
                is_pending = true;
                proof {
                    assert(candidate.dependencies@[k as int] == dependency);
                }
                break;
            }
            k = k + 1;
        }
        let ghost old_pending = pending@;
        if is_pending {
            let c = charge_from(budget, cancellation, WorkCounter::GraphNode, Ghost(start));
            proof {
                match c {
                    Err(WorkStop::Cancelled) => {},
                    Err(WorkStop::BudgetExhausted) => {},
                    Ok(()) => {},
                }
            }
            if let Err(e) = c {
                return Err(e);
            }
            pending.insert(hash);
        }
        proof {
            let target = Set::new(
                |c: ChangeHash|
                    exists|j: int|
                        0 <= j < i + 1 && rem.key_seq()[j] == c && exists|d: ChangeHash| #[trigger]
                            rem.val_seq()[j].dependencies@.contains(d) && missing@.contains(d),
            );
            lemma_sorted_keys_unique(*rem);
            if is_pending {
                assert(rem.val_seq()[i as int].dependencies@.contains(candidate.dependencies@[k as int]));
            } else {
                assert forall|d: ChangeHash| #[trigger] rem.val_seq()[i as int].dependencies@.contains(d) implies !missing@.contains(d) by {
                    let mm = choose|mm: int| 0 <= mm < m && candidate.dependencies@[mm] == d;
                    assert(!missing@.contains(candidate.dependencies@[mm]));
                }
            }
            assert(pending@ =~= target) by {
                assert forall|c: ChangeHash| target.contains(c) implies pending@.contains(c) by {
                    let j = choose|j: int|
                        0 <= j < i + 1 && rem.key_seq()[j] == c && exists|d: ChangeHash| #[trigger]
                            rem.val_seq()[j].dependencies@.contains(d) && missing@.contains(d);
                    if j < i {
                        assert(old_pending.contains(c));
                    }
                }
                assert forall|c: ChangeHash| pending@.contains(c) implies target.contains(c) by {
                    if c != hash || !is_pending {
                        assert(old_pending.contains(c));
                        let j = choose|j: int|
                            0 <= j < i && rem.key_seq()[j] == c && exists|d: ChangeHash| #[trigger]
                                rem.val_seq()[j].dependencies@.contains(d) && missing@.contains(d);
                    }
                }
            }
        }
    }
    proof {
        assert(pending@ =~= directly_blocked(rem@, missing@)) by {
            assert forall|c: ChangeHash| pending@.contains(c) implies directly_blocked(rem@, missing@).contains(c) by {
                let j = choose|j: int|
                    0 <= j < n && rem.key_seq()[j] == c && exists|d: ChangeHash| #[trigger]
                        rem.val_seq()[j].dependencies@.contains(d) && missing@.contains(d);
                rem.lemma_position(j);
                let d = choose|d: ChangeHash| #[trigger] rem.val_seq()[j].dependencies@.contains(d) && missing@.contains(d);
                assert(rem@[c].dependencies@.contains(d));
            }
            assert forall|c: ChangeHash| directly_blocked(rem@, missing@).contains(c) implies pending@.contains(c) by {
                assert(rem.key_seq().contains(c));
                let j = choose|j: int| 0 <= j < n && rem.key_seq()[j] == c;
                rem.lemma_position(j);
                let d = choose|d: ChangeHash| #[trigger] rem@[c].dependencies@.contains(d) && missing@.contains(d);
                assert(rem.val_seq()[j].dependencies@.contains(d));
            }
        }
    }
    Ok(pending)
}

/// Keys of a well-formed map are distinct.
proof fn lemma_sorted_keys_unique<V>(m: OrdMap<ChangeHash, V>)
    requires
        m.wf(),
    ensures
        m.key_seq().no_duplicates(),
{
    crate::ordered::lemma_sorted_no_duplicates(m.key_seq());
}

} // verus!

verus! {

fn propagate_pending(
    rem: &OrdMap<ChangeHash, ChangeCandidate>,
    dependants: &OrdMap<ChangeHash, OrdSet<ChangeHash>>,
    pending: &mut OrdSet<ChangeHash>,
    budget: &mut WorkBudget,
    cancellation: &impl CancellationCheck,
    Ghost(start): Ghost<WorkBudget>,
    Ghost(all): Ghost<Map<ChangeHash, ChangeCandidate>>,
) -> (r: Result<(), WorkStop>)
    requires
        budget_grew(start, *old(budget)),
        rem.wf(),
        sub_entries(rem@, all),
        sets_wf(*dependants),
        sets_view(*dependants) == candidate_dependants(all),
        old(pending).wf(),
        old(pending)@.subset_of(rem@.dom()),
        all.dom().finite(),
    ensures
        budget_grew(start, *final(budget)),
        r == Err::<(), WorkStop>(WorkStop::BudgetExhausted) ==> operations_exhausted(*final(budget)),
        r == Err::<(), WorkStop>(WorkStop::Cancelled) ==> !cancellation.never_cancels(),
        r is Ok ==> final(pending).wf() && least_closure(rem@, old(pending)@, final(pending)@),
        final(budget).usage().operations() <= old(budget).usage().operations() + 2 + 2 * rem@.dom().len()
            + rem@.dom().len() * (2 + 5 * all.dom().len()),
        cancellation.never_cancels() && affords(
            *old(budget),
            (2 + 2 * rem@.dom().len() + rem@.dom().len() * (2 + 5 * all.dom().len())) as int,
        ) ==> r is Ok,
{
    let ghost seed = pending@;
    let ghost entry = *budget;
    let ghost nr: int = rem@.dom().len() as int;
    let ghost per: int = (2 + 5 * all.dom().len()) as int;
    let ghost mut pops: int = 0;
    proof {
        rem.lemma_len();
        vstd::set_lib::lemma_len_subset(pending@, rem@.dom());
    }
    let c = charge_from(budget, cancellation, WorkCounter::GraphNode, Ghost(start));
    proof {
        match c {
            Err(WorkStop::Cancelled) => {},
            Err(WorkStop::BudgetExhausted) => {},
            Ok(()) => {},
        }
    }
    if let Err(e) = c {
        return Err(e);
    }
    let mut blocked: Vec<ChangeHash> = Vec::new();
    let n = pending.len();
    for i in 0..n
        invariant
            budget_grew(start, *budget),
            pending.wf(),
            pending@ == seed,
            n == pending.seq().len(),
            blocked@ == pending.seq().take(i as int),
            budget.usage().operations() <= budget.operation_limit(),
            entry == *old(budget),
            budget_grew(start, entry),
            n <= nr,
            n == pending@.len(),
            nr == rem@.dom().len(),
            per == 2 + 5 * all.dom().len(),
            budget.usage().operations() <= entry.usage().operations() + 1 + 2 * i,
    {
        let c = charge_from(budget, cancellation, WorkCounter::GraphNode, Ghost(start));
        proof {
            match c {
                Err(WorkStop::Cancelled) => {},
                Err(WorkStop::BudgetExhausted) => {},
                Ok(()) => {},
            }
        }
        if let Err(e) = c {
            return Err(e);
        }
        let hash = pending.get(i);
        let c = charge_from(budget, cancellation, WorkCounter::GraphNode, Ghost(start));
        proof {
            match c {
                Err(WorkStop::Cancelled) => {},
                Err(WorkStop::BudgetExhausted) => {},
                Ok(()) => {},
            }
        }
        if let Err(e) = c {
            return Err(e);
        }
        blocked.push(hash);
        proof {
            assert(pending.seq().take(i + 1) =~= pending.seq().take(i as int).push(hash));
        }
    }
    proof {
        assert(pending.seq().take(n as int) =~= pending.seq());
        use_budget_room(*budget);
        assert forall|t: Set<ChangeHash>|
            seed.subset_of(t) && #[trigger] closed_under_dependants(rem@, t) implies pending@.subset_of(t) by {}
    }
    loop
        invariant_except_break
            budget.usage().operations() <= entry.usage().operations() + 1 + 2 * n + pops * per,
        invariant
            entry == *old(budget),
            budget_grew(start, entry),
            n <= nr,
            nr == rem@.dom().len(),
            rem@.dom().finite(),
            all.dom().finite(),
            per == 2 + 5 * all.dom().len(),
            0 <= pops,
            pops + blocked@.len() == pending@.len(),
            budget_grew(start, *budget),
            budget.usage().operations() <= budget.operation_limit(),
            rem.wf(),
            sub_entries(rem@, all),
            sets_wf(*dependants),
            sets_view(*dependants) == candidate_dependants(all),
            pending.wf(),
            seed.subset_of(pending@),
            pending@.subset_of(rem@.dom()),
            forall|j: int| 0 <= j < blocked@.len() ==> pending@.contains(#[trigger] blocked@[j]),
            forall|p: ChangeHash| #[trigger] pending@.contains(p) && !blocked@.contains(p)
                ==> children_of(rem@, p).subset_of(pending@),
            forall|t: Set<ChangeHash>|
                seed.subset_of(t) && #[trigger] closed_under_dependants(rem@, t) ==> pending@.subset_of(t),
        ensures
            closed_under_dependants(rem@, pending@),
            budget.usage().operations() <= entry.usage().operations() + 2 + 2 * n + nr * per,
        decreases room(*budget),
    {
        proof {
            vstd::set_lib::lemma_len_subset(pending@, rem@.dom());
            assert(pops * per <= nr * per) by (nonlinear_arith)
                requires
                    pops <= nr,
                    per >= 0,
            ;
        }
        let ghost iter_start = *budget;
        let c = charge_from(budget, cancellation, WorkCounter::GraphNode, Ghost(start));
        proof {
            match c {
                Err(WorkStop::Cancelled) => {},
                Err(WorkStop::BudgetExhausted) => {},
                Ok(()) => {},
            }
        }
        if let Err(e) = c {
            return Err(e);
        }
        let ghost mark = *budget;
        let ghost before_pop = blocked@;
        let hash = match blocked.pop() {
            Some(h) => h,
            None => {
                proof {
                    assert(blocked@.len() == 0);
                    assert forall|p: ChangeHash| #[trigger] pending@.contains(p) implies children_of(rem@, p).subset_of(pending@) by {
                        assert(!blocked@.contains(p));
                    }
                }
                break;
            },
        };
        proof {
            pops = pops + 1;
            assert(pops * per <= nr * per) by (nonlinear_arith)
                requires
                    pops <= nr,
                    per >= 0,
            ;
            assert(pops * per == (pops - 1) * per + per) by (nonlinear_arith);
            assert(pending@.contains(before_pop[before_pop.len() - 1]));
            assert forall|j: int| 0 <= j < blocked@.len() implies pending@.contains(#[trigger] blocked@[j]) by {
                assert(blocked@[j] == before_pop[j]);
            }
            assert forall|p: ChangeHash| #[trigger] pending@.contains(p) && !blocked@.contains(p) && p != hash
                implies children_of(rem@, p).subset_of(pending@) by {
                if before_pop.contains(p) {
                    let j = choose|j: int| 0 <= j < before_pop.len() && before_pop[j] == p;
                    if j < blocked@.len() {
                        assert(blocked@[j] == p);
                    }
                }
            }
        }
        let c = charge_from(budget, cancellation, WorkCounter::GraphEdge, Ghost(start));
        proof {
            match c {
                Err(WorkStop::Cancelled) => {},
                Err(WorkStop::BudgetExhausted) => {},
                Ok(()) => {},
            }
        }
        if let Err(e) = c {
            return Err(e);
        }
        match dependants.get(&hash) {
            None => {
                proof {
                    assert forall|c: ChangeHash| children_of(rem@, hash).contains(c) implies pending@.contains(c) by {
                        lemma_submap_entry(rem@, all, c);
                        assert(children_of(all, hash).contains(c));
                        assert(candidate_dependants(all).contains_key(hash));
                    }
                }
            },
            Some(children) => {
                proof {
                    assert(children.wf());
                    assert(sets_view(*dependants)[hash] == children@);
                    assert(children@ == children_of(all, hash));
                }
                let child_count = children.len();
                proof {
                    assert(children@.subset_of(all.dom()));
                    vstd::set_lib::lemma_len_subset(children@, all.dom());
                }
                for k in 0..child_count
                    invariant
                        entry == *old(budget),
                        budget_grew(start, entry),
                        child_count <= all.dom().len(),
                        per == 2 + 5 * all.dom().len(),
                        n <= nr,
                        nr == rem@.dom().len(),
                        0 < pops,
                        pops * per <= nr * per,
                        pops * per == (pops - 1) * per + per,
                        pops + blocked@.len() == pending@.len(),
                        budget.usage().operations() <= entry.usage().operations() + 1 + 2 * n + (pops - 1) * per + 2
                            + 5 * k,
                        budget_grew(start, *budget),
                        budget.usage().operations() <= budget.operation_limit(),
                        budget_grew(mark, *budget),
                        room(*budget) < room(iter_start),
                        rem.wf(),
                        sub_entries(rem@, all),
                        children.wf(),
                        child_count == children.seq().len(),
                        children@ == children_of(all, hash),
                        pending.wf(),
                        pending@.contains(hash),
                        seed.subset_of(pending@),
                        pending@.subset_of(rem@.dom()),
                        forall|j: int| 0 <= j < blocked@.len() ==> pending@.contains(#[trigger] blocked@[j]),
                        forall|p: ChangeHash| #[trigger] pending@.contains(p) && !blocked@.contains(p) && p != hash
                            ==> children_of(rem@, p).subset_of(pending@),
                        forall|j: int| 0 <= j < k && rem@.contains_key(#[trigger] children.seq()[j])
                            ==> pending@.contains(children.seq()[j]),
                        forall|t: Set<ChangeHash>|
                            seed.subset_of(t) && #[trigger] closed_under_dependants(rem@, t) ==> pending@.subset_of(t),
                {
                    let c = charge_from(budget, cancellation, WorkCounter::GraphEdge, Ghost(start));
                    proof {
                        match c {
                            Err(WorkStop::Cancelled) => {},
                            Err(WorkStop::BudgetExhausted) => {},
                            Ok(()) => {},
                        }
                    }
                    if let Err(e) = c {
                        return Err(e);
                    }
                    let child = children.get(k);
                    let c = charge_from(budget, cancellation, WorkCounter::GraphNode, Ghost(start));
                    proof {
                        match c {
                            Err(WorkStop::Cancelled) => {},
                            Err(WorkStop::BudgetExhausted) => {},
                            Ok(()) => {},
                        }
                    }
                    if let Err(e) = c {
                        return Err(e);
                    }
                    let remains = rem.contains_key(&child);
                    let c = charge_from(budget, cancellation, WorkCounter::GraphNode, Ghost(start));
                    proof {
                        match c {
                            Err(WorkStop::Cancelled) => {},
                            Err(WorkStop::BudgetExhausted) => {},
                            Ok(()) => {},
                        }
                    }
                    if let Err(e) = c {
                        return Err(e);
                    }
                    let already = pending.contains(&child);
                    if remains && !already {
                        proof {
                            assert(children.seq().contains(child));
                            assert(children_of(all, hash).contains(child));
                            lemma_submap_entry(rem@, all, child);
                            assert(children_of(rem@, hash).contains(child));
                        }
                        let ghost old_pending = pending@;
                        let c = charge_from(budget, cancellation, WorkCounter::GraphNode, Ghost(start));
                        proof {
                            match c {
                                Err(WorkStop::Cancelled) => {},
                                Err(WorkStop::BudgetExhausted) => {},
                                Ok(()) => {},
                            }
                        }
                        if let Err(e) = c {
                            return Err(e);
                        }
                        pending.insert(child);
                        let c = charge_from(budget, cancellation, WorkCounter::GraphNode, Ghost(start));
                        proof {
                            match c {
                                Err(WorkStop::Cancelled) => {},
                                Err(WorkStop::BudgetExhausted) => {},
                                Ok(()) => {},
                            }
                        }
                        if let Err(e) = c {
                            return Err(e);
                        }
                        let ghost old_blocked = blocked@;
                        blocked.push(child);
                        proof {
                            assert(blocked@[blocked@.len() - 1] == child);
                            assert forall|j: int| 0 <= j < blocked@.len() implies pending@.contains(#[trigger] blocked@[j]) by {
                                if j < old_blocked.len() {
                                    assert(blocked@[j] == old_blocked[j]);
                                }
                            }
                            assert forall|p: ChangeHash| #[trigger] pending@.contains(p) && !blocked@.contains(p) && p != hash
                                implies children_of(rem@, p).subset_of(pending@) by {
                                assert(p != child);
                                if old_blocked.contains(p) {
                                    let j = choose|j: int| 0 <= j < old_blocked.len() && old_blocked[j] == p;
                                    assert(blocked@[j] == p);
                                }
                                assert(old_pending.contains(p));
                            }
                            assert forall|t: Set<ChangeHash>|
                                seed.subset_of(t) && #[trigger] closed_under_dependants(rem@, t) implies pending@.subset_of(t) by {
                                assert(old_pending.subset_of(t));
                                assert(t.contains(hash));
                                assert(children_of(rem@, hash).subset_of(t));
                            }
                        }
                    }
                }
                proof {
                    assert forall|c: ChangeHash| children_of(rem@, hash).contains(c) implies pending@.contains(c) by {
                        lemma_submap_entry(rem@, all, c);
                        assert(children_of(all, hash).contains(c));
                        assert(children@.contains(c));
                        let j = choose|j: int| 0 <= j < children.seq().len() && children.seq()[j] == c;
                        assert(rem@.contains_key(children.seq()[j]));
                    }
                }
            },
        }
        proof {
            lemma_grew_operations(mark, *budget);
            assert forall|p: ChangeHash| #[trigger] pending@.contains(p) && !blocked@.contains(p)
                implies children_of(rem@, p).subset_of(pending@) by {
                if p == hash {
                    assert(children_of(rem@, hash).subset_of(pending@));
                }
            }
        }
    }
    Ok(())
}

/// An entry of a submap is an entry of the larger map.
proof fn lemma_submap_entry(
    small: Map<ChangeHash, ChangeCandidate>,
    big: Map<ChangeHash, ChangeCandidate>,
    c: ChangeHash,
)
    requires
        sub_entries(small, big),
        small.contains_key(c),
    ensures
        big.contains_key(c),
        big[c] == small[c],
{
}

/// Every entry of `small` is an entry of `big`.
pub open spec fn sub_entries(small: Map<ChangeHash, ChangeCandidate>, big: Map<ChangeHash, ChangeCandidate>) -> bool {
    forall|c: ChangeHash| #[trigger] small.contains_key(c) ==> big.contains_key(c) && big[c] == small[c]
}

fn collect_cyclic(
    rem: &OrdMap<ChangeHash, ChangeCandidate>,
    pending: &OrdSet<ChangeHash>,
    budget: &mut WorkBudget,
    cancellation: &impl CancellationCheck,
    Ghost(start): Ghost<WorkBudget>,
) -> (r: Result<OrdSet<ChangeHash>, WorkStop>)
    requires
        budget_grew(start, *old(budget)),
        rem.wf(),
        pending.wf(),
    ensures
        budget_grew(start, *final(budget)),
        r == Err::<OrdSet<ChangeHash>, WorkStop>(WorkStop::BudgetExhausted) ==> operations_exhausted(*final(budget)),
        r == Err::<OrdSet<ChangeHash>, WorkStop>(WorkStop::Cancelled) ==> !cancellation.never_cancels(),
        r matches Ok(cyclic) ==> cyclic.wf() && cyclic@ == rem@.dom().difference(pending@),
        final(budget).usage().operations() <= old(budget).usage().operations() + 1 + 3 * rem@.dom().len(),
        cancellation.never_cancels() && affords(*old(budget), (1 + 3 * rem@.dom().len()) as int) ==> r is Ok,
{
    let ghost entry = *budget;
    let c = charge_from(budget, cancellation, WorkCounter::GraphNode, Ghost(start));
    proof {
        match c {
            Err(WorkStop::Cancelled) => {},
            Err(WorkStop::BudgetExhausted) => {},
            Ok(()) => {},
        }
    }
    if let Err(e) = c {
        return Err(e);
    }
    let mut cyclic: OrdSet<ChangeHash> = OrdSet::new();
    let n = rem.len();
    for i in 0..n
        invariant
            budget_grew(start, *budget),
            n == rem.key_seq().len(),
            rem.wf(),
            pending.wf(),
            cyclic.wf(),
            cyclic@ == rem.key_seq().take(i as int).to_set().difference(pending@),
            entry == *old(budget),
            budget_grew(start, entry),
            n == rem@.dom().len(),
            budget.usage().operations() <= entry.usage().operations() + 1 + 3 * i,
    {
        let c = charge_from(budget, cancellation, WorkCounter::GraphNode, Ghost(start));
        proof {
            match c {
                Err(WorkStop::Cancelled) => {},
                Err(WorkStop::BudgetExhausted) => {},
                Ok(()) => {},
            }
        }
        if let Err(e) = c {
            return Err(e);
        }
        let hash = rem.key_at(i);
        let c = charge_from(budget, cancellation, WorkCounter::GraphNode, Ghost(start));
        proof {
            match c {
                Err(WorkStop::Cancelled) => {},
                Err(WorkStop::BudgetExhausted) => {},
                Ok(()) => {},
            }
        }
        if let Err(e) = c {
            return Err(e);
        }
        let is_pending = pending.contains(&hash);
        if !is_pending {
            let c = charge_from(budget, cancellation, WorkCounter::GraphNode, Ghost(start));
            proof {
                match c {
                    Err(WorkStop::Cancelled) => {},
                    Err(WorkStop::BudgetExhausted) => {},
                    Ok(()) => {},
                }
            }
            if let Err(e) = c {
                return Err(e);
            }
            cyclic.insert(hash);
        }
        proof {
            assert(rem.key_seq().take(i + 1) =~= rem.key_seq().take(i as int).push(hash));
            rem.key_seq().take(i as int).lemma_push_to_set_commute(hash);
            assert(cyclic@ =~= rem.key_seq().take(i + 1).to_set().difference(pending@));
        }
    }
    proof {
        assert(rem.key_seq().take(n as int) =~= rem.key_seq());
        rem.lemma_len();
    }
    Ok(cyclic)
}

} // verus!

verus! {

/// The units scheduling `n` candidates with `a` distinct hashes, none naming
/// more than `d` dependencies, charges at most when none is in the accepted
/// base: gathering, indexing, the ready set, ordering, the missing
/// dependencies, the pending seed and its closure, the cycles, and the result.
pub open spec fn schedule_cost(n: int, a: int, d: int) -> int {
    (4 + 2 * n + 2 * a) + (2 + a * (2 + 8 * d)) + (1 + 3 * a) + (2 + a * (6 + 5 * a)) + (1 + a * (1 + 4 * d)) + (1
        + a * (2 + 2 * d)) + (2 + 2 * a + a * (2 + 5 * a)) + (1 + 3 * a) + 1
}

/// Orders `candidates` for application on top of `accepted_base`.
///
/// When a hash occurs more than once, the last candidate with that hash is
/// the one scheduled. Ready candidates are emitted smallest hash first;
/// candidates that can never become ready are split into those blocked by a
/// missing dependency (`pending`) and those caught in cycles (`cyclic`).
/// Every step is charged to `budget` before it is taken, and the cancellation
/// signal is consulted before each charge.
pub fn schedule_candidates(
    candidates: Vec<ChangeCandidate>,
    accepted_base: &OrdSet<ChangeHash>,
    budget: &mut WorkBudget,
    cancellation: &impl CancellationCheck,
) -> (r: Result<Schedule, ScheduleError>)
    requires
        accepted_base.wf(),
    ensures
        budget_grew(*old(budget), *final(budget)),
        r == Err::<Schedule, ScheduleError>(WorkStop::BudgetExhausted) ==> operations_exhausted(*final(budget)),
        r == Err::<Schedule, ScheduleError>(WorkStop::Cancelled) ==> !cancellation.never_cancels(),
        cancellation.never_cancels() && operations_exhausted(*old(budget)) ==> r == Err::<Schedule, ScheduleError>(
            WorkStop::BudgetExhausted,
        ),
        cancellation.always_cancels() ==> r == Err::<Schedule, ScheduleError>(WorkStop::Cancelled),
        r matches Ok(s) ==> schedule_spec(s, latest_map(candidates@), accepted_base@),
        latest_map(candidates@).dom().disjoint(accepted_base@) ==> final(budget).usage().operations() <= old(
            budget,
        ).usage().operations() + schedule_cost(
            candidates@.len() as int,
            latest_map(candidates@).dom().len() as int,
            max_deps(candidates@) as int,
        ),
        latest_map(candidates@).dom().disjoint(accepted_base@) && cancellation.never_cancels() && affords(
            *old(budget),
            schedule_cost(
                candidates@.len() as int,
                latest_map(candidates@).dom().len() as int,
                max_deps(candidates@) as int,
            ),
        ) ==> r is Ok,
{
    let ghost start = *budget;
    let ghost cs = candidates@;
    let ghost dmax = max_deps(cs) as int;
    let ghost nn = cs.len() as int;
    let ghost a = latest_map(cs).dom().len() as int;
    proof {
        lemma_latest_map_bounds(cs);
    }
    let (mut remaining, hashes) = collect_candidates(candidates, budget, cancellation, Ghost(start))?;
    let ghost all = remaining@;
    let ghost b1 = *budget;
    let (mut unresolved, dependants) = index_dependencies(
        &remaining,
        &hashes,
        accepted_base,
        budget,
        cancellation,
        Ghost(start),
        Ghost(dmax),
    )?;
    let ghost b2 = *budget;
    let mut ready = initial_ready(&unresolved, budget, cancellation, Ghost(start))?;
    let ghost b3 = *budget;
    let ordered = order_ready(
        &mut remaining,
        &mut unresolved,
        &dependants,
        &mut ready,
        budget,
        cancellation,
        Ghost(start),
        Ghost(all),
        Ghost(accepted_base@),
    )?;
    let ghost b4 = *budget;
    let ghost rn = remaining@.dom().len() as int;
    proof {
        assert(remaining@.dom().subset_of(all.dom()));
        vstd::set_lib::lemma_len_subset(remaining@.dom(), all.dom());
        assert(rn * (1 + 4 * dmax) <= a * (1 + 4 * dmax)) by (nonlinear_arith)
            requires
                rn <= a,
                dmax >= 0,
        ;
        assert(rn * (2 + 2 * dmax) <= a * (2 + 2 * dmax)) by (nonlinear_arith)
            requires
                rn <= a,
                dmax >= 0,
        ;
        assert(rn * (2 + 5 * a) <= a * (2 + 5 * a)) by (nonlinear_arith)
            requires
                rn <= a,
                a >= 0,
        ;
    }
    let missing = collect_missing(&remaining, &hashes, accepted_base, budget, cancellation, Ghost(start), Ghost(dmax))?;
    let ghost b5 = *budget;
    let mut pending = seed_pending(&remaining, &missing, budget, cancellation, Ghost(start), Ghost(dmax))?;
    let ghost b6 = *budget;
    proof {
        assert forall|c: ChangeHash| #[trigger] remaining@.contains_key(c) implies all.contains_key(c)
            && all[c] == remaining@[c] by {}
    }
    propagate_pending(&remaining, &dependants, &mut pending, budget, cancellation, Ghost(start), Ghost(all))?;
    let ghost b7 = *budget;
    let cyclic = collect_cyclic(&remaining, &pending, budget, cancellation, Ghost(start))?;
    let c = charge_from(budget, cancellation, WorkCounter::GraphNode, Ghost(start));
    proof {
        match c {
            Err(WorkStop::Cancelled) => {},
            Err(WorkStop::BudgetExhausted) => {},
            Ok(()) => {},
        }
    }
    if let Err(e) = c {
        return Err(e);
    }
    Ok(Schedule { ordered, pending, missing_dependencies: missing, cyclic })
}

} // verus!

verus! {

/// The distinct dependencies of candidate `c` outside the accepted base.
pub open spec fn open_core(all: Map<ChangeHash, ChangeCandidate>, base: Set<ChangeHash>, c: ChangeHash) -> Set<
    ChangeHash,
> {
    all[c].dependencies@.to_set().intersect(base.complement())
}

/// How many more dependency entries outside the base `c` names than it has
/// distinct ones.
pub open spec fn sched_slack(all: Map<ChangeHash, ChangeCandidate>, base: Set<ChangeHash>, c: ChangeHash) -> int {
    count_in(all[c].dependencies@, base.complement()) - open_core(all, base, c).len()
}

/// What each candidate waits for before it can be scheduled: its
/// dependencies outside the base, and itself when it names one of them more
/// than once, which keeps it from ever becoming ready.
pub open spec fn schedule_deps(all: Map<ChangeHash, ChangeCandidate>, base: Set<ChangeHash>) -> Map<
    ChangeHash,
    Set<ChangeHash>,
> {
    Map::new(
        |c: ChangeHash| all.contains_key(c),
        |c: ChangeHash|
            if sched_slack(all, base, c) == 0 {
                open_core(all, base, c)
            } else {
                open_core(all, base, c).insert(c)
            },
    )
}

/// Every candidate not yet done counts its slack and its open dependencies.
pub open spec fn counts_open(
    all: Map<ChangeHash, ChangeCandidate>,
    base: Set<ChangeHash>,
    done: Set<ChangeHash>,
    u: Map<ChangeHash, usize>,
) -> bool {
    forall|c: ChangeHash| #[trigger] u.contains_key(c) && !done.contains(c) ==> u[c] == sched_slack(all, base, c)
        + open_core(all, base, c).difference(done).len()
}

/// Every done candidate waits only for done candidates.
pub open spec fn done_closed(deps: Map<ChangeHash, Set<ChangeHash>>, done: Set<ChangeHash>) -> bool {
    forall|c: ChangeHash| #[trigger] done.contains(c) ==> deps.contains_key(c) && deps[c].subset_of(done)
}

/// A candidate's count is zero exactly when it is ready.
proof fn lemma_count_zero_ready(
    all: Map<ChangeHash, ChangeCandidate>,
    base: Set<ChangeHash>,
    done: Set<ChangeHash>,
    c: ChangeHash,
    count: int,
)
    requires
        all.contains_key(c),
        !done.contains(c),
        count == sched_slack(all, base, c) + open_core(all, base, c).difference(done).len(),
    ensures
        (count == 0) == crate::graph::order::is_ready(schedule_deps(all, base), done, c),
        sched_slack(all, base, c) >= 0,
        open_core(all, base, c).finite(),
{
    let deps = all[c].dependencies@;
    crate::graph::closure::lemma_count_in_distinct(deps, base.complement());
    let d = open_core(all, base, c);
    crate::graph::order::lemma_open_empty(d, done);
    if sched_slack(all, base, c) != 0 {
        assert(schedule_deps(all, base)[c].contains(c));
    }
}

/// Releases the dependants of the just-scheduled `hash`: each one's count
/// drops by one, and those reaching zero become ready.
fn release_children(
    hash: ChangeHash,
    dependants: &OrdMap<ChangeHash, OrdSet<ChangeHash>>,
    unresolved: &mut OrdMap<ChangeHash, usize>,
    ready: &mut OrdSet<ChangeHash>,
    budget: &mut WorkBudget,
    cancellation: &impl CancellationCheck,
    Ghost(start): Ghost<WorkBudget>,
    Ghost(all): Ghost<Map<ChangeHash, ChangeCandidate>>,
    Ghost(base): Ghost<Set<ChangeHash>>,
    Ghost(done): Ghost<Set<ChangeHash>>,
) -> (r: Result<(), WorkStop>)
    requires
        all.dom().finite(),
        budget_grew(start, *old(budget)),
        sets_wf(*dependants),
        sets_view(*dependants) == candidate_dependants(all),
        all.contains_key(hash),
        old(unresolved).wf(),
        old(unresolved)@.dom() == all.dom(),
        old(ready).wf(),
        old(ready)@.subset_of(all.dom()),
        all.dom().disjoint(base) ==> {
            &&& crate::graph::order::is_ready(schedule_deps(all, base), done, hash)
            &&& done_closed(schedule_deps(all, base), done)
            &&& old(ready)@ == crate::graph::order::ready_set(schedule_deps(all, base), done).remove(hash)
            &&& counts_open(all, base, done, old(unresolved)@)
        },
    ensures
        budget_grew(start, *final(budget)),
        budget_grew(*old(budget), *final(budget)),
        r == Err::<(), WorkStop>(WorkStop::BudgetExhausted) ==> operations_exhausted(*final(budget)),
        r == Err::<(), WorkStop>(WorkStop::Cancelled) ==> !cancellation.never_cancels(),
        final(unresolved).wf(),
        final(unresolved)@.dom() == all.dom(),
        final(ready).wf(),
        final(ready)@.subset_of(all.dom()),
        r is Ok && all.dom().disjoint(base) ==> {
            &&& final(ready)@ == crate::graph::order::ready_set(schedule_deps(all, base), done.insert(hash))
            &&& counts_open(all, base, done.insert(hash), final(unresolved)@)
        },
        final(budget).usage().operations() <= old(budget).usage().operations() + 1 + 5 * all.dom().len(),
        cancellation.never_cancels() && affords(*old(budget), (1 + 5 * all.dom().len()) as int) ==> r is Ok,
{
    let ghost regular = all.dom().disjoint(base);
    let ghost ds = schedule_deps(all, base);
    let ghost done2 = done.insert(hash);
    let ghost kids = Set::new(|c: ChangeHash| all.contains_key(c) && open_core(all, base, c).contains(hash));
    let ghost b0 = *budget;
    proof {
        if regular {
            assert(!base.contains(hash));
            assert forall|c: ChangeHash| children_of(all, hash).contains(c) <==> kids.contains(c) by {
                if children_of(all, hash).contains(c) {
                    assert(all[c].dependencies@.to_set().contains(hash));
                }
            }
            assert(!open_core(all, base, hash).contains(hash)) by {
                assert(ds[hash].subset_of(done));
            }
        }
    }
    let ghost b1 = *budget;
    let charged = charge_from(budget, cancellation, WorkCounter::GraphEdge, Ghost(start));
    proof {
        crate::work_budget::lemma_budget_grew_trans(b0, b1, *budget);
    }
    if let Err(e) = charged {
        return Err(e);
    }
    let children = match dependants.get(&hash) {
        Some(children) => children,
        None => {
            proof {
                if regular {
                    assert forall|c: ChangeHash| !kids.contains(c) by {
                        if kids.contains(c) {
                            assert(children_of(all, hash).contains(c));
                            assert(candidate_dependants(all).contains_key(hash));
                        }
                    }
                    assert forall|c: ChangeHash| #[trigger] crate::graph::order::ready_set(ds, done2).contains(c)
                        <==> ready@.contains(c) by {
                        assert(!kids.contains(c));
                        if c != hash {
                            crate::graph::order::lemma_ready_step(ds, done, hash, c);
                        }
                    }
                    assert(ready@ =~= crate::graph::order::ready_set(ds, done2));
                    assert forall|c: ChangeHash| #[trigger] unresolved@.contains_key(c) && !done2.contains(c)
                        implies unresolved@[c] == sched_slack(all, base, c) + open_core(all, base, c).difference(done2).len() by {
                        assert(!kids.contains(c));
                        lemma_count_zero_ready(all, base, done, c, unresolved@[c] as int);
                        crate::graph::order::lemma_open_step(open_core(all, base, c), done, hash);
                    }
                }
            }
            return Ok(());
        },
    };
    proof {
        assert(children.wf());
        assert(sets_view(*dependants)[hash] == children@);
        assert(candidate_dependants(all).contains_key(hash));
        assert(children@ == children_of(all, hash));
        crate::ordered::lemma_sorted_no_duplicates(children.seq());
        assert(children.seq().take(0).to_set() =~= Set::<ChangeHash>::empty());
        if regular {
            assert(children@ =~= kids);
            assert(ready@ =~= Set::new(|c: ChangeHash| (crate::graph::order::ready_set(ds, done).contains(c) && c != hash)
                || (children.seq().take(0).to_set().contains(c) && crate::graph::order::is_ready(ds, done2, c))));
        }
    }
    let child_count = children.len();
    proof {
        assert(children@.subset_of(all.dom()));
        vstd::set_lib::lemma_len_subset(children@, all.dom());
    }
    for k in 0..child_count
        invariant
            budget_grew(start, *budget),
            budget_grew(b0, *budget),
            b0 == *old(budget),
            child_count <= all.dom().len(),
            budget.usage().operations() <= b0.usage().operations() + 1 + 5 * k,
            regular == all.dom().disjoint(base),
            children.wf(),
            children@ == children_of(all, hash),
            child_count == children.seq().len(),
            children.seq().no_duplicates(),
            kids == Set::new(|c: ChangeHash| all.contains_key(c) && open_core(all, base, c).contains(hash)),
            ds == schedule_deps(all, base),
            done2 == done.insert(hash),
            all.contains_key(hash),
            unresolved.wf(),
            unresolved@.dom() == all.dom(),
            ready.wf(),
            ready@.subset_of(all.dom()),
            regular ==> children@ == kids,
            regular ==> crate::graph::order::is_ready(ds, done, hash),
            regular ==> done_closed(ds, done),
            regular ==> forall|c: ChangeHash| #[trigger] unresolved@.contains_key(c) && !done2.contains(c)
                ==> unresolved@[c] == sched_slack(all, base, c) + (if children.seq().take(k as int).to_set().contains(c) {
                    open_core(all, base, c).difference(done2).len()
                } else {
                    open_core(all, base, c).difference(done).len()
                }),
            regular ==> ready@ == Set::new(|c: ChangeHash| (crate::graph::order::ready_set(ds, done).contains(c) && c != hash)
                || (children.seq().take(k as int).to_set().contains(c) && crate::graph::order::is_ready(ds, done2, c))),
    {
        let ghost taken = children.seq().take(k as int).to_set();
        let ghost b2 = *budget;
        let charged = charge_from(budget, cancellation, WorkCounter::GraphEdge, Ghost(start));
        proof {
            crate::work_budget::lemma_budget_grew_trans(b0, b2, *budget);
        }
        if let Err(e) = charged {
            return Err(e);
        }
        let child = children.get(k);
        proof {
            assert(children.seq().contains(child));
            assert(children@.contains(child));
            assert(!taken.contains(child)) by {
                if taken.contains(child) {
                    let j = choose|j: int| 0 <= j < k && children.seq().take(k as int)[j] == child;
                    assert(children.seq()[j] == children.seq()[k as int]);
                }
            }
            assert(children.seq().take(k + 1) =~= children.seq().take(k as int).push(child));
            children.seq().take(k as int).lemma_push_to_set_commute(child);
            if regular {
                assert(kids.contains(child));
                assert(!done.contains(child)) by {
                    if done.contains(child) {
                        assert(open_core(all, base, child).subset_of(ds[child]));
                        assert(open_core(all, base, child).contains(hash));
                    }
                }
                assert(child != hash);
                lemma_count_zero_ready(all, base, done, child, unresolved@[child] as int);
                assert(open_core(all, base, child).difference(done).contains(hash));
                vstd::set::axiom_set_remove_len(open_core(all, base, child).difference(done), hash);
                crate::graph::order::lemma_open_step(open_core(all, base, child), done, hash);
            }
        }
        let ghost b3 = *budget;
        let charged = charge_from(budget, cancellation, WorkCounter::GraphNode, Ghost(start));
        proof {
            crate::work_budget::lemma_budget_grew_trans(b0, b3, *budget);
        }
        if let Err(e) = charged {
            return Err(e);
        }
        match unresolved.index_of(&child) {
            None => {
                proof {
                    assert(all.contains_key(child));
                    assert(false);
                }
            },
            Some(pos) => {
                let ghost b4 = *budget;
                let charged = charge_from(budget, cancellation, WorkCounter::GraphNode, Ghost(start));
                proof {
                    crate::work_budget::lemma_budget_grew_trans(b0, b4, *budget);
                }
                if let Err(e) = charged {
                    return Err(e);
                }
                let current = *unresolved.value_at(pos);
                let updated = current.saturating_sub(1);
                let ghost old_unresolved = *unresolved;
                unresolved.set_value_at(pos, updated);
                proof {
                    old_unresolved.lemma_position(pos as int);
                    if regular {
                        assert(current >= 1);
                        assert(updated == current - 1);
                        lemma_count_zero_ready(all, base, done2, child, updated as int);
                    }
                }
                let ghost b5 = *budget;
                let charged = charge_from(budget, cancellation, WorkCounter::GraphNode, Ghost(start));
                proof {
                    crate::work_budget::lemma_budget_grew_trans(b0, b5, *budget);
                }
                if let Err(e) = charged {
                    return Err(e);
                }
                if updated == 0 {
                    let ghost b6 = *budget;
                    let charged = charge_from(budget, cancellation, WorkCounter::GraphNode, Ghost(start));
                    proof {
                        crate::work_budget::lemma_budget_grew_trans(b0, b6, *budget);
                    }
                    if let Err(e) = charged {
                        return Err(e);
                    }
                    ready.insert(child);
                }
                proof {
                    if regular {
                        let t2 = children.seq().take(k + 1).to_set();
                        assert(ready@ =~= Set::new(|c: ChangeHash| (crate::graph::order::ready_set(ds, done).contains(c) && c != hash)
                            || (t2.contains(c) && crate::graph::order::is_ready(ds, done2, c))));
                        assert forall|c: ChangeHash| #[trigger] unresolved@.contains_key(c) && !done2.contains(c)
                            implies unresolved@[c] == sched_slack(all, base, c) + (if t2.contains(c) {
                                open_core(all, base, c).difference(done2).len()
                            } else {
                                open_core(all, base, c).difference(done).len()
                            }) by {
                            if c != child {
                                assert(old_unresolved@.contains_key(c));
                            }
                        }
                    }
                }
            },
        }
    }
    proof {
        assert(children.seq().take(child_count as int) =~= children.seq());
        if regular {
            assert(children.seq().to_set() =~= kids);
            assert forall|c: ChangeHash| #[trigger] crate::graph::order::ready_set(ds, done2).contains(c) <==> ready@.contains(c) by {
                if !kids.contains(c) && c != hash {
                    if ds.contains_key(c) && ds[c].contains(hash) {
                        assert(open_core(all, base, c).contains(hash));
                    }
                    crate::graph::order::lemma_ready_step(ds, done, hash, c);
                }
                if kids.contains(c) {
                    assert(!crate::graph::order::ready_set(ds, done).contains(c)) by {
                        assert(open_core(all, base, c).subset_of(ds[c]));
                    }
                }
            }
            assert(ready@ =~= crate::graph::order::ready_set(ds, done2));
            assert forall|c: ChangeHash| #[trigger] unresolved@.contains_key(c) && !done2.contains(c)
                implies unresolved@[c] == sched_slack(all, base, c) + open_core(all, base, c).difference(done2).len() by {
                if !kids.contains(c) {
                    lemma_count_zero_ready(all, base, done, c, unresolved@[c] as int);
                    crate::graph::order::lemma_open_step(open_core(all, base, c), done, hash);
                }
            }
        }
    }
    Ok(())
}

} // verus!

verus! {

/// Scheduling is deterministic: when no candidate is already accepted, two
/// complete schedules of the same candidates agree on the order and on the
/// pending, missing and cyclic sets.
pub proof fn lemma_schedule_deterministic(
    s1: Schedule,
    s2: Schedule,
    all: Map<ChangeHash, ChangeCandidate>,
    base: Set<ChangeHash>,
)
    requires
        schedule_spec(s1, all, base),
        schedule_spec(s2, all, base),
        all.dom().disjoint(base),
    ensures
        s1.ordered@ == s2.ordered@,
        s1.pending@ == s2.pending@,
        s1.missing_dependencies@ == s2.missing_dependencies@,
        s1.cyclic@ == s2.cyclic@,
{
    crate::graph::order::lemma_greedy_order_unique(schedule_deps(all, base), s1.ordered@, s2.ordered@);
    let rem = all.remove_keys(s1.ordered@.to_set());
    let seed = directly_blocked(rem, s1.missing_dependencies@);
    assert(closed_under_dependants(rem, s2.pending@));
    assert(closed_under_dependants(rem, s1.pending@));
    assert(s1.pending@.subset_of(s2.pending@));
    assert(s2.pending@.subset_of(s1.pending@));
    assert(s1.pending@ =~= s2.pending@);
}

/// Each candidate of a list without repeated hashes is the latest with its hash.
proof fn lemma_distinct_last(cs: Seq<ChangeCandidate>, i: int)
    requires
        0 <= i < cs.len(),
        forall|p: int, q: int| 0 <= p < q < cs.len() ==> #[trigger] cs[p].change_hash != #[trigger] cs[q].change_hash,
    ensures
        is_last_index(cs, i),
        latest_map(cs).contains_key(cs[i].change_hash),
        latest_map(cs)[cs[i].change_hash] == cs[i],
{
    let h = cs[i].change_hash;
    assert(is_last_index(cs, i));
    let k = choose|k: int| is_last_index(cs, k) && cs[k].change_hash == h;
    lemma_last_index_unique(cs, i, k);
}

/// Candidates without repeated hashes are scheduled the same whatever
/// their input order: two such lists with the same members give the same
/// candidate map.
pub proof fn lemma_latest_map_order_independent(a: Seq<ChangeCandidate>, b: Seq<ChangeCandidate>)
    requires
        a.to_set() == b.to_set(),
        forall|p: int, q: int| 0 <= p < q < a.len() ==> #[trigger] a[p].change_hash != #[trigger] a[q].change_hash,
        forall|p: int, q: int| 0 <= p < q < b.len() ==> #[trigger] b[p].change_hash != #[trigger] b[q].change_hash,
    ensures
        latest_map(a) == latest_map(b),
{
    assert forall|h: ChangeHash| latest_map(a).contains_key(h) implies latest_map(b).contains_key(h)
        && latest_map(b)[h] == latest_map(a)[h] by {
        let i = choose|i: int| 0 <= i < a.len() && #[trigger] a[i].change_hash == h;
        lemma_distinct_last(a, i);
        assert(a.to_set().contains(a[i]));
        let j = choose|j: int| 0 <= j < b.len() && b[j] == a[i];
        lemma_distinct_last(b, j);
    }
    assert forall|h: ChangeHash| latest_map(b).contains_key(h) implies latest_map(a).contains_key(h) by {
        let j = choose|j: int| 0 <= j < b.len() && #[trigger] b[j].change_hash == h;
        assert(b.to_set().contains(b[j]));
        let i = choose|i: int| 0 <= i < a.len() && a[i] == b[j];
        assert(a[i].change_hash == h);
    }
    assert forall|h: ChangeHash| latest_map(a).dom().contains(h) <==> latest_map(b).dom().contains(h) by {
        if latest_map(a).dom().contains(h) {
            let i = choose|i: int| 0 <= i < a.len() && #[trigger] a[i].change_hash == h;
            assert(a.to_set().contains(a[i]));
            let j = choose|j: int| 0 <= j < b.len() && b[j] == a[i];
            assert(b[j].change_hash == h);
        }
        if latest_map(b).dom().contains(h) {
            let j = choose|j: int| 0 <= j < b.len() && #[trigger] b[j].change_hash == h;
            assert(b.to_set().contains(b[j]));
            let i = choose|i: int| 0 <= i < a.len() && a[i] == b[j];
            assert(a[i].change_hash == h);
        }
    }
    assert(latest_map(a).dom() =~= latest_map(b).dom());
    assert forall|h: ChangeHash| #[trigger] latest_map(a).contains_key(h) implies latest_map(b)[h] == latest_map(a)[h] by {
        let i = choose|i: int| 0 <= i < a.len() && #[trigger] a[i].change_hash == h;
        lemma_distinct_last(a, i);
        assert(a.to_set().contains(a[i]));
        let j = choose|j: int| 0 <= j < b.len() && b[j] == a[i];
        lemma_distinct_last(b, j);
    }
    assert(latest_map(a) =~= latest_map(b));
}

} // verus!
