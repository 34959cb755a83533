//! Device equivocation: one actor signing two different changes under one
//! sequence number, and the quarantine of everything built on them.

use vstd::prelude::*;
use crate::graph::change_candidate::ChangeCandidate;
use crate::graph::closure::{lemma_max_set_len, max_set_len};
use crate::graph::dependency_graph::DependencyGraph;
use crate::graph::schedule::room;
use crate::graph::order::{closed_from, reachable_set};
use crate::graph::schedule::{is_last_index, latest_map, lemma_last_exists, lemma_latest_map_bounds};
use crate::integrity::{AlertError, DeviceEquivocationAlert, IntegrityAlert};
use crate::ordered::{
    OrdMap, OrdSet, ensure_set_entry, insert_into_set_entry, lemma_sorted_unique, sets_view, sets_wf, strictly_sorted,
};
use crate::types::{ActorId, ActorSequence, ChangeHash, EventId, OrderedKey, ProtocolDisposition};
use crate::work_budget::{
    CancellationCheck, WorkBudget, affords, WorkCounter, WorkStop, budget_grew, budget_within_limits, charge_from,
    lemma_budget_grew_trans, lemma_grew_operations, operations_exhausted,
};

verus! {

/// The first sequence at which an actor signed more than one change.
#[derive(Debug)]
pub struct EquivocationGroup {
    /// The equivocating actor.
    pub actor: ActorId,
    /// The first sequence number with conflicting changes.
    pub first_sequence: u64,
    /// The changes signed under that sequence number.
    pub conflicting_changes: OrdSet<ChangeHash>,
    /// The carrier events of those changes.
    pub carrier_event_ids: OrdSet<EventId>,
}

/// One change of an actor, with its sequence number.
#[derive(Clone, Copy, Debug, PartialEq, Eq, Structural)]
pub struct SequencedHash {
    /// The sequence number.
    pub sequence: u64,
    /// The change.
    pub hash: ChangeHash,
}

/// Why quarantining stopped.
#[derive(Clone, Copy, Debug, PartialEq, Eq, Structural)]
pub enum QuarantineError {
    /// An alert could not be formed.
    Alert(AlertError),
    /// The work budget ran out.
    BudgetExhausted,
    /// The cancellation signal asked to stop.
    Cancelled,
}

/// Charges one operation unit, reporting a stop as a quarantine error.
fn charge_quarantine(
    budget: &mut WorkBudget,
    cancellation: &impl CancellationCheck,
    counter: WorkCounter,
    Ghost(start): Ghost<WorkBudget>,
) -> (r: Result<(), QuarantineError>)
    requires
        budget_grew(start, *old(budget)),
        counter != WorkCounter::DecodeByte,
    ensures
        budget_grew(start, *final(budget)),
        budget_grew(*old(budget), *final(budget)),
        r is Ok ==> final(budget).usage().operations() == old(budget).usage().operations() + 1,
        r matches Err(e) ==> e is BudgetExhausted || e is Cancelled,
        r == Err::<(), QuarantineError>(QuarantineError::BudgetExhausted) ==> operations_exhausted(*final(budget)),
        r == Err::<(), QuarantineError>(QuarantineError::Cancelled) ==> !cancellation.never_cancels(),
        final(budget).usage().operations() <= final(budget).operation_limit(),
        r is Err ==> final(budget).usage() == old(budget).usage(),
        cancellation.never_cancels() && affords(*old(budget), 1) ==> r is Ok,
{
    match charge_from(budget, cancellation, counter, Ghost(start)) {
        Ok(()) => Ok(()),
        Err(WorkStop::BudgetExhausted) => Err(QuarantineError::BudgetExhausted),
        Err(WorkStop::Cancelled) => Err(QuarantineError::Cancelled),
    }
}

/// A candidate's actor and sequence number.
pub open spec fn key_of(c: ChangeCandidate) -> ActorSequence {
    ActorSequence { actor: c.actor, sequence: c.sequence }
}

/// Candidate `j` is among the first `n` and has key `k` and hash `h`.
pub open spec fn names_at(cs: Seq<ChangeCandidate>, n: int, j: int, k: ActorSequence, h: ChangeHash) -> bool {
    0 <= j < n && key_of(cs[j]) == k && cs[j].change_hash == h
}

/// The hashes the first `n` candidates declare under key `k`.
pub open spec fn hashes_at(cs: Seq<ChangeCandidate>, n: int, k: ActorSequence) -> Set<ChangeHash> {
    Set::new(|h: ChangeHash| exists|j: int| #[trigger] names_at(cs, n, j, k, h))
}

/// The carriers the first `n` candidates declare under key `k` for hash `h`.
pub open spec fn carriers_for(cs: Seq<ChangeCandidate>, n: int, k: ActorSequence, h: ChangeHash) -> Set<EventId> {
    Set::new(|e: EventId| exists|j: int| #[trigger] names_at(cs, n, j, k, h) && cs[j].valid_carriers@.contains(e))
}

/// The keys of the first `n` candidates.
pub open spec fn keys_of(cs: Seq<ChangeCandidate>, n: int) -> Set<ActorSequence> {
    Set::new(|k: ActorSequence| exists|j: int| 0 <= j < n && #[trigger] key_of(cs[j]) == k)
}

/// The first `n` candidates grouped by key, then by hash, with their carriers.
pub open spec fn grouping(cs: Seq<ChangeCandidate>, n: int) -> Map<ActorSequence, Map<ChangeHash, Set<EventId>>> {
    Map::new(
        |k: ActorSequence| keys_of(cs, n).contains(k),
        |k: ActorSequence| Map::new(|h: ChangeHash| hashes_at(cs, n, k).contains(h), |h: ChangeHash| carriers_for(cs, n, k, h)),
    )
}

/// The nested map as mathematical maps.
pub open spec fn nested_view(m: OrdMap<ActorSequence, OrdMap<ChangeHash, OrdSet<EventId>>>) -> Map<
    ActorSequence,
    Map<ChangeHash, Set<EventId>>,
> {
    Map::new(|k: ActorSequence| m@.contains_key(k), |k: ActorSequence| sets_view(m@[k]))
}

/// Every level of the nested map is well formed.
pub open spec fn nested_wf(m: OrdMap<ActorSequence, OrdMap<ChangeHash, OrdSet<EventId>>>) -> bool {
    &&& m.wf()
    &&& forall|k: ActorSequence| #[trigger] m@.contains_key(k) ==> sets_wf(m@[k])
}

fn nested_touch(
    m: &mut OrdMap<ActorSequence, OrdMap<ChangeHash, OrdSet<EventId>>>,
    key: ActorSequence,
    hash: ChangeHash,
)
    requires
        nested_wf(*old(m)),
    ensures
        nested_wf(*final(m)),
        nested_view(*final(m)) == {
            let nv = nested_view(*old(m));
            let inner = if nv.contains_key(key) { nv[key] } else { Map::<ChangeHash, Set<EventId>>::empty() };
            nv.insert(key, if inner.contains_key(hash) { inner } else { inner.insert(hash, Set::<EventId>::empty()) })
        },
{
    let ghost old_m = *m;
    match m.index_of(&key) {
        Some(i) => {
            proof {
                m.lemma_position(i as int);
            }
            let inner = m.value_mut_at(i);
            ensure_set_entry(inner, hash);
            proof {
                let new_inner = m.val_seq()[i as int];
                OrdMap::lemma_view_update(&old_m, m, i as int, new_inner);
                assert forall|k: ActorSequence| #[trigger] m@.contains_key(k) implies sets_wf(m@[k]) by {
                    if k != key {
                        assert(old_m@.contains_key(k));
                    }
                }
                assert(nested_view(*m) =~= {
                    let nv = nested_view(old_m);
                    let inner = nv[key];
                    nv.insert(key, if inner.contains_key(hash) { inner } else { inner.insert(hash, Set::<EventId>::empty()) })
                });
            }
        },
        None => {
            let mut fresh: OrdMap<ChangeHash, OrdSet<EventId>> = OrdMap::new();
            proof {
                assert(sets_view(fresh) =~= Map::<ChangeHash, Set<EventId>>::empty());
            }
            ensure_set_entry(&mut fresh, hash);
            m.insert(key, fresh);
            proof {
                assert forall|k: ActorSequence| #[trigger] m@.contains_key(k) implies sets_wf(m@[k]) by {
                    if k != key {
                        assert(old_m@.contains_key(k));
                    }
                }
                assert(nested_view(*m) =~= nested_view(old_m).insert(
                    key,
                    Map::<ChangeHash, Set<EventId>>::empty().insert(hash, Set::<EventId>::empty()),
                ));
            }
        },
    }
}

fn nested_add_event(
    m: &mut OrdMap<ActorSequence, OrdMap<ChangeHash, OrdSet<EventId>>>,
    key: ActorSequence,
    hash: ChangeHash,
    event: EventId,
)
    requires
        nested_wf(*old(m)),
        nested_view(*old(m)).contains_key(key),
        nested_view(*old(m))[key].contains_key(hash),
    ensures
        nested_wf(*final(m)),
        nested_view(*final(m)) == {
            let nv = nested_view(*old(m));
            nv.insert(key, nv[key].insert(hash, nv[key][hash].insert(event)))
        },
{
    let ghost old_m = *m;
    let i = m.index_of(&key).unwrap();
    proof {
        m.lemma_position(i as int);
    }
    let inner = m.value_mut_at(i);
    insert_into_set_entry(inner, hash, event);
    proof {
        let new_inner = m.val_seq()[i as int];
        OrdMap::lemma_view_update(&old_m, m, i as int, new_inner);
        assert forall|k: ActorSequence| #[trigger] m@.contains_key(k) implies sets_wf(m@[k]) by {
            if k != key {
                assert(old_m@.contains_key(k));
            }
        }
        let nv = nested_view(old_m);
        assert(nested_view(*m) =~= nv.insert(key, nv[key].insert(hash, nv[key][hash].insert(event))));
    }
}

} // verus!

verus! {

/// `g` with `carriers` recorded for hash `h` under key `k`.
pub open spec fn with_carriers(
    g: Map<ActorSequence, Map<ChangeHash, Set<EventId>>>,
    k: ActorSequence,
    h: ChangeHash,
    carriers: Set<EventId>,
) -> Map<ActorSequence, Map<ChangeHash, Set<EventId>>> {
    let inner = if g.contains_key(k) { g[k] } else { Map::<ChangeHash, Set<EventId>>::empty() };
    let old_carriers = if inner.contains_key(h) { inner[h] } else { Set::<EventId>::empty() };
    g.insert(k, inner.insert(h, old_carriers.union(carriers)))
}

/// Grouping one more candidate records its carriers under its key and hash.
proof fn lemma_grouping_step(cs: Seq<ChangeCandidate>, i: int)
    requires
        0 <= i < cs.len(),
    ensures
        grouping(cs, i + 1) == with_carriers(grouping(cs, i), key_of(cs[i]), cs[i].change_hash, cs[i].valid_carriers@.to_set()),
{
    let k = key_of(cs[i]);
    let h = cs[i].change_hash;
    let a = grouping(cs, i + 1);
    let b = with_carriers(grouping(cs, i), k, h, cs[i].valid_carriers@.to_set());
    assert(names_at(cs, i + 1, i, k, h));
    assert forall|k2: ActorSequence| a.contains_key(k2) <==> b.contains_key(k2) by {
        if keys_of(cs, i + 1).contains(k2) && k2 != k {
            let j = choose|j: int| 0 <= j < i + 1 && #[trigger] key_of(cs[j]) == k2;
            assert(j != i);
            assert(keys_of(cs, i).contains(k2));
        }
        if keys_of(cs, i).contains(k2) {
            let j = choose|j: int| 0 <= j < i && #[trigger] key_of(cs[j]) == k2;
            assert(keys_of(cs, i + 1).contains(k2));
        }
        if k2 == k {
            assert(key_of(cs[i]) == k2);
        }
    }
    assert forall|k2: ActorSequence| a.contains_key(k2) implies a[k2] =~= b[k2] by {
        assert forall|h2: ChangeHash| a[k2].contains_key(h2) <==> b[k2].contains_key(h2) by {
            if hashes_at(cs, i + 1, k2).contains(h2) && !(k2 == k && h2 == h) {
                let j = choose|j: int| #[trigger] names_at(cs, i + 1, j, k2, h2);
                assert(names_at(cs, i, j, k2, h2));
                assert(keys_of(cs, i).contains(k2)) by {
                    assert(key_of(cs[j]) == k2);
                }
            }
            if keys_of(cs, i).contains(k2) && hashes_at(cs, i, k2).contains(h2) {
                let j = choose|j: int| #[trigger] names_at(cs, i, j, k2, h2);
                assert(names_at(cs, i + 1, j, k2, h2));
            }
        }
        assert forall|h2: ChangeHash| a[k2].contains_key(h2) implies a[k2][h2] =~= b[k2][h2] by {
            assert forall|e: EventId| a[k2][h2].contains(e) <==> b[k2][h2].contains(e) by {
                if carriers_for(cs, i + 1, k2, h2).contains(e) {
                    let j = choose|j: int| #[trigger] names_at(cs, i + 1, j, k2, h2) && cs[j].valid_carriers@.contains(e);
                    if j < i {
                        assert(names_at(cs, i, j, k2, h2));
                        assert(hashes_at(cs, i, k2).contains(h2));
                        assert(keys_of(cs, i).contains(k2)) by {
                            assert(key_of(cs[j]) == k2);
                        }
                    }
                }
                if keys_of(cs, i).contains(k2) && hashes_at(cs, i, k2).contains(h2) && carriers_for(cs, i, k2, h2).contains(e) {
                    let j = choose|j: int| #[trigger] names_at(cs, i, j, k2, h2) && cs[j].valid_carriers@.contains(e);
                    assert(names_at(cs, i + 1, j, k2, h2));
                }
                if k2 == k && h2 == h && cs[i].valid_carriers@.to_set().contains(e) {
                    assert(names_at(cs, i + 1, i, k2, h2));
                }
            }
        }
    }
    assert(a =~= b);
}

/// The most carriers any one of `cs` names.
pub open spec fn max_carriers(cs: Seq<ChangeCandidate>) -> nat
    decreases cs.len(),
{
    if cs.len() == 0 {
        0
    } else if cs.last().valid_carriers@.len() > max_carriers(cs.drop_last()) {
        cs.last().valid_carriers@.len()
    } else {
        max_carriers(cs.drop_last())
    }
}

/// Every candidate names at most `max_carriers` carriers.
pub proof fn lemma_max_carriers(cs: Seq<ChangeCandidate>, i: int)
    requires
        0 <= i < cs.len(),
    ensures
        cs[i].valid_carriers@.len() <= max_carriers(cs),
    decreases cs.len(),
{
    if i < cs.len() - 1 {
        lemma_max_carriers(cs.drop_last(), i);
    }
}

/// Grouping `n` candidates that name at most `c` carriers each gives at most
/// `n` keys, at most `n` hashes under a key and at most `n * c` carriers
/// for a hash.
proof fn lemma_grouping_bounds(cs: Seq<ChangeCandidate>, n: int, c: int)
    requires
        0 <= n <= cs.len(),
        c >= 0,
        forall|j: int| 0 <= j < n ==> (#[trigger] cs[j]).valid_carriers@.len() <= c,
    ensures
        grouping(cs, n).dom().finite(),
        grouping(cs, n).dom().len() <= n,
        forall|k: ActorSequence| #[trigger] grouping(cs, n).contains_key(k) ==> grouping(cs, n)[k].dom().finite()
            && grouping(cs, n)[k].dom().len() <= n,
        forall|k: ActorSequence, h: ChangeHash|
            grouping(cs, n).contains_key(k) && #[trigger] grouping(cs, n)[k].contains_key(h) ==> grouping(
                cs,
                n,
            )[k][h].finite() && grouping(cs, n)[k][h].len() <= n * c,
    decreases n,
{
    if n == 0 {
        assert(grouping(cs, 0).dom() =~= Set::<ActorSequence>::empty());
    } else {
        let i = n - 1;
        lemma_grouping_bounds(cs, i, c);
        lemma_grouping_step(cs, i);
        let g = grouping(cs, i);
        let k0 = key_of(cs[i]);
        let h0 = cs[i].change_hash;
        let cset = cs[i].valid_carriers@.to_set();
        cs[i].valid_carriers@.lemma_cardinality_of_set();
        vstd::seq_lib::seq_to_set_is_finite(cs[i].valid_carriers@);
        let inner = if g.contains_key(k0) { g[k0] } else { Map::<ChangeHash, Set<EventId>>::empty() };
        let oc = if inner.contains_key(h0) { inner[h0] } else { Set::<EventId>::empty() };
        let g2 = grouping(cs, n);
        assert(g2 == g.insert(k0, inner.insert(h0, oc.union(cset))));
        assert(g2.dom() =~= g.dom().insert(k0));
        assert(inner.dom().finite() && inner.dom().len() <= i) by {
            if !g.contains_key(k0) {
                assert(inner.dom() =~= Set::<ChangeHash>::empty());
            }
        }
        assert(inner.insert(h0, oc.union(cset)).dom() =~= inner.dom().insert(h0));
        assert(oc.finite() && oc.len() <= i * c) by {
            if !inner.contains_key(h0) {
                assert(i * c >= 0) by (nonlinear_arith)
                    requires
                        i >= 0,
                        c >= 0,
                ;
            }
        }
        vstd::set_lib::lemma_len_union(oc, cset);
        assert(n * c == i * c + c) by (nonlinear_arith)
            requires
                n == i + 1,
        ;
        assert forall|k: ActorSequence, h: ChangeHash|
            g2.contains_key(k) && #[trigger] g2[k].contains_key(h) implies g2[k][h].finite() && g2[k][h].len()
                <= n * c by {
            if k == k0 && h == h0 {
            } else if k == k0 {
                assert(inner.contains_key(h));
                assert(g.contains_key(k0));
                assert(g[k0].contains_key(h));
            } else {
                assert(g.contains_key(k));
                assert(g[k].contains_key(h));
                assert(i * c <= n * c);
            }
        }
        assert forall|k: ActorSequence| #[trigger] g2.contains_key(k) implies g2[k].dom().finite() && g2[k].dom().len()
            <= n by {
            if k != k0 {
                assert(g.contains_key(k));
            }
        }
    }
}

/// The units grouping `n` candidates charges at most when none names more
/// than `c` carriers: one for each candidate and one for each carrier.
pub open spec fn grouping_cost(n: int, c: int) -> int {
    n * (1 + c)
}

fn group_candidates(
    cs: &Vec<ChangeCandidate>,
    budget: &mut WorkBudget,
    cancellation: &impl CancellationCheck,
    Ghost(start): Ghost<WorkBudget>,
) -> (r: Result<OrdMap<ActorSequence, OrdMap<ChangeHash, OrdSet<EventId>>>, QuarantineError>)
    requires
        budget_grew(start, *old(budget)),
    ensures
        budget_grew(start, *final(budget)),
        r == Err::<OrdMap<ActorSequence, OrdMap<ChangeHash, OrdSet<EventId>>>, QuarantineError>(QuarantineError::BudgetExhausted)
            ==> operations_exhausted(*final(budget)),
        r == Err::<OrdMap<ActorSequence, OrdMap<ChangeHash, OrdSet<EventId>>>, QuarantineError>(QuarantineError::Cancelled)
            ==> !cancellation.never_cancels(),
        r matches Err(e) ==> e is BudgetExhausted || e is Cancelled,
        r matches Ok(m) ==> nested_wf(m) && nested_view(m) == grouping(cs@, cs@.len() as int),
        final(budget).usage().operations() <= old(budget).usage().operations() + grouping_cost(
            cs@.len() as int,
            max_carriers(cs@) as int,
        ),
        cancellation.never_cancels() && affords(
            *old(budget),
            grouping_cost(cs@.len() as int, max_carriers(cs@) as int),
        ) ==> r is Ok,
        cancellation.never_cancels() && operations_exhausted(*old(budget)) && cs@.len() > 0 ==> r
            == Err::<OrdMap<ActorSequence, OrdMap<ChangeHash, OrdSet<EventId>>>, QuarantineError>(
            QuarantineError::BudgetExhausted,
        ),
{
    let ghost entry = *budget;
    let ghost mc = max_carriers(cs@) as int;
    let ghost never = cancellation.never_cancels() && affords(entry, grouping_cost(cs@.len() as int, mc));
    let mut groups: OrdMap<ActorSequence, OrdMap<ChangeHash, OrdSet<EventId>>> = OrdMap::new();
    proof {
        assert(nested_view(groups) =~= grouping(cs@, 0));
    }
    let n = cs.len();
    for i in 0..n
        invariant
            budget_grew(start, *budget),
            n == cs@.len(),
            nested_wf(groups),
            nested_view(groups) == grouping(cs@, i as int),
            entry == *old(budget),
            budget_grew(entry, *budget),
            mc == max_carriers(cs@) as int,
            never == (cancellation.never_cancels() && affords(entry, grouping_cost(n as int, mc))),
            budget.usage().operations() <= entry.usage().operations() + i * (1 + mc),
            i > 0 ==> entry.usage().operations() < entry.operation_limit(),
    {
        proof {
            lemma_grew_operations(entry, *budget);
            lemma_max_carriers(cs@, i as int);
            assert((i + 1) * (1 + mc) == i * (1 + mc) + 1 + mc) by (nonlinear_arith);
            assert((i + 1) * (1 + mc) <= n * (1 + mc)) by (nonlinear_arith)
                requires
                    i + 1 <= n,
                    mc >= 0,
            ;
        }
        let ghost b0 = *budget;
        let c = charge_quarantine(budget, cancellation, WorkCounter::GraphNode, Ghost(start));
        proof {
            lemma_budget_grew_trans(entry, b0, *budget);
        }
        if let Err(e) = c {
            return Err(e);
        }
        let candidate = &cs[i];
        let key = ActorSequence { actor: candidate.actor, sequence: candidate.sequence };
        let hash = candidate.change_hash;
        let ghost g0 = grouping(cs@, i as int);
        nested_touch(&mut groups, key, hash);
        proof {
            assert(candidate.valid_carriers@.take(0).to_set() =~= Set::<EventId>::empty());
            let inner = if g0.contains_key(key) { g0[key] } else { Map::<ChangeHash, Set<EventId>>::empty() };
            let oc = if inner.contains_key(hash) { inner[hash] } else { Set::<EventId>::empty() };
            assert(oc.union(Set::<EventId>::empty()) =~= oc);
            if inner.contains_key(hash) {
                assert(inner.insert(hash, oc) =~= inner);
            }
            assert(nested_view(groups) =~= with_carriers(g0, key, hash, candidate.valid_carriers@.take(0).to_set()));
        }
        let m = candidate.valid_carriers.len();
        for k in 0..m
            invariant
                budget_grew(start, *budget),
                n == cs@.len(),
                0 <= i < n,
                *candidate == cs@[i as int],
                key == key_of(cs@[i as int]),
                hash == cs@[i as int].change_hash,
                g0 == grouping(cs@, i as int),
                m == candidate.valid_carriers@.len(),
                nested_wf(groups),
                nested_view(groups) == with_carriers(g0, key, hash, candidate.valid_carriers@.take(k as int).to_set()),
                entry == *old(budget),
                budget_grew(entry, *budget),
                mc == max_carriers(cs@) as int,
                m <= mc,
                never == (cancellation.never_cancels() && affords(entry, grouping_cost(n as int, mc))),
                budget.usage().operations() <= entry.usage().operations() + i * (1 + mc) + 1 + k,
                (i + 1) * (1 + mc) == i * (1 + mc) + 1 + mc,
                (i + 1) * (1 + mc) <= n * (1 + mc),
                entry.usage().operations() < entry.operation_limit(),
        {
            let ghost b1 = *budget;
            let c = charge_quarantine(budget, cancellation, WorkCounter::GraphEdge, Ghost(start));
            proof {
                lemma_budget_grew_trans(entry, b1, *budget);
            }
            if let Err(e) = c {
                return Err(e);
            }
            let event = candidate.valid_carriers[k];
            nested_add_event(&mut groups, key, hash, event);
            proof {
                let c = candidate.valid_carriers@;
                assert(c.take(k + 1) =~= c.take(k as int).push(event));
                c.take(k as int).lemma_push_to_set_commute(event);
                let inner = if g0.contains_key(key) { g0[key] } else { Map::<ChangeHash, Set<EventId>>::empty() };
                let oc = if inner.contains_key(hash) { inner[hash] } else { Set::<EventId>::empty() };
                let s0 = c.take(k as int).to_set();
                assert(oc.union(s0).insert(event) =~= oc.union(s0.insert(event)));
                assert(inner.insert(hash, oc.union(s0)).insert(hash, oc.union(s0).insert(event)) =~= inner.insert(
                    hash,
                    oc.union(s0.insert(event)),
                ));
                assert(nested_view(groups) =~= with_carriers(g0, key, hash, c.take(k + 1).to_set()));
            }
        }
        proof {
            assert(candidate.valid_carriers@.take(m as int) =~= candidate.valid_carriers@);
            lemma_grouping_step(cs@, i as int);
        }
    }
    Ok(groups)
}

} // verus!

verus! {

/// Under key `k`, more than one change was declared.
pub open spec fn conflicted(g: Map<ActorSequence, Map<ChangeHash, Set<EventId>>>, k: ActorSequence) -> bool {
    g.contains_key(k) && g[k].dom().len() >= 2
}

/// `s` is the first sequence of `a` with conflicting changes.
pub open spec fn first_conflict(g: Map<ActorSequence, Map<ChangeHash, Set<EventId>>>, a: ActorId, s: u64) -> bool {
    &&& conflicted(g, ActorSequence { actor: a, sequence: s })
    &&& forall|s2: u64| s2 < s ==> !#[trigger] conflicted(g, ActorSequence { actor: a, sequence: s2 })
}

/// Every carrier recorded for any hash.
pub open spec fn carriers_union(inner: Map<ChangeHash, Set<EventId>>) -> Set<EventId> {
    Set::new(|e: EventId| exists|h: ChangeHash| #[trigger] inner.contains_key(h) && inner[h].contains(e))
}

/// `grp` describes the first equivocation of its actor in `g`.
pub open spec fn group_ok(g: Map<ActorSequence, Map<ChangeHash, Set<EventId>>>, grp: EquivocationGroup) -> bool {
    let k = ActorSequence { actor: grp.actor, sequence: grp.first_sequence };
    &&& first_conflict(g, grp.actor, grp.first_sequence)
    &&& grp.conflicting_changes.wf()
    &&& grp.conflicting_changes@ == g[k].dom()
    &&& grp.carrier_event_ids.wf()
    &&& grp.carrier_event_ids@ == carriers_union(g[k])
}

/// The groups are ordered by actor, each correct, and cover every actor that equivocated.
pub open spec fn detection_complete(g: Map<ActorSequence, Map<ChangeHash, Set<EventId>>>, v: Seq<EquivocationGroup>) -> bool {
    &&& forall|i: int, j: int| 0 <= i < j < v.len() ==> (#[trigger] v[i]).actor.precedes((#[trigger] v[j]).actor)
    &&& forall|i: int| 0 <= i < v.len() ==> group_ok(g, #[trigger] v[i])
    &&& forall|k: ActorSequence| #[trigger] conflicted(g, k) ==> exists|i: int| 0 <= i < v.len() && (#[trigger] v[i]).actor == k.actor
}

/// Candidates with the same members group the same way, whatever their order.
pub proof fn lemma_grouping_order_independent(a: Seq<ChangeCandidate>, b: Seq<ChangeCandidate>)
    requires
        forall|c: ChangeCandidate| a.contains(c) <==> b.contains(c),
    ensures
        grouping(a, a.len() as int) == grouping(b, b.len() as int),
{
    lemma_grouping_included(a, b);
    lemma_grouping_included(b, a);
    let ga = grouping(a, a.len() as int);
    let gb = grouping(b, b.len() as int);
    let na = a.len() as int;
    let nb = b.len() as int;
    assert(keys_of(a, na) =~= keys_of(b, nb));
    assert forall|k: ActorSequence| #[trigger] ga.contains_key(k) implies ga[k] == gb[k] by {
        assert(hashes_at(a, na, k).subset_of(hashes_at(b, nb, k)));
        assert(hashes_at(b, nb, k).subset_of(hashes_at(a, na, k)));
        assert(hashes_at(a, na, k) =~= hashes_at(b, nb, k));
        assert forall|h: ChangeHash| #[trigger] ga[k].contains_key(h) implies ga[k][h] == gb[k][h] by {
            assert(carriers_for(a, na, k, h).subset_of(carriers_for(b, nb, k, h)));
            assert(carriers_for(b, nb, k, h).subset_of(carriers_for(a, na, k, h)));
            assert(carriers_for(a, na, k, h) =~= carriers_for(b, nb, k, h));
        }
        assert(ga[k] =~= gb[k]);
    }
    assert(ga =~= gb);
}

/// What the first candidates group under is also grouped by the second,
/// when each of the first is among the second.
proof fn lemma_grouping_included(a: Seq<ChangeCandidate>, b: Seq<ChangeCandidate>)
    requires
        forall|c: ChangeCandidate| a.contains(c) ==> b.contains(c),
    ensures
        keys_of(a, a.len() as int).subset_of(keys_of(b, b.len() as int)),
        forall|k: ActorSequence| #[trigger]
            hashes_at(a, a.len() as int, k).subset_of(hashes_at(b, b.len() as int, k)),
        forall|k: ActorSequence, h: ChangeHash| #[trigger]
            carriers_for(a, a.len() as int, k, h).subset_of(carriers_for(b, b.len() as int, k, h)),
{
    let na = a.len() as int;
    let nb = b.len() as int;
    assert forall|k: ActorSequence| #[trigger] keys_of(a, na).contains(k) implies keys_of(b, nb).contains(k) by {
        let j = choose|j: int| 0 <= j < na && #[trigger] key_of(a[j]) == k;
        assert(a.contains(a[j]));
        let l = choose|l: int| 0 <= l < nb && b[l] == a[j];
        assert(key_of(b[l]) == k);
    }
    assert forall|k: ActorSequence, h: ChangeHash| #[trigger] hashes_at(a, na, k).contains(h) implies hashes_at(
        b,
        nb,
        k,
    ).contains(h) by {
        let j = choose|j: int| #[trigger] names_at(a, na, j, k, h);
        assert(a.contains(a[j]));
        let l = choose|l: int| 0 <= l < nb && b[l] == a[j];
        assert(names_at(b, nb, l, k, h));
    }
    assert forall|k: ActorSequence, h: ChangeHash, e: EventId| #[trigger] carriers_for(a, na, k, h).contains(e) implies carriers_for(
        b,
        nb,
        k,
        h,
    ).contains(e) by {
        let j = choose|j: int| #[trigger] names_at(a, na, j, k, h) && a[j].valid_carriers@.contains(e);
        assert(a.contains(a[j]));
        let l = choose|l: int| 0 <= l < nb && b[l] == a[j];
        assert(names_at(b, nb, l, k, h) && b[l].valid_carriers@.contains(e));
    }
}

/// Detection has one outcome: two complete detections over one grouping
/// agree group by group on the actor, the first conflicting sequence, the
/// conflicting changes and their carriers.
pub proof fn lemma_detection_unique(
    g: Map<ActorSequence, Map<ChangeHash, Set<EventId>>>,
    v: Seq<EquivocationGroup>,
    w: Seq<EquivocationGroup>,
)
    requires
        detection_complete(g, v),
        detection_complete(g, w),
    ensures
        v.len() == w.len(),
        forall|i: int| 0 <= i < v.len() ==> {
            &&& (#[trigger] v[i]).actor == w[i].actor
            &&& v[i].first_sequence == w[i].first_sequence
            &&& v[i].conflicting_changes@ == w[i].conflicting_changes@
            &&& v[i].carrier_event_ids@ == w[i].carrier_event_ids@
        },
{
    let va = v.map_values(|grp: EquivocationGroup| grp.actor);
    let wa = w.map_values(|grp: EquivocationGroup| grp.actor);
    assert(strictly_sorted(va)) by {
        assert forall|i: int, j: int| 0 <= i < j < va.len() implies #[trigger] va[i].precedes(#[trigger] va[j]) by {
            assert(v[i].actor.precedes(v[j].actor));
        }
    }
    assert(strictly_sorted(wa)) by {
        assert forall|i: int, j: int| 0 <= i < j < wa.len() implies #[trigger] wa[i].precedes(#[trigger] wa[j]) by {
            assert(w[i].actor.precedes(w[j].actor));
        }
    }
    assert forall|x: ActorId| va.to_set().contains(x) == wa.to_set().contains(x) by {
        if va.to_set().contains(x) {
            assert(va.contains(x));
            let i = choose|i: int| 0 <= i < va.len() && va[i] == x;
            assert(group_ok(g, v[i]));
            let k = ActorSequence { actor: x, sequence: v[i].first_sequence };
            assert(conflicted(g, k));
            let j = choose|j: int| 0 <= j < w.len() && (#[trigger] w[j]).actor == k.actor;
            assert(wa[j] == x);
            assert(wa.contains(x));
        }
        if wa.to_set().contains(x) {
            assert(wa.contains(x));
            let i = choose|i: int| 0 <= i < wa.len() && wa[i] == x;
            assert(group_ok(g, w[i]));
            let k = ActorSequence { actor: x, sequence: w[i].first_sequence };
            assert(conflicted(g, k));
            let j = choose|j: int| 0 <= j < v.len() && (#[trigger] v[j]).actor == k.actor;
            assert(va[j] == x);
            assert(va.contains(x));
        }
    }
    assert(va.to_set() =~= wa.to_set());
    lemma_sorted_unique(va, wa);
    assert(va.len() == v.len() && wa.len() == w.len());
    assert forall|i: int| 0 <= i < v.len() implies {
        &&& (#[trigger] v[i]).actor == w[i].actor
        &&& v[i].first_sequence == w[i].first_sequence
        &&& v[i].conflicting_changes@ == w[i].conflicting_changes@
        &&& v[i].carrier_event_ids@ == w[i].carrier_event_ids@
    } by {
        assert(va[i] == wa[i]);
        assert(group_ok(g, v[i]));
        assert(group_ok(g, w[i]));
        let a = v[i].actor;
        let s = v[i].first_sequence;
        let t = w[i].first_sequence;
        if s < t {
            assert(!conflicted(g, ActorSequence { actor: a, sequence: s }));
        }
        if t < s {
            assert(!conflicted(g, ActorSequence { actor: a, sequence: t }));
        }
    }
}

fn collect_group(
    changes: &OrdMap<ChangeHash, OrdSet<EventId>>,
    budget: &mut WorkBudget,
    cancellation: &impl CancellationCheck,
    Ghost(start): Ghost<WorkBudget>,
    Ghost(eb): Ghost<int>,
) -> (r: Result<(OrdSet<ChangeHash>, OrdSet<EventId>), QuarantineError>)
    requires
        budget_grew(start, *old(budget)),
        sets_wf(*changes),
        eb >= 0,
        forall|h: ChangeHash| #[trigger] sets_view(*changes).contains_key(h) ==> sets_view(*changes)[h].len() <= eb,
    ensures
        final(budget).usage().operations() <= old(budget).usage().operations() + changes@.dom().len() * (1 + eb),
        cancellation.never_cancels() && affords(*old(budget), changes@.dom().len() * (1 + eb)) ==> r is Ok,
        budget_grew(start, *final(budget)),
        r == Err::<(OrdSet<ChangeHash>, OrdSet<EventId>), QuarantineError>(QuarantineError::BudgetExhausted)
            ==> operations_exhausted(*final(budget)),
        r == Err::<(OrdSet<ChangeHash>, OrdSet<EventId>), QuarantineError>(QuarantineError::Cancelled)
            ==> !cancellation.never_cancels(),
        r matches Err(e) ==> e is BudgetExhausted || e is Cancelled,
        r matches Ok((hs, es)) ==> {
            &&& hs.wf()
            &&& hs@ == sets_view(*changes).dom()
            &&& es.wf()
            &&& es@ == carriers_union(sets_view(*changes))
        },
{
    let ghost sv = sets_view(*changes);
    let ghost entry = *budget;
    let ghost never = cancellation.never_cancels() && affords(entry, changes@.dom().len() * (1 + eb));
    proof {
        changes.lemma_len();
    }
    let mut hs: OrdSet<ChangeHash> = OrdSet::new();
    let mut es: OrdSet<EventId> = OrdSet::new();
    let n = changes.len();
    for i in 0..n
        invariant
            budget_grew(start, *budget),
            sets_wf(*changes),
            sv == sets_view(*changes),
            n == changes.key_seq().len(),
            hs.wf(),
            hs@ == changes.key_seq().take(i as int).to_set(),
            es.wf(),
            es@ == Set::new(|e: EventId| exists|j: int| 0 <= j < i && #[trigger] changes.val_seq()[j]@.contains(e)),
            entry == *old(budget),
            budget_grew(entry, *budget),
            eb >= 0,
            n == changes@.dom().len(),
            forall|h: ChangeHash| #[trigger] sv.contains_key(h) ==> sv[h].len() <= eb,
            never == (cancellation.never_cancels() && affords(entry, n * (1 + eb))),
            budget.usage().operations() <= entry.usage().operations() + i * (1 + eb),
    {
        proof {
            assert((i + 1) * (1 + eb) == i * (1 + eb) + 1 + eb) by (nonlinear_arith);
            assert((i + 1) * (1 + eb) <= n * (1 + eb)) by (nonlinear_arith)
                requires
                    i + 1 <= n,
                    eb >= 0,
            ;
        }
        let ghost b0 = *budget;
        let c = charge_quarantine(budget, cancellation, WorkCounter::GraphNode, Ghost(start));
        proof {
            lemma_budget_grew_trans(entry, b0, *budget);
        }
        if let Err(e) = c {
            return Err(e);
        }
        let hash = changes.key_at(i);
        let carriers = changes.value_at(i);
        proof {
            changes.lemma_position(i as int);
            assert(carriers.wf());
            assert(sv.contains_key(hash));
            assert(sv[hash] == carriers@);
        }
        let m = carriers.len();
        hs.insert(hash);
        proof {
            assert(changes.key_seq().take(i + 1) =~= changes.key_seq().take(i as int).push(hash));
            changes.key_seq().take(i as int).lemma_push_to_set_commute(hash);
        }
        let ghost es0 = es@;
        for k in 0..m
            invariant
                budget_grew(start, *budget),
                carriers.wf(),
                m == carriers.seq().len(),
                es.wf(),
                es@ == es0.union(carriers.seq().take(k as int).to_set()),
                entry == *old(budget),
                budget_grew(entry, *budget),
                m <= eb,
                n == changes@.dom().len(),
                never == (cancellation.never_cancels() && affords(entry, n * (1 + eb))),
                budget.usage().operations() <= entry.usage().operations() + i * (1 + eb) + 1 + k,
                (i + 1) * (1 + eb) == i * (1 + eb) + 1 + eb,
                (i + 1) * (1 + eb) <= n * (1 + eb),
        {
            let ghost b1 = *budget;
            let c = charge_quarantine(budget, cancellation, WorkCounter::GraphEdge, Ghost(start));
            proof {
                lemma_budget_grew_trans(entry, b1, *budget);
            }
            if let Err(e) = c {
                return Err(e);
            }
            let event = carriers.get(k);
            es.insert(event);
            proof {
                assert(carriers.seq().take(k + 1) =~= carriers.seq().take(k as int).push(event));
                carriers.seq().take(k as int).lemma_push_to_set_commute(event);
                assert(es@ =~= es0.union(carriers.seq().take(k + 1).to_set()));
            }
        }
        proof {
            assert(carriers.seq().take(m as int) =~= carriers.seq());
            assert(es@ =~= Set::new(|e: EventId| exists|j: int| 0 <= j < i + 1 && #[trigger] changes.val_seq()[j]@.contains(e))) by {
                assert forall|e: EventId| es@.contains(e) <==> exists|j: int| 0 <= j < i + 1 && #[trigger] changes.val_seq()[j]@.contains(e) by {
                    if exists|j: int| 0 <= j < i + 1 && #[trigger] changes.val_seq()[j]@.contains(e) {
                        let j = choose|j: int| 0 <= j < i + 1 && #[trigger] changes.val_seq()[j]@.contains(e);
                        if j < i {
                            assert(es0.contains(e));
                        }
                    }
                    if carriers@.contains(e) {
                        assert(changes.val_seq()[i as int]@.contains(e));
                    }
                }
            }
        }
    }
    proof {
        assert(changes.key_seq().take(n as int) =~= changes.key_seq());
        changes.lemma_len();
        assert(hs@ =~= sv.dom());
        assert forall|e: EventId| es@.contains(e) <==> carriers_union(sv).contains(e) by {
            if es@.contains(e) {
                let j = choose|j: int| 0 <= j < n && #[trigger] changes.val_seq()[j]@.contains(e);
                changes.lemma_position(j);
                assert(sv.contains_key(changes.key_seq()[j]) && sv[changes.key_seq()[j]].contains(e));
            }
            if carriers_union(sv).contains(e) {
                let h = choose|h: ChangeHash| #[trigger] sv.contains_key(h) && sv[h].contains(e);
                assert(changes.key_seq().contains(h));
                let j = choose|j: int| 0 <= j < n && changes.key_seq()[j] == h;
                changes.lemma_position(j);
                assert(changes.val_seq()[j]@.contains(e));
            }
        }
        assert(es@ =~= carriers_union(sv));
    }
    Ok((hs, es))
}

} // verus!

verus! {

/// The units detection charges at most over `n` candidates that name at
/// most `c` carriers each: the grouping, then for each of at most `n` keys
/// up to three units and the collection of at most `n` changes with at most
/// `n * c` carriers each, then one unit for each group handed out.
pub open spec fn detection_cost(n: int, c: int) -> int {
    n * (1 + c) + n * (3 + n * (1 + n * c)) + n
}

/// Finds, for each actor, the first sequence number under which it declared
/// more than one change, with those changes and all their carriers.
///
/// Groups come out ordered by actor. Every candidate, carrier and group step
/// is charged before it is taken.
pub fn detect_equivocations(
    candidates: &Vec<ChangeCandidate>,
    budget: &mut WorkBudget,
    cancellation: &impl CancellationCheck,
) -> (r: Result<Vec<EquivocationGroup>, QuarantineError>)
    ensures
        budget_grew(*old(budget), *final(budget)),
        r == Err::<Vec<EquivocationGroup>, QuarantineError>(QuarantineError::BudgetExhausted)
            ==> operations_exhausted(*final(budget)),
        r == Err::<Vec<EquivocationGroup>, QuarantineError>(QuarantineError::Cancelled)
            ==> !cancellation.never_cancels(),
        r matches Err(e) ==> e is BudgetExhausted || e is Cancelled,
        r matches Ok(v) ==> detection_complete(grouping(candidates@, candidates@.len() as int), v@),
        final(budget).usage().operations() <= old(budget).usage().operations() + detection_cost(
            candidates@.len() as int,
            max_carriers(candidates@) as int,
        ),
        cancellation.never_cancels() && affords(
            *old(budget),
            detection_cost(candidates@.len() as int, max_carriers(candidates@) as int),
        ) ==> r is Ok,
        cancellation.never_cancels() && operations_exhausted(*old(budget)) && candidates@.len() > 0 ==> r
            == Err::<Vec<EquivocationGroup>, QuarantineError>(QuarantineError::BudgetExhausted),
        r matches Ok(v) ==> v@.len() <= candidates@.len(),
{
    let ghost start = *budget;
    let ghost nn = candidates@.len() as int;
    let ghost mc = max_carriers(candidates@) as int;
    let ghost eb = nn * mc;
    let ghost per = 3 + nn * (1 + eb);
    let ghost gc = grouping_cost(nn, mc);
    let ghost cost = detection_cost(nn, mc);
    let ghost never = cancellation.never_cancels() && affords(start, cost);
    proof {
        assert forall|j: int| 0 <= j < nn implies (#[trigger] candidates@[j]).valid_carriers@.len() <= mc by {
            lemma_max_carriers(candidates@, j);
        }
        lemma_grouping_bounds(candidates@, nn, mc);
        assert(eb >= 0 && gc >= 0 && nn * (1 + eb) >= 0) by (nonlinear_arith)
            requires
                nn >= 0,
                mc >= 0,
                eb == nn * mc,
                gc == nn * (1 + mc),
        ;
        assert(cost == gc + nn * per + nn) by (nonlinear_arith)
            requires
                cost == nn * (1 + mc) + nn * (3 + nn * (1 + nn * mc)) + nn,
                gc == nn * (1 + mc),
                per == 3 + nn * (1 + eb),
                eb == nn * mc,
        ;
    }
    let grouped = group_candidates(candidates, budget, cancellation, Ghost(start));
    let groups = match grouped {
        Ok(found) => found,
        Err(e) => {
            return Err(e);
        },
    };
    let ghost g = grouping(candidates@, candidates@.len() as int);
    let mut first_by_actor: OrdMap<ActorId, EquivocationGroup> = OrdMap::new();
    let n = groups.len();
    proof {
        crate::ordered::lemma_sorted_no_duplicates(groups.key_seq());
        assert(groups@.dom() =~= g.dom());
        assert(n * per <= nn * per) by (nonlinear_arith)
            requires
                n <= nn,
                per >= 0,
        ;
    }
    for i in 0..n
        invariant
            start == *old(budget),
            budget_grew(start, *budget),
            nested_wf(groups),
            nested_view(groups) == g,
            n == groups.key_seq().len(),
            first_by_actor.wf(),
            forall|a: ActorId| #[trigger] first_by_actor@.contains_key(a) <==> exists|q: int|
                0 <= q < i && groups.key_seq()[q].actor == a && #[trigger] conflicted(g, groups.key_seq()[q]),
            forall|a: ActorId| #[trigger] first_by_actor@.contains_key(a) ==> first_by_actor@[a].actor == a
                && group_ok(g, first_by_actor@[a]),
            first_by_actor@.dom().finite(),
            first_by_actor@.dom().len() <= i,
            g == grouping(candidates@, nn),
            nn == candidates@.len(),
            mc == max_carriers(candidates@) as int,
            eb == nn * mc,
            eb >= 0,
            per == 3 + nn * (1 + eb),
            nn * (1 + eb) >= 0,
            cost == gc + nn * per + nn,
            cost == detection_cost(nn, mc),
            n * per <= nn * per,
            n <= nn,
            never == (cancellation.never_cancels() && affords(start, cost)),
            gc >= 0,
            budget.usage().operations() <= start.usage().operations() + gc + i * per,
            forall|k: ActorSequence| #[trigger] g.contains_key(k) ==> g[k].dom().finite() && g[k].dom().len() <= nn,
            forall|k: ActorSequence, h: ChangeHash|
                g.contains_key(k) && #[trigger] g[k].contains_key(h) ==> g[k][h].finite() && g[k][h].len() <= nn * mc,
    {
        proof {
            assert((i + 1) * per == i * per + per) by (nonlinear_arith);
            assert((i + 1) * per <= n * per) by (nonlinear_arith)
                requires
                    i + 1 <= n,
                    per >= 0,
            ;
        }
        let ghost b0 = *budget;
        let c = charge_quarantine(budget, cancellation, WorkCounter::GraphNode, Ghost(start));
        if let Err(e) = c {
            return Err(e);
        }
        let key = groups.key_at(i);
        let changes = groups.value_at(i);
        proof {
            groups.lemma_position(i as int);
            assert(sets_wf(*changes));
            assert(g.contains_key(key));
            assert(g[key] == sets_view(*changes));
            assert(sets_view(*changes).dom() =~= changes@.dom());
            assert forall|h: ChangeHash| #[trigger] sets_view(*changes).contains_key(h) implies sets_view(*changes)[h].len()
                <= eb by {
                assert(g[key].contains_key(h));
            }
            assert(changes@.dom().len() * (1 + eb) <= nn * (1 + eb)) by (nonlinear_arith)
                requires
                    changes@.dom().len() <= nn,
                    eb >= 0,
            ;
        }
        let ghost old_fb = first_by_actor@;
        if changes.len() < 2 {
            proof {
                assert(!conflicted(g, key));
                assert forall|a: ActorId| #[trigger] first_by_actor@.contains_key(a) <==> exists|q: int|
                    0 <= q < i + 1 && groups.key_seq()[q].actor == a && #[trigger] conflicted(g, groups.key_seq()[q]) by {
                    if exists|q: int| 0 <= q < i + 1 && groups.key_seq()[q].actor == a && #[trigger] conflicted(g, groups.key_seq()[q]) {
                        let q = choose|q: int| 0 <= q < i + 1 && groups.key_seq()[q].actor == a && #[trigger] conflicted(g, groups.key_seq()[q]);
                        assert(q != i);
                    }
                }
            }
        } else {
            let c = charge_quarantine(budget, cancellation, WorkCounter::GraphNode, Ghost(start));
            if let Err(e) = c {
                return Err(e);
            }
            if first_by_actor.contains_key(&key.actor) {
                proof {
                    assert forall|a: ActorId| #[trigger] first_by_actor@.contains_key(a) <==> exists|q: int|
                        0 <= q < i + 1 && groups.key_seq()[q].actor == a && #[trigger] conflicted(g, groups.key_seq()[q]) by {
                        if exists|q: int| 0 <= q < i + 1 && groups.key_seq()[q].actor == a && #[trigger] conflicted(g, groups.key_seq()[q]) {
                            let q = choose|q: int| 0 <= q < i + 1 && groups.key_seq()[q].actor == a && #[trigger] conflicted(g, groups.key_seq()[q]);
                            if q == i {
                                assert(first_by_actor@.contains_key(key.actor));
                            }
                        }
                    }
                }
            } else {
                let collected = collect_group(changes, budget, cancellation, Ghost(start), Ghost(eb));
                let (conflicting_changes, carrier_event_ids) = match collected {
                    Ok(found) => found,
                    Err(e) => {
                        return Err(e);
                    },
                };
                let c = charge_quarantine(budget, cancellation, WorkCounter::GraphNode, Ghost(start));
                if let Err(e) = c {
                    return Err(e);
                }
                let group = EquivocationGroup {
                    actor: key.actor,
                    first_sequence: key.sequence,
                    conflicting_changes,
                    carrier_event_ids,
                };
                proof {
                    assert(conflicted(g, key));
                    assert(key == ActorSequence { actor: key.actor, sequence: key.sequence });
                    assert forall|s2: u64| s2 < key.sequence implies !#[trigger] conflicted(g, ActorSequence { actor: key.actor, sequence: s2 }) by {
                        let k2 = ActorSequence { actor: key.actor, sequence: s2 };
                        if conflicted(g, k2) {
                            assert(groups@.contains_key(k2));
                            let q = choose|q: int| 0 <= q < n && groups.key_seq()[q] == k2;
                            if q >= i {
                                if q > i {
                                    assert(groups.key_seq()[i as int].precedes(groups.key_seq()[q]));
                                }
                            }
                            assert(q < i);
                            assert(first_by_actor@.contains_key(key.actor));
                        }
                    }
                    assert(group_ok(g, group));
                }
                first_by_actor.insert(key.actor, group);
                proof {
                    assert forall|a: ActorId| #[trigger] first_by_actor@.contains_key(a) <==> exists|q: int|
                        0 <= q < i + 1 && groups.key_seq()[q].actor == a && #[trigger] conflicted(g, groups.key_seq()[q]) by {
                        if a == key.actor {
                            assert(groups.key_seq()[i as int].actor == a && conflicted(g, groups.key_seq()[i as int]));
                        } else {
                            if exists|q: int| 0 <= q < i + 1 && groups.key_seq()[q].actor == a && #[trigger] conflicted(g, groups.key_seq()[q]) {
                                let q = choose|q: int| 0 <= q < i + 1 && groups.key_seq()[q].actor == a && #[trigger] conflicted(g, groups.key_seq()[q]);
                                assert(q != i);
                            }
                        }
                    }
                    assert forall|a: ActorId| #[trigger] first_by_actor@.contains_key(a) implies first_by_actor@[a].actor == a
                        && group_ok(g, first_by_actor@[a]) by {
                        if a != key.actor {
                            assert(old_fb.contains_key(a));
                        }
                    }
                }

            }
        }
    }
    let m = first_by_actor.len();
    proof {
        assert(n * per <= nn * per);
    }
    for j in 0..m
        invariant
            start == *old(budget),
            budget_grew(start, *budget),
            m <= nn,
            nn == candidates@.len(),
            mc == max_carriers(candidates@) as int,
            cost == detection_cost(nn, mc),
            cost == gc + nn * per + nn,
            n * per <= nn * per,
            never == (cancellation.never_cancels() && affords(start, cost)),
            budget.usage().operations() <= start.usage().operations() + gc + n * per + j,
    {
        let c = charge_quarantine(budget, cancellation, WorkCounter::GraphNode, Ghost(start));
        if let Err(e) = c {
            return Err(e);
        }
    }
    let ghost fb = first_by_actor;
    let detected = first_by_actor.into_values();
    proof {
        fb.lemma_len();
        let v = detected@;
        assert forall|i: int| 0 <= i < v.len() implies (#[trigger] v[i]).actor == fb.key_seq()[i] && group_ok(g, v[i]) by {
            fb.lemma_position(i);
        }
        assert forall|i: int, j: int| 0 <= i < j < v.len() implies (#[trigger] v[i]).actor.precedes((#[trigger] v[j]).actor) by {
            fb.lemma_position(i);
            fb.lemma_position(j);
        }
        assert forall|k: ActorSequence| #[trigger] conflicted(g, k) implies exists|i: int| 0 <= i < v.len() && (#[trigger] v[i]).actor == k.actor by {
            assert(groups@.contains_key(k));
            let q = choose|q: int| 0 <= q < n && groups.key_seq()[q] == k;
            assert(fb@.contains_key(k.actor));
            let i = choose|i: int| 0 <= i < fb.key_seq().len() && fb.key_seq()[i] == k.actor;
            fb.lemma_position(i);
            assert(v[i].actor == k.actor);
        }
    }
    Ok(detected)
}

} // verus!

verus! {

/// The candidates of `m`, grouped by key, then by hash, with their carriers.
pub open spec fn map_grouping(m: Map<ChangeHash, ChangeCandidate>) -> Map<ActorSequence, Map<ChangeHash, Set<EventId>>> {
    Map::new(
        |k: ActorSequence| exists|h: ChangeHash| #[trigger] m.contains_key(h) && key_of(m[h]) == k,
        |k: ActorSequence|
            Map::new(
                |h: ChangeHash| m.contains_key(h) && key_of(m[h]) == k,
                |h: ChangeHash| m[h].valid_carriers@.to_set(),
            ),
    )
}

/// Grouping the values of a map keyed by change hash is grouping the map.
proof fn lemma_grouping_of_map(m: OrdMap<ChangeHash, ChangeCandidate>)
    requires
        m.wf(),
        forall|h: ChangeHash| #[trigger] m@.contains_key(h) ==> m@[h].change_hash == h,
    ensures
        grouping(m.val_seq(), m.val_seq().len() as int) == map_grouping(m@),
{
    let vs = m.val_seq();
    let n = vs.len() as int;
    let a = grouping(vs, n);
    let b = map_grouping(m@);
    assert forall|j: int| 0 <= j < n implies m@.contains_key(#[trigger] vs[j].change_hash) && m@[vs[j].change_hash] == vs[j]
        && m.key_seq()[j] == vs[j].change_hash by {
        m.lemma_position(j);
    }
    assert forall|h: ChangeHash| #[trigger] m@.contains_key(h) implies exists|j: int| 0 <= j < n && vs[j] == m@[h] && vs[j].change_hash == h by {
        let j = choose|j: int| 0 <= j < n && m.key_seq()[j] == h;
        m.lemma_position(j);
    }
    assert forall|k: ActorSequence| a.contains_key(k) <==> b.contains_key(k) by {
        if keys_of(vs, n).contains(k) {
            let j = choose|j: int| 0 <= j < n && #[trigger] key_of(vs[j]) == k;
            assert(m@.contains_key(vs[j].change_hash));
        }
        if b.contains_key(k) {
            let h = choose|h: ChangeHash| #[trigger] m@.contains_key(h) && key_of(m@[h]) == k;
            let j = choose|j: int| 0 <= j < n && vs[j] == m@[h] && vs[j].change_hash == h;
            assert(key_of(vs[j]) == k);
        }
    }
    assert forall|k: ActorSequence| a.contains_key(k) implies a[k] =~= b[k] by {
        assert forall|h: ChangeHash| a[k].contains_key(h) <==> b[k].contains_key(h) by {
            if hashes_at(vs, n, k).contains(h) {
                let j = choose|j: int| #[trigger] names_at(vs, n, j, k, h);
                assert(m@.contains_key(vs[j].change_hash));
            }
            if m@.contains_key(h) && key_of(m@[h]) == k {
                let j = choose|j: int| 0 <= j < n && vs[j] == m@[h] && vs[j].change_hash == h;
                assert(names_at(vs, n, j, k, h));
            }
        }
        assert forall|h: ChangeHash| a[k].contains_key(h) implies a[k][h] =~= b[k][h] by {
            assert forall|e: EventId| a[k][h].contains(e) <==> b[k][h].contains(e) by {
                if carriers_for(vs, n, k, h).contains(e) {
                    let j = choose|j: int| #[trigger] names_at(vs, n, j, k, h) && vs[j].valid_carriers@.contains(e);
                    assert(m@[vs[j].change_hash] == vs[j]);
                }
                if m@[h].valid_carriers@.to_set().contains(e) {
                    let j = choose|j: int| 0 <= j < n && vs[j] == m@[h] && vs[j].change_hash == h;
                    assert(names_at(vs, n, j, k, h) && vs[j].valid_carriers@.contains(e));
                }
            }
        }
    }
    assert(a =~= b);
}

} // verus!

verus! {

/// The hashes of the candidates of actor `a` after sequence `s`.
pub open spec fn later_hashes(pairs: Map<ActorId, Seq<SequencedHash>>, a: ActorId, s: u64) -> Set<ChangeHash> {
    Set::new(|h: ChangeHash| pairs.contains_key(a) && exists|i: int| 0 <= i < pairs[a].len() && #[trigger] pairs[a][i].hash == h && pairs[a][i].sequence > s)
}

/// Where a group's quarantine starts: its conflicting changes and every later change of its actor.
pub open spec fn quarantine_seed(grp: EquivocationGroup, pairs: Map<ActorId, Seq<SequencedHash>>) -> Set<ChangeHash> {
    grp.conflicting_changes@.union(later_hashes(pairs, grp.actor, grp.first_sequence))
}

/// The view of an actor-indexed table of (sequence, hash) pairs.
pub open spec fn pairs_view(m: OrdMap<ActorId, Vec<SequencedHash>>) -> Map<ActorId, Seq<SequencedHash>> {
    Map::new(|a: ActorId| m@.contains_key(a), |a: ActorId| m@[a]@)
}

/// Whether `s` lists the members of `set` in ascending order.
pub open spec fn lists(s: Seq<ChangeHash>, set: Set<ChangeHash>) -> bool {
    strictly_sorted(s) && s.to_set() == set
}

/// Every hash held by one of the first `i` of `vals`.
pub open spec fn held_in(vals: Seq<OrdSet<ChangeHash>>, i: int) -> Set<ChangeHash> {
    Set::new(|h: ChangeHash| exists|j: int| 0 <= j < i && #[trigger] vals[j]@.contains(h))
}

/// The hashes held by `i` sets of at most `d` members each number at most `i * d`.
proof fn lemma_held_in_bound(vals: Seq<OrdSet<ChangeHash>>, i: int, d: int)
    requires
        0 <= i <= vals.len(),
        d >= 0,
        forall|j: int| 0 <= j < i ==> (#[trigger] vals[j])@.len() <= d,
    ensures
        held_in(vals, i).finite(),
        held_in(vals, i).len() <= i * d,
    decreases i,
{
    if i == 0 {
        assert(held_in(vals, 0) =~= Set::<ChangeHash>::empty());
    } else {
        lemma_held_in_bound(vals, i - 1, d);
        assert(held_in(vals, i) =~= held_in(vals, i - 1).union(vals[i - 1]@));
        vstd::seq_lib::seq_to_set_is_finite(vals[i - 1].seq());
        vstd::set_lib::lemma_len_union(held_in(vals, i - 1), vals[i - 1]@);
        assert(i * d == (i - 1) * d + d) by (nonlinear_arith);
    }
}

/// The units quarantining one group charges at most when it has at most `n`
/// conflicting changes, its actor at most `n` recorded pairs, and the graph
/// `k` dependant sets of at most `d` members each.
pub open spec fn group_cost(n: int, k: int, d: int) -> int {
    3 * n + 1 + (2 * n + k * d) * (3 + d)
}

fn quarantine_group(
    grp: &EquivocationGroup,
    by_actor: &OrdMap<ActorId, Vec<SequencedHash>>,
    graph: &DependencyGraph,
    budget: &mut WorkBudget,
    cancellation: &impl CancellationCheck,
    Ghost(start): Ghost<WorkBudget>,
    Ghost(nb): Ghost<int>,
) -> (r: Result<(OrdSet<ChangeHash>, IntegrityAlert), QuarantineError>)
    requires
        budget_grew(start, *old(budget)),
        grp.conflicting_changes.wf(),
        grp.conflicting_changes@.len() >= 2,
        by_actor.wf(),
        graph.wf(),
        grp.conflicting_changes@.len() <= nb,
        pairs_view(*by_actor).contains_key(grp.actor) ==> pairs_view(*by_actor)[grp.actor].len() <= nb,
    ensures
        final(budget).usage().operations() <= old(budget).usage().operations() + group_cost(
            nb,
            graph.dependants@.dom().len() as int,
            max_set_len(graph.dependants.val_seq()) as int,
        ),
        cancellation.never_cancels() && affords(
            *old(budget),
            group_cost(nb, graph.dependants@.dom().len() as int, max_set_len(graph.dependants.val_seq()) as int),
        ) ==> (r is Ok || r matches Err(QuarantineError::Alert(_))),
        r matches Ok((affected, _)) ==> affected@.len() <= 2 * nb + graph.dependants@.dom().len() * max_set_len(
            graph.dependants.val_seq(),
        ),
        budget_grew(start, *final(budget)),
        r == Err::<(OrdSet<ChangeHash>, IntegrityAlert), QuarantineError>(QuarantineError::BudgetExhausted)
            ==> operations_exhausted(*final(budget)),
        r == Err::<(OrdSet<ChangeHash>, IntegrityAlert), QuarantineError>(QuarantineError::Cancelled)
            ==> !cancellation.never_cancels(),
        r matches Err(QuarantineError::Alert(_)) ==> grp.first_sequence == 0,
        r matches Ok((affected, alert)) ==> {
            &&& grp.first_sequence != 0
            &&& affected.wf()
            &&& reachable_set(sets_view(graph.dependants), quarantine_seed(*grp, pairs_view(*by_actor)), affected@)
            &&& alert matches IntegrityAlert::DeviceEquivocation(a) && {
                &&& a.actor() == grp.actor
                &&& a.sequence() == grp.first_sequence
                &&& lists(a.conflicts(), grp.conflicting_changes@)
                &&& lists(a.descendants(), affected@.difference(grp.conflicting_changes@))
            }
        },
{
    let ghost deps = sets_view(graph.dependants);
    let ghost seed = quarantine_seed(*grp, pairs_view(*by_actor));
    let ghost e0 = *budget;
    let ghost kk = graph.dependants@.dom().len() as int;
    let ghost dd = max_set_len(graph.dependants.val_seq()) as int;
    let ghost pp = 2 * nb + kk * dd;
    let ghost cost = group_cost(nb, kk, dd);
    let ghost never = cancellation.never_cancels() && affords(e0, cost);
    let ghost vals = graph.dependants.val_seq();
    let ghost u = held_in(vals, kk);
    proof {
        assert(kk * dd >= 0) by (nonlinear_arith)
            requires
                kk >= 0,
                dd >= 0,
        ;
        assert(pp * (1 + dd) >= pp) by (nonlinear_arith)
            requires
                pp >= 0,
                dd >= 0,
        ;
        assert(cost == 3 * nb + 1 + pp * (1 + dd) + 2 * pp) by (nonlinear_arith)
            requires
                cost == 3 * nb + 1 + (2 * nb + kk * dd) * (3 + dd),
                pp == 2 * nb + kk * dd,
        ;
        graph.dependants.lemma_len();
        assert forall|j: int| 0 <= j < kk implies (#[trigger] vals[j])@.len() <= dd by {
            lemma_max_set_len(vals, j);
        }
        lemma_held_in_bound(vals, kk, dd);
        assert forall|x: ChangeHash| #[trigger] deps.contains_key(x) implies deps[x].subset_of(u) by {
            let q = choose|q: int| 0 <= q < graph.dependants.key_seq().len() && graph.dependants.key_seq()[q] == x;
            graph.dependants.lemma_position(q);
            assert forall|y: ChangeHash| deps[x].contains(y) implies u.contains(y) by {
                assert(vals[q]@.contains(y));
            }
        }
        vstd::seq_lib::seq_to_set_is_finite(grp.conflicting_changes.seq());
    }
    let mut affected: OrdSet<ChangeHash> = OrdSet::new();
    let n = grp.conflicting_changes.len();
    for i in 0..n
        invariant
            budget_grew(start, *budget),
            grp.conflicting_changes.wf(),
            n == grp.conflicting_changes.seq().len(),
            affected.wf(),
            affected@ == grp.conflicting_changes.seq().take(i as int).to_set(),
            e0 == *old(budget),
            budget_grew(e0, *budget),
            nb >= 0,
            dd >= 0,
            kk * dd >= 0,
            pp == 2 * nb + kk * dd,
            cost == group_cost(nb, kk, dd),
            pp * (1 + dd) >= pp,
            cost == 3 * nb + 1 + pp * (1 + dd) + 2 * pp,
            kk == graph.dependants@.dom().len() as int,
            dd == max_set_len(graph.dependants.val_seq()) as int,
            never == (cancellation.never_cancels() && affords(e0, cost)),
            n <= nb,
            affected@.finite(),
            affected@.len() <= i,
            budget.usage().operations() <= e0.usage().operations() + i,
    {
        let ghost b0 = *budget;
        let c = charge_quarantine(budget, cancellation, WorkCounter::GraphNode, Ghost(start));
        proof {
            lemma_budget_grew_trans(e0, b0, *budget);
        }
        if let Err(e) = c {
            return Err(e);
        }
        let hash = grp.conflicting_changes.get(i);
        affected.insert(hash);
        proof {
            assert(grp.conflicting_changes.seq().take(i + 1) =~= grp.conflicting_changes.seq().take(i as int).push(hash));
            grp.conflicting_changes.seq().take(i as int).lemma_push_to_set_commute(hash);
        }
    }
    proof {
        assert(grp.conflicting_changes.seq().take(n as int) =~= grp.conflicting_changes.seq());
    }
    let ghost b0 = *budget;
    let c = charge_quarantine(budget, cancellation, WorkCounter::GraphNode, Ghost(start));
    proof {
        lemma_budget_grew_trans(e0, b0, *budget);
    }
    if let Err(e) = c {
        return Err(e);
    }
    let ghost conf = affected@;
    let ghost mut lm: int = 0;
    match by_actor.get(&grp.actor) {
        Some(list) => {
            let m = list.len();
            proof {
                assert(pairs_view(*by_actor)[grp.actor] == list@);
            }
            for k in 0..m
                invariant
                    budget_grew(start, *budget),
                    m == list@.len(),
                    affected.wf(),
                    affected@ == conf.union(Set::new(|h: ChangeHash| exists|q: int| 0 <= q < k && #[trigger] list@[q].hash == h
                        && list@[q].sequence > grp.first_sequence)),
                    e0 == *old(budget),
                    budget_grew(e0, *budget),
                    nb >= 0,
                    dd >= 0,
                    kk * dd >= 0,
                    pp == 2 * nb + kk * dd,
                    cost == group_cost(nb, kk, dd),
                    pp * (1 + dd) >= pp,
                    cost == 3 * nb + 1 + pp * (1 + dd) + 2 * pp,
                    kk == graph.dependants@.dom().len() as int,
                    dd == max_set_len(graph.dependants.val_seq()) as int,
                    never == (cancellation.never_cancels() && affords(e0, cost)),
                    n <= nb,
                    m <= nb,
                    affected@.finite(),
                    affected@.len() <= n + k,
                    budget.usage().operations() <= e0.usage().operations() + n + 1 + k,
            {
                let ghost b1 = *budget;
                let c = charge_quarantine(budget, cancellation, WorkCounter::GraphNode, Ghost(start));
                proof {
                    lemma_budget_grew_trans(e0, b1, *budget);
                }
                if let Err(e) = c {
                    return Err(e);
                }
                let entry = list[k];
                if entry.sequence > grp.first_sequence {
                    affected.insert(entry.hash);
                }
                proof {
                    assert(list@[k as int] == entry);
                    assert(affected@ =~= conf.union(Set::new(|h: ChangeHash| exists|q: int| 0 <= q < k + 1 && #[trigger] list@[q].hash == h
                        && list@[q].sequence > grp.first_sequence)));
                }
            }
            proof {
                assert(pairs_view(*by_actor)[grp.actor] == list@);
                assert(affected@ =~= seed);
                lm = m as int;
            }
        },
        None => {
            proof {
                assert(later_hashes(pairs_view(*by_actor), grp.actor, grp.first_sequence) =~= Set::<ChangeHash>::empty());
                assert(affected@ =~= seed);
            }
        },
    }
    let mut queue: Vec<ChangeHash> = Vec::new();
    let a_len = affected.len();
    proof {
        vstd::seq_lib::seq_to_set_is_finite(affected.seq());
    }
    for i in 0..a_len
        invariant
            budget_grew(start, *budget),
            affected.wf(),
            a_len == affected.seq().len(),
            queue@ == affected.seq().take(i as int),
            e0 == *old(budget),
            budget_grew(e0, *budget),
            nb >= 0,
            dd >= 0,
            kk * dd >= 0,
            pp == 2 * nb + kk * dd,
            cost == group_cost(nb, kk, dd),
            pp * (1 + dd) >= pp,
            cost == 3 * nb + 1 + pp * (1 + dd) + 2 * pp,
            kk == graph.dependants@.dom().len() as int,
            dd == max_set_len(graph.dependants.val_seq()) as int,
            never == (cancellation.never_cancels() && affords(e0, cost)),
            n <= nb,
            0 <= lm <= nb,
            a_len == affected@.len(),
            a_len <= n + lm,
            budget.usage().operations() <= e0.usage().operations() + n + 1 + lm + i,
    {
        let ghost b1 = *budget;
        let c = charge_quarantine(budget, cancellation, WorkCounter::GraphNode, Ghost(start));
        proof {
            lemma_budget_grew_trans(e0, b1, *budget);
        }
        if let Err(e) = c {
            return Err(e);
        }
        queue.push(affected.get(i));
        proof {
            assert(affected.seq().take(i + 1) =~= affected.seq().take(i as int).push(affected.seq()[i as int]));
        }
    }
    proof {
        assert(affected.seq().take(a_len as int) =~= affected.seq());
        crate::ordered::lemma_sorted_no_duplicates(affected.seq());
        assert forall|t: Set<ChangeHash>| #[trigger] closed_from(deps, seed, t) implies affected@.subset_of(t) by {}
    }
    budget_within_limits(budget);
    let ghost s0 = affected@;
    let ghost base0 = budget.usage().operations();
    proof {
        assert(base0 + pp * (1 + dd) + pp + nb <= e0.usage().operations() + cost);
    }
    while queue.len() > 0
        invariant
            budget_grew(start, *budget),
            budget.usage().operations() <= budget.operation_limit(),
            graph.wf(),
            deps == sets_view(graph.dependants),
            affected.wf(),
            seed.subset_of(affected@),
            queue@.no_duplicates(),
            queue@.to_set().subset_of(affected@),
            forall|x: ChangeHash| #[trigger] affected@.contains(x) && !queue@.contains(x) && deps.contains_key(x)
                ==> deps[x].subset_of(affected@),
            forall|t: Set<ChangeHash>| #[trigger] closed_from(deps, seed, t) ==> affected@.subset_of(t),
            e0 == *old(budget),
            budget_grew(e0, *budget),
            nb >= 0,
            dd >= 0,
            kk * dd >= 0,
            pp == 2 * nb + kk * dd,
            cost == group_cost(nb, kk, dd),
            pp * (1 + dd) >= pp,
            cost == 3 * nb + 1 + pp * (1 + dd) + 2 * pp,
            kk == graph.dependants@.dom().len() as int,
            dd == max_set_len(graph.dependants.val_seq()) as int,
            never == (cancellation.never_cancels() && affords(e0, cost)),
            vals == graph.dependants.val_seq(),
            u == held_in(vals, kk),
            u.finite(),
            u.len() <= kk * dd,
            forall|x: ChangeHash| #[trigger] deps.contains_key(x) ==> deps[x].subset_of(u),
            s0.finite(),
            s0.len() <= 2 * nb,
            affected@.finite(),
            affected@.subset_of(s0.union(u)),
            base0 + pp * (1 + dd) + pp + nb <= e0.usage().operations() + cost,
            budget.usage().operations() <= base0 + (affected@.len() - queue@.len()) * (1 + dd),
        decreases room(*budget),
    {
        proof {
            queue@.unique_seq_to_set();
            vstd::set_lib::lemma_len_subset(queue@.to_set(), affected@);
            vstd::set_lib::lemma_len_union(s0, u);
            vstd::set_lib::lemma_len_subset(affected@, s0.union(u));
            assert(queue@.len() >= 1);
            assert((affected@.len() - queue@.len()) * (1 + dd) + 1 <= pp * (1 + dd)) by (nonlinear_arith)
                requires
                    0 <= affected@.len() - queue@.len() <= pp - 1,
                    dd >= 0,
            ;
        }
        let ghost b1 = *budget;
        let c = charge_quarantine(budget, cancellation, WorkCounter::GraphNode, Ghost(start));
        proof {
            lemma_budget_grew_trans(e0, b1, *budget);
        }
        if let Err(e) = c {
            return Err(e);
        }
        let ghost before = queue@;
        let hash = queue.pop().unwrap();
        proof {
            assert(budget.usage().operations() <= base0 + (affected@.len() - queue@.len() - 1) * (1 + dd) + 1);
            assert(before =~= queue@.push(hash));
            assert(!queue@.contains(hash)) by {
                if queue@.contains(hash) {
                    let j = choose|j: int| 0 <= j < queue@.len() && queue@[j] == hash;
                    assert(before[j] == before[before.len() - 1]);
                }
            }
            assert(before.contains(hash));
            assert forall|x: ChangeHash| queue@.contains(x) implies before.contains(x) by {
                let j = choose|j: int| 0 <= j < queue@.len() && queue@[j] == x;
                assert(before[j] == x);
            }
        }
        let ghost iter_room = room(*budget);
        match graph.dependants.get(&hash) {
            Some(ds) => {
                proof {
                    assert(ds.wf());
                    assert(deps.contains_key(hash) && deps[hash] == ds@);
                }
                let count = ds.len();
                proof {
                    graph.dependants.lemma_len();
                    assert(graph.dependants.key_seq().to_set().contains(hash));
                    let q = choose|q: int| 0 <= q < graph.dependants.key_seq().len() && graph.dependants.key_seq()[q] == hash;
                    graph.dependants.lemma_position(q);
                    lemma_max_set_len(vals, q);
                }
                let mut j = count;
                while j > 0
                    invariant
                        budget_grew(start, *budget),
                        budget.usage().operations() <= budget.operation_limit(),
                        room(*budget) <= iter_room,
                        graph.wf(),
                        deps == sets_view(graph.dependants),
                        ds.wf(),
                        deps.contains_key(hash),
                        deps[hash] == ds@,
                        count == ds.seq().len(),
                        j <= count,
                        affected.wf(),
                        affected@.contains(hash),
                        !queue@.contains(hash),
                        seed.subset_of(affected@),
                        queue@.no_duplicates(),
                        queue@.to_set().subset_of(affected@),
                        forall|x: ChangeHash| #[trigger] affected@.contains(x) && !queue@.contains(x) && deps.contains_key(x)
                            && x != hash ==> deps[x].subset_of(affected@),
                        forall|q: int| j <= q < count ==> affected@.contains(#[trigger] ds.seq()[q]),
                        forall|t: Set<ChangeHash>| #[trigger] closed_from(deps, seed, t) ==> affected@.subset_of(t),
                        e0 == *old(budget),
                        budget_grew(e0, *budget),
                        nb >= 0,
                        dd >= 0,
                        kk * dd >= 0,
                        pp == 2 * nb + kk * dd,
                        cost == group_cost(nb, kk, dd),
                        pp * (1 + dd) >= pp,
                        cost == 3 * nb + 1 + pp * (1 + dd) + 2 * pp,
                        kk == graph.dependants@.dom().len() as int,
                        dd == max_set_len(graph.dependants.val_seq()) as int,
                        never == (cancellation.never_cancels() && affords(e0, cost)),
                        vals == graph.dependants.val_seq(),
                        u == held_in(vals, kk),
                        u.finite(),
                        u.len() <= kk * dd,
                        forall|x: ChangeHash| #[trigger] deps.contains_key(x) ==> deps[x].subset_of(u),
                        s0.finite(),
                        s0.len() <= 2 * nb,
                        affected@.finite(),
                        affected@.subset_of(s0.union(u)),
                        base0 + pp * (1 + dd) + pp + nb <= e0.usage().operations() + cost,
                        count <= dd,
                        budget.usage().operations() <= base0 + (affected@.len() - queue@.len() - 1) * (1 + dd) + 1 + (
                        count - j),
                    decreases j,
                {
                    j = j - 1;
                    proof {
                        queue@.unique_seq_to_set();
                        assert(queue@.to_set().subset_of(affected@.remove(hash)));
                        vstd::set_lib::lemma_len_subset(queue@.to_set(), affected@.remove(hash));
                        vstd::set_lib::lemma_len_union(s0, u);
                        vstd::set_lib::lemma_len_subset(affected@, s0.union(u));
                        assert((affected@.len() - queue@.len() - 1) * (1 + dd) + 1 + dd == (affected@.len()
                            - queue@.len()) * (1 + dd)) by (nonlinear_arith);
                        assert((affected@.len() - queue@.len()) * (1 + dd) <= pp * (1 + dd)) by (nonlinear_arith)
                            requires
                                affected@.len() - queue@.len() <= pp,
                                dd >= 0,
                        ;
                    }
                    let ghost b2 = *budget;
                    let c = charge_quarantine(budget, cancellation, WorkCounter::GraphEdge, Ghost(start));
                    proof {
                        lemma_budget_grew_trans(e0, b2, *budget);
                    }
                    if let Err(e) = c {
                        return Err(e);
                    }
                    let dependant = ds.get(j);
                    let ghost old_affected = affected@;
                    let ghost old_queue = queue@;
                    if affected.insert(dependant) {
                        queue.push(dependant);
                        proof {
                            assert(queue@ =~= old_queue.push(dependant));
                            assert(queue@.no_duplicates()) by {
                                assert(!old_queue.contains(dependant)) by {
                                    if old_queue.contains(dependant) {
                                        assert(old_queue.to_set().contains(dependant));
                                    }
                                }
                            }
                            assert forall|x: ChangeHash| queue@.to_set().contains(x) implies affected@.contains(x) by {
                                if x != dependant {
                                    let q = choose|q: int| 0 <= q < queue@.len() && queue@[q] == x;
                                    assert(old_queue[q] == x);
                                    assert(old_queue.to_set().contains(x));
                                }
                            }
                            assert(!queue@.contains(hash)) by {
                                if queue@.contains(hash) {
                                    let q = choose|q: int| 0 <= q < queue@.len() && queue@[q] == hash;
                                    if q < old_queue.len() {
                                        assert(old_queue[q] == hash);
                                    }
                                }
                            }
                            assert forall|x: ChangeHash| #[trigger] affected@.contains(x) && !queue@.contains(x) && deps.contains_key(x)
                                && x != hash implies deps[x].subset_of(affected@) by {
                                if x != dependant {
                                    assert(old_affected.contains(x));
                                    if old_queue.contains(x) {
                                        let q = choose|q: int| 0 <= q < old_queue.len() && old_queue[q] == x;
                                        assert(queue@[q] == x);
                                    }
                                } else {
                                    assert(queue@[queue@.len() - 1] == dependant);
                                }
                            }
                            assert forall|t: Set<ChangeHash>| #[trigger] closed_from(deps, seed, t) implies affected@.subset_of(t) by {
                                assert(old_affected.subset_of(t));
                                assert(t.contains(hash));
                                assert(ds.seq().contains(dependant));
                                assert(deps[hash].subset_of(t));
                            }
                        }
                    }
                }
                proof {
                    assert forall|y: ChangeHash| deps[hash].contains(y) implies affected@.contains(y) by {
                        let q = choose|q: int| 0 <= q < count && ds.seq()[q] == y;
                        assert(affected@.contains(ds.seq()[q]));
                    }
                    assert((affected@.len() - queue@.len() - 1) * (1 + dd) + 1 + dd == (affected@.len()
                        - queue@.len()) * (1 + dd)) by (nonlinear_arith);
                }
            },
            None => {
                proof {
                    assert((affected@.len() - queue@.len() - 1) * (1 + dd) + 1 + dd == (affected@.len()
                        - queue@.len()) * (1 + dd)) by (nonlinear_arith);
                }
            },
        }
    }
    proof {
        assert(queue@.len() == 0);
        assert(closed_from(deps, seed, affected@)) by {
            assert forall|x: ChangeHash| #[trigger] affected@.contains(x) && deps.contains_key(x) implies deps[x].subset_of(affected@) by {
                assert(!queue@.contains(x));
            }
        }
        vstd::set_lib::lemma_len_union(s0, u);
        vstd::set_lib::lemma_len_subset(affected@, s0.union(u));
        assert(affected@.len() * (1 + dd) <= pp * (1 + dd)) by (nonlinear_arith)
            requires
                affected@.len() <= pp,
                dd >= 0,
        ;
        crate::ordered::lemma_sorted_no_duplicates(affected.seq());
        affected.seq().unique_seq_to_set();
    }
    let mut descendants: Vec<ChangeHash> = Vec::new();
    let total = affected.len();
    for i in 0..total
        invariant
            budget_grew(start, *budget),
            affected.wf(),
            grp.conflicting_changes.wf(),
            total == affected.seq().len(),
            strictly_sorted(descendants@),
            forall|j: int, q: int| 0 <= j < descendants@.len() && i <= q < total ==> (#[trigger] descendants@[j]).precedes(
                #[trigger] affected.seq()[q]),
            descendants@.to_set() == affected.seq().take(i as int).to_set().difference(grp.conflicting_changes@),
            e0 == *old(budget),
            budget_grew(e0, *budget),
            nb >= 0,
            dd >= 0,
            kk * dd >= 0,
            pp == 2 * nb + kk * dd,
            cost == group_cost(nb, kk, dd),
            pp * (1 + dd) >= pp,
            cost == 3 * nb + 1 + pp * (1 + dd) + 2 * pp,
            kk == graph.dependants@.dom().len() as int,
            dd == max_set_len(graph.dependants.val_seq()) as int,
            never == (cancellation.never_cancels() && affords(e0, cost)),
            total <= pp,
            base0 + pp * (1 + dd) + pp + nb <= e0.usage().operations() + cost,
            budget.usage().operations() <= base0 + pp * (1 + dd) + i,
    {
        let ghost b1 = *budget;
        let c = charge_quarantine(budget, cancellation, WorkCounter::GraphNode, Ghost(start));
        proof {
            lemma_budget_grew_trans(e0, b1, *budget);
        }
        if let Err(e) = c {
            return Err(e);
        }
        let hash = affected.get(i);
        let ghost old_d = descendants@;
        if !grp.conflicting_changes.contains(&hash) {
            descendants.push(hash);
            proof {
                assert forall|a: int, b: int| 0 <= a < b < descendants@.len() implies #[trigger] descendants@[a].precedes(#[trigger] descendants@[b]) by {
                    if b == descendants@.len() - 1 {
                        assert(old_d[a].precedes(affected.seq()[i as int]));
                    } else {
                        assert(old_d[a].precedes(old_d[b]));
                    }
                }
                assert forall|j: int, q: int| 0 <= j < descendants@.len() && i + 1 <= q < total implies (#[trigger] descendants@[j]).precedes(
                    #[trigger] affected.seq()[q]) by {
                    if j < old_d.len() {
                        assert(old_d[j].precedes(affected.seq()[q]));
                    } else {
                        assert(affected.seq()[i as int].precedes(affected.seq()[q]));
                    }
                }
                old_d.lemma_push_to_set_commute(hash);
            }
        }
        proof {
            assert(affected.seq().take(i + 1) =~= affected.seq().take(i as int).push(hash));
            affected.seq().take(i as int).lemma_push_to_set_commute(hash);
            assert(descendants@.to_set() =~= affected.seq().take(i + 1).to_set().difference(grp.conflicting_changes@));
        }
    }
    proof {
        assert(affected.seq().take(total as int) =~= affected.seq());
    }
    let mut conflicting: Vec<ChangeHash> = Vec::new();
    proof {
        crate::ordered::lemma_sorted_no_duplicates(affected.seq());
        affected.seq().unique_seq_to_set();
    }
    for i in 0..n
        invariant
            budget_grew(start, *budget),
            grp.conflicting_changes.wf(),
            n == grp.conflicting_changes.seq().len(),
            conflicting@ == grp.conflicting_changes.seq().take(i as int),
            e0 == *old(budget),
            budget_grew(e0, *budget),
            nb >= 0,
            dd >= 0,
            kk * dd >= 0,
            pp == 2 * nb + kk * dd,
            cost == group_cost(nb, kk, dd),
            pp * (1 + dd) >= pp,
            cost == 3 * nb + 1 + pp * (1 + dd) + 2 * pp,
            kk == graph.dependants@.dom().len() as int,
            dd == max_set_len(graph.dependants.val_seq()) as int,
            never == (cancellation.never_cancels() && affords(e0, cost)),
            n <= nb,
            base0 + pp * (1 + dd) + pp + nb <= e0.usage().operations() + cost,
            budget.usage().operations() <= base0 + pp * (1 + dd) + pp + i,
            affected.wf(),
            affected@.len() <= pp,
    {
        let ghost b1 = *budget;
        let c = charge_quarantine(budget, cancellation, WorkCounter::GraphNode, Ghost(start));
        proof {
            lemma_budget_grew_trans(e0, b1, *budget);
        }
        if let Err(e) = c {
            return Err(e);
        }
        conflicting.push(grp.conflicting_changes.get(i));
        proof {
            assert(grp.conflicting_changes.seq().take(i + 1) =~= grp.conflicting_changes.seq().take(i as int).push(
                grp.conflicting_changes.seq()[i as int]));
        }
    }
    proof {
        assert(grp.conflicting_changes.seq().take(n as int) =~= grp.conflicting_changes.seq());
    }
    if grp.first_sequence == 0 {
        return Err(QuarantineError::Alert(AlertError));
    }
    proof {
        crate::ordered::lemma_sorted_no_duplicates(grp.conflicting_changes.seq());
    }
    let alert = IntegrityAlert::DeviceEquivocation(
        DeviceEquivocationAlert::from_validated_parts(grp.actor, grp.first_sequence, conflicting, descendants),
    );
    Ok((affected, alert))
}

} // verus!

verus! {

/// The hashes of the inputs of actor `a` whose sequence is after `s`.
pub open spec fn later_input_hashes(cs: Seq<ChangeCandidate>, a: ActorId, s: u64) -> Set<ChangeHash> {
    Set::new(|h: ChangeHash| exists|j: int| 0 <= j < cs.len() && cs[j].actor == a && cs[j].sequence > s && #[trigger] cs[j].change_hash == h)
}

/// A candidate's sequence number and hash.
pub open spec fn pair_of(c: ChangeCandidate) -> SequencedHash {
    SequencedHash { sequence: c.sequence, hash: c.change_hash }
}

/// `pairs` records `p` for actor `a`.
pub open spec fn has_pair(pairs: Map<ActorId, Seq<SequencedHash>>, a: ActorId, p: SequencedHash) -> bool {
    pairs.contains_key(a) && pairs[a].contains(p)
}

/// `pairs` holds exactly the (sequence, hash) pairs of the inputs from position `from` on, by actor.
pub open spec fn pairs_of_inputs(pairs: Map<ActorId, Seq<SequencedHash>>, cs: Seq<ChangeCandidate>, from: int) -> bool {
    forall|a: ActorId, p: SequencedHash| #[trigger] has_pair(pairs, a, p) <==> exists|j: int|
        from <= j < cs.len() && cs[j].actor == a && #[trigger] pair_of(cs[j]) == p
}

/// An input from position `from` on has its pair recorded.
proof fn lemma_pairs_member(
    pairs: Map<ActorId, Seq<SequencedHash>>,
    cs: Seq<ChangeCandidate>,
    from: int,
    a: ActorId,
    p: SequencedHash,
    j: int,
)
    requires
        pairs_of_inputs(pairs, cs, from),
        from <= j < cs.len(),
        cs[j].actor == a,
        pair_of(cs[j]) == p,
    ensures
        has_pair(pairs, a, p),
{
    assert(has_pair(pairs, a, p) <==> exists|j2: int|
        from <= j2 < cs.len() && cs[j2].actor == a && #[trigger] pair_of(cs[j2]) == p);
}

fn push_pair(m: &mut OrdMap<ActorId, Vec<SequencedHash>>, actor: ActorId, pair: SequencedHash)
    requires
        old(m).wf(),
    ensures
        final(m).wf(),
        forall|a: ActorId, p: SequencedHash| #[trigger] has_pair(pairs_view(*final(m)), a, p)
            <==> (has_pair(pairs_view(*old(m)), a, p) || (a == actor && p == pair)),
        forall|a: ActorId| #[trigger] pairs_view(*final(m)).contains_key(a) ==> pairs_view(*final(m))[a].len() <= 1 + (
        if pairs_view(*old(m)).contains_key(a) {
            pairs_view(*old(m))[a].len() as int
        } else {
            0
        }),
{
    let ghost old_m = *m;
    match m.index_of(&actor) {
        Some(i) => {
            proof {
                m.lemma_position(i as int);
            }
            let ghost old_list = m.val_seq()[i as int]@;
            let list = m.value_mut_at(i);
            list.push(pair);
            proof {
                let new_list = m.val_seq()[i as int];
                OrdMap::lemma_view_update(&old_m, m, i as int, new_list);
                assert(new_list@ == old_list.push(pair));
                assert forall|a: ActorId, p: SequencedHash| #[trigger] has_pair(pairs_view(*m), a, p)
                    <==> (has_pair(pairs_view(old_m), a, p) || (a == actor && p == pair)) by {
                    if a == actor {
                        if old_list.contains(p) {
                            let q = choose|q: int| 0 <= q < old_list.len() && old_list[q] == p;
                            assert(new_list@[q] == p);
                        }
                        if new_list@.contains(p) && p != pair {
                            let q = choose|q: int| 0 <= q < new_list@.len() && new_list@[q] == p;
                            assert(q < old_list.len());
                            assert(old_list[q] == p);
                        }
                        if p == pair {
                            assert(new_list@[old_list.len() as int] == p);
                        }
                    }
                }
            }
        },
        None => {
            let mut list: Vec<SequencedHash> = Vec::new();
            list.push(pair);
            m.insert(actor, list);
            proof {
                assert forall|a: ActorId, p: SequencedHash| #[trigger] has_pair(pairs_view(*m), a, p)
                    <==> (has_pair(pairs_view(old_m), a, p) || (a == actor && p == pair)) by {
                    if a == actor && p == pair {
                        assert(list@[0] == p);
                    }
                }
            }
        },
    }
}

fn collect_inputs(
    inputs: Vec<ChangeCandidate>,
    budget: &mut WorkBudget,
    cancellation: &impl CancellationCheck,
    Ghost(start): Ghost<WorkBudget>,
) -> (r: Result<(OrdMap<ChangeHash, ChangeCandidate>, OrdMap<ActorId, Vec<SequencedHash>>), QuarantineError>)
    requires
        budget_grew(start, *old(budget)),
    ensures
        budget_grew(start, *final(budget)),
        r == Err::<(OrdMap<ChangeHash, ChangeCandidate>, OrdMap<ActorId, Vec<SequencedHash>>), QuarantineError>(
            QuarantineError::BudgetExhausted) ==> operations_exhausted(*final(budget)),
        r == Err::<(OrdMap<ChangeHash, ChangeCandidate>, OrdMap<ActorId, Vec<SequencedHash>>), QuarantineError>(
            QuarantineError::Cancelled) ==> !cancellation.never_cancels(),
        r matches Err(e) ==> e is BudgetExhausted || e is Cancelled,
        r matches Ok((cands, by_actor)) ==> {
            &&& cands.wf()
            &&& cands@ == latest_map(inputs@)
            &&& forall|h: ChangeHash| #[trigger] cands@.contains_key(h) ==> cands@[h].change_hash == h
            &&& by_actor.wf()
            &&& pairs_of_inputs(pairs_view(by_actor), inputs@, 0)
        },
        cancellation.never_cancels() && operations_exhausted(*old(budget)) && inputs@.len() > 0 ==> r
            == Err::<(OrdMap<ChangeHash, ChangeCandidate>, OrdMap<ActorId, Vec<SequencedHash>>), QuarantineError>(
            QuarantineError::BudgetExhausted,
        ),
        r matches Ok((cands, by_actor)) ==> forall|a: ActorId| #[trigger] pairs_view(by_actor).contains_key(a)
            ==> pairs_view(by_actor)[a].len() <= inputs@.len(),
        final(budget).usage().operations() <= old(budget).usage().operations() + inputs@.len(),
        cancellation.never_cancels() && affords(*old(budget), inputs@.len() as int) ==> r is Ok,
{
    let ghost entry = *budget;
    let ghost orig = inputs@;
    let n = inputs.len();
    let mut cands: OrdMap<ChangeHash, ChangeCandidate> = OrdMap::new();
    let mut by_actor: OrdMap<ActorId, Vec<SequencedHash>> = OrdMap::new();
    let mut rest = inputs;
    proof {
        assert forall|a: ActorId, p: SequencedHash| #[trigger] has_pair(pairs_view(by_actor), a, p)
            <==> exists|j: int| n <= j < orig.len() && orig[j].actor == a && #[trigger] pair_of(orig[j]) == p by {}
    }
    while rest.len() > 0
        invariant
            budget_grew(start, *budget),
            orig.len() == n,
            rest@.len() <= n,
            rest@ == orig.subrange(0, rest@.len() as int),
            cands.wf(),
            by_actor.wf(),
            pairs_of_inputs(pairs_view(by_actor), orig, rest@.len() as int),
            forall|h: ChangeHash| #[trigger] cands@.contains_key(h) <==> exists|i: int|
                rest@.len() <= i < n && orig[i].change_hash == h,
            forall|h: ChangeHash| #[trigger] cands@.contains_key(h) ==> exists|i: int|
                rest@.len() <= i < n && is_last_index(orig, i) && orig[i].change_hash == h
                    && cands@[h] == orig[i],
            entry == *old(budget),
            budget_grew(entry, *budget),
            rest@.len() < n ==> entry.usage().operations() < entry.operation_limit(),
            budget.usage().operations() <= entry.usage().operations() + (n - rest@.len()),
            forall|a: ActorId| #[trigger] pairs_view(by_actor).contains_key(a) ==> pairs_view(by_actor)[a].len() <= n
                - rest@.len(),
            n == inputs@.len(),
        decreases rest@.len(),
    {
        proof {
            lemma_grew_operations(entry, *budget);
        }
        let ghost b0 = *budget;
        let c = charge_quarantine(budget, cancellation, WorkCounter::GraphNode, Ghost(start));
        proof {
            lemma_budget_grew_trans(entry, b0, *budget);
        }
        if let Err(e) = c {
            return Err(e);
        }
        let ghost k = rest@.len();
        let ghost before = rest@;
        let candidate = rest.pop().unwrap();
        proof {
            assert(before[k - 1] == orig[k - 1]);
            assert(candidate == orig[k - 1]);
        }
        let ghost old_pairs = pairs_view(by_actor);
        assert(pairs_of_inputs(old_pairs, orig, k as int));
        push_pair(&mut by_actor, candidate.actor, SequencedHash { sequence: candidate.sequence, hash: candidate.change_hash });
        proof {
            assert forall|a: ActorId, p: SequencedHash| #[trigger] has_pair(pairs_view(by_actor), a, p)
                <==> exists|j: int| k - 1 <= j < orig.len() && orig[j].actor == a && #[trigger] pair_of(orig[j]) == p by {
                if exists|j: int| k - 1 <= j < orig.len() && orig[j].actor == a && #[trigger] pair_of(orig[j]) == p {
                    let j = choose|j: int| k - 1 <= j < orig.len() && orig[j].actor == a && #[trigger] pair_of(orig[j]) == p;
                    if j >= k {
                        lemma_pairs_member(old_pairs, orig, k as int, a, p, j);
                    }
                }
                if has_pair(pairs_view(by_actor), a, p) {
                    if has_pair(old_pairs, a, p) {
                        let j = choose|j: int| k <= j < orig.len() && orig[j].actor == a && #[trigger] pair_of(orig[j]) == p;
                        assert(k - 1 <= j);
                    } else {
                        assert(pair_of(orig[k - 1]) == p);
                    }
                }
            }
        }
        let ghost old_cands = cands@;
        if !cands.contains_key(&candidate.change_hash) {
            let ghost c = candidate;
            proof {
                assert forall|j: int| k - 1 < j < n implies #[trigger] orig[j].change_hash != orig[k - 1].change_hash by {
                    if orig[j].change_hash == orig[k - 1].change_hash {
                        assert(cands@.contains_key(orig[j].change_hash));
                    }
                }
            }
            cands.insert(candidate.change_hash, candidate);
            proof {
                assert forall|h: ChangeHash| #[trigger] cands@.contains_key(h) implies exists|i: int|
                    k - 1 <= i < n && is_last_index(orig, i) && orig[i].change_hash == h && cands@[h] == orig[i] by {
                    if h == c.change_hash {
                        assert(is_last_index(orig, k - 1));
                    } else {
                        assert(old_cands.contains_key(h));
                    }
                }
                assert forall|h: ChangeHash| #[trigger] cands@.contains_key(h) <==> exists|i: int|
                    k - 1 <= i < n && orig[i].change_hash == h by {
                    if h != c.change_hash {
                        if exists|i: int| k - 1 <= i < n && orig[i].change_hash == h {
                            let i = choose|i: int| k - 1 <= i < n && orig[i].change_hash == h;
                            assert(i != k - 1);
                        }
                    } else {
                        assert(orig[k - 1].change_hash == h);
                    }
                }
            }
        } else {
            proof {
                assert forall|h: ChangeHash| #[trigger] cands@.contains_key(h) <==> exists|i: int|
                    k - 1 <= i < n && orig[i].change_hash == h by {
                    if exists|i: int| k - 1 <= i < n && orig[i].change_hash == h {
                        let i = choose|i: int| k - 1 <= i < n && orig[i].change_hash == h;
                        if i == k - 1 {
                            assert(cands@.contains_key(orig[k - 1].change_hash));
                        }
                    }
                }
                assert forall|h: ChangeHash| #[trigger] cands@.contains_key(h) implies exists|i: int|
                    k - 1 <= i < n && is_last_index(orig, i) && orig[i].change_hash == h && cands@[h] == orig[i] by {
                    let i = choose|i: int|
                        k <= i < n && is_last_index(orig, i) && orig[i].change_hash == h && cands@[h] == orig[i];
                }
            }
        }
        proof {
            assert(rest@ =~= orig.subrange(0, rest@.len() as int));
        }
    }
    proof {
        assert forall|h: ChangeHash| #[trigger] cands@.contains_key(h) implies cands@[h].change_hash == h by {
            let i = choose|i: int| 0 <= i < n && is_last_index(orig, i) && orig[i].change_hash == h && cands@[h] == orig[i];
        }
        assert(cands@ =~= latest_map(orig)) by {
            assert forall|h: ChangeHash| #[trigger] cands@.contains_key(h) implies cands@[h] == latest_map(orig)[h] by {
                let i = choose|i: int| 0 <= i < n && is_last_index(orig, i) && orig[i].change_hash == h && cands@[h] == orig[i];
                let j = choose|j: int| is_last_index(orig, j) && orig[j].change_hash == h;
                crate::graph::schedule::lemma_last_index_unique(orig, i, j);
            }
        }
    }
    Ok((cands, by_actor))
}

} // verus!

verus! {

/// The outcome of quarantining: everything affected, and one alert per group.
#[derive(Debug)]
pub struct QuarantineResult {
    /// Changes excluded by equivocation.
    pub quarantined: OrdSet<ChangeHash>,
    /// One device equivocation alert per group, in group order.
    pub alerts: Vec<IntegrityAlert>,
}

/// Where the quarantine of group `grp` starts, over the inputs.
pub open spec fn input_seed(grp: EquivocationGroup, inputs: Seq<ChangeCandidate>) -> Set<ChangeHash> {
    grp.conflicting_changes@.union(later_input_hashes(inputs, grp.actor, grp.first_sequence))
}

/// What group `grp` quarantines: everything its seed reaches through dependants.
pub open spec fn affected_by(grp: EquivocationGroup, inputs: Seq<ChangeCandidate>, graph: DependencyGraph) -> Set<ChangeHash> {
    choose|s: Set<ChangeHash>| reachable_set(sets_view(graph.dependants), input_seed(grp, inputs), s)
}

/// `alert` reports group `grp` with the given affected set.
pub open spec fn alert_reports(alert: IntegrityAlert, grp: EquivocationGroup, affected: Set<ChangeHash>) -> bool {
    alert matches IntegrityAlert::DeviceEquivocation(a) && {
        &&& a.actor() == grp.actor
        &&& a.sequence() == grp.first_sequence
        &&& lists(a.conflicts(), grp.conflicting_changes@)
        &&& lists(a.descendants(), affected.difference(grp.conflicting_changes@))
    }
}

/// `res` is what quarantining the groups `v` of the inputs yields.
pub open spec fn quarantine_owed(
    inputs: Seq<ChangeCandidate>,
    graph: DependencyGraph,
    v: Seq<EquivocationGroup>,
    res: QuarantineResult,
) -> bool {
    &&& res.quarantined.wf()
    &&& res.alerts@.len() == v.len()
    &&& forall|i: int| 0 <= i < v.len() ==> (#[trigger] v[i]).first_sequence != 0 && alert_reports(
        res.alerts@[i],
        v[i],
        affected_by(v[i], inputs, graph),
    )
    &&& res.quarantined@ == Set::new(|h: ChangeHash| exists|i: int| 0 <= i < v.len() && #[trigger] affected_by(v[i], inputs, graph).contains(h))
}

/// The recorded pairs give the later hashes of the inputs.
proof fn lemma_later_hashes(pairs: Map<ActorId, Seq<SequencedHash>>, inputs: Seq<ChangeCandidate>, a: ActorId, s: u64)
    requires
        pairs_of_inputs(pairs, inputs, 0),
    ensures
        later_hashes(pairs, a, s) == later_input_hashes(inputs, a, s),
{
    assert forall|h: ChangeHash| later_hashes(pairs, a, s).contains(h) <==> later_input_hashes(inputs, a, s).contains(h) by {
        if later_hashes(pairs, a, s).contains(h) {
            let i = choose|i: int| 0 <= i < pairs[a].len() && #[trigger] pairs[a][i].hash == h && pairs[a][i].sequence > s;
            let p = pairs[a][i];
            assert(has_pair(pairs, a, p));
            let j = choose|j: int| 0 <= j < inputs.len() && inputs[j].actor == a && #[trigger] pair_of(inputs[j]) == p;
            assert(inputs[j].change_hash == h);
        }
        if later_input_hashes(inputs, a, s).contains(h) {
            let j = choose|j: int| 0 <= j < inputs.len() && inputs[j].actor == a && inputs[j].sequence > s && #[trigger] inputs[j].change_hash == h;
            lemma_pairs_member(pairs, inputs, 0, a, pair_of(inputs[j]), j);
            let i = choose|i: int| 0 <= i < pairs[a].len() && pairs[a][i] == pair_of(inputs[j]);
            assert(pairs[a][i].hash == h);
        }
    }
    assert(later_hashes(pairs, a, s) =~= later_input_hashes(inputs, a, s));
}

/// When no candidate names more than `c` carriers, neither does the most.
proof fn lemma_max_carriers_within(cs: Seq<ChangeCandidate>, c: int)
    requires
        c >= 0,
        forall|j: int| 0 <= j < cs.len() ==> (#[trigger] cs[j]).valid_carriers@.len() <= c,
    ensures
        max_carriers(cs) <= c,
    decreases cs.len(),
{
    if cs.len() > 0 {
        assert forall|j: int| 0 <= j < cs.drop_last().len() implies (#[trigger] cs.drop_last()[j]).valid_carriers@.len()
            <= c by {
            assert(cs.drop_last()[j] == cs[j]);
        }
        lemma_max_carriers_within(cs.drop_last(), c);
    }
}

/// Detection over fewer candidates with fewer carriers costs no more.
proof fn lemma_detection_cost_monotone(n1: int, c1: int, n2: int, c2: int)
    requires
        0 <= n1 <= n2,
        0 <= c1 <= c2,
    ensures
        detection_cost(n1, c1) <= detection_cost(n2, c2),
{
    assert(n1 * (1 + c1) <= n2 * (1 + c2)) by (nonlinear_arith)
        requires
            0 <= n1 <= n2,
            0 <= c1 <= c2,
    ;
    assert(n1 * c1 <= n2 * c2) by (nonlinear_arith)
        requires
            0 <= n1 <= n2,
            0 <= c1 <= c2,
    ;
    let x1 = 1 + n1 * c1;
    let x2 = 1 + n2 * c2;
    assert(n1 * x1 <= n2 * x2) by (nonlinear_arith)
        requires
            0 <= n1 <= n2,
            1 <= x1 <= x2,
    ;
    let y1 = 3 + n1 * x1;
    let y2 = 3 + n2 * x2;
    assert(n1 * y1 <= n2 * y2) by (nonlinear_arith)
        requires
            0 <= n1 <= n2,
            3 <= y1 <= y2,
    ;
}

/// The units quarantining charges at most over `n` inputs naming at most
/// `c` carriers each, in a graph with `k` dependant sets of at most `d`
/// members: taking the inputs in, detection, and for each of at most `n`
/// groups one unit, its quarantine and one unit for each change it marks.
pub open spec fn quarantine_cost(n: int, c: int, k: int, d: int) -> int {
    n + detection_cost(n, c) + n * (1 + group_cost(n, k, d) + 2 * n + k * d)
}

/// Quarantines every detected equivocation: the conflicting changes, every
/// later change of the equivocating actor, and everything that depends on
/// them, with one alert per equivocating actor.
///
/// When several inputs share a hash, the last one is the one examined.
/// Every step is charged before it is taken.
pub fn quarantine_equivocation_descendants(
    inputs: Vec<ChangeCandidate>,
    graph: &DependencyGraph,
    budget: &mut WorkBudget,
    cancellation: &impl CancellationCheck,
) -> (r: Result<QuarantineResult, QuarantineError>)
    requires
        graph.wf(),
    ensures
        budget_grew(*old(budget), *final(budget)),
        r == Err::<QuarantineResult, QuarantineError>(QuarantineError::BudgetExhausted) ==> operations_exhausted(*final(budget)),
        r == Err::<QuarantineResult, QuarantineError>(QuarantineError::Cancelled) ==> !cancellation.never_cancels(),
        r matches Ok(res) ==> exists|v: Seq<EquivocationGroup>| #[trigger] detection_complete(map_grouping(latest_map(inputs@)), v)
            && quarantine_owed(inputs@, *graph, v, res),
        r matches Err(QuarantineError::Alert(_)) ==> exists|v: Seq<EquivocationGroup>| #[trigger] detection_complete(
            map_grouping(latest_map(inputs@)),
            v,
        ) && exists|i: int| 0 <= i < v.len() && (#[trigger] v[i]).first_sequence == 0,
        cancellation.never_cancels() && operations_exhausted(*old(budget)) && inputs@.len() > 0 ==> r
            == Err::<QuarantineResult, QuarantineError>(QuarantineError::BudgetExhausted),
        final(budget).usage().operations() <= old(budget).usage().operations() + quarantine_cost(
            inputs@.len() as int,
            max_carriers(inputs@) as int,
            graph.dependants@.dom().len() as int,
            max_set_len(graph.dependants.val_seq()) as int,
        ),
        cancellation.never_cancels() && affords(
            *old(budget),
            quarantine_cost(
                inputs@.len() as int,
                max_carriers(inputs@) as int,
                graph.dependants@.dom().len() as int,
                max_set_len(graph.dependants.val_seq()) as int,
            ),
        ) ==> (r is Ok || r matches Err(QuarantineError::Alert(_))),
{
    let ghost start = *budget;
    let ghost ins = inputs@;
    let ghost nn = ins.len() as int;
    let ghost cc = max_carriers(ins) as int;
    let ghost kk = graph.dependants@.dom().len() as int;
    let ghost dd = max_set_len(graph.dependants.val_seq()) as int;
    let ghost gcost = group_cost(nn, kk, dd);
    let ghost per = 1 + gcost + 2 * nn + kk * dd;
    let ghost cost = quarantine_cost(nn, cc, kk, dd);
    let ghost never = cancellation.never_cancels() && affords(start, cost);
    proof {
        assert(kk * dd >= 0) by (nonlinear_arith)
            requires
                kk >= 0,
                dd >= 0,
        ;
        assert(gcost >= 0) by (nonlinear_arith)
            requires
                gcost == 3 * nn + 1 + (2 * nn + kk * dd) * (3 + dd),
                nn >= 0,
                kk * dd >= 0,
                dd >= 0,
        ;
        assert(cost == nn + detection_cost(nn, cc) + nn * per);
        assert(detection_cost(nn, cc) >= 0) by (nonlinear_arith)
            requires
                detection_cost(nn, cc) == nn * (1 + cc) + nn * (3 + nn * (1 + nn * cc)) + nn,
                nn >= 0,
                cc >= 0,
        ;
    }
    let collected = collect_inputs(inputs, budget, cancellation, Ghost(start));
    let (cands, by_actor) = match collected {
        Ok(found) => found,
        Err(e) => {
            return Err(e);
        },
    };
    proof {
        lemma_grouping_of_map(cands);
    }
    let ghost g = map_grouping(latest_map(ins));
    let vals = cands.into_values();
    let ghost after_inputs = *budget;
    proof {
        lemma_latest_map_bounds(ins);
        cands.lemma_len();
        assert forall|j: int| 0 <= j < vals@.len() implies (#[trigger] vals@[j]).valid_carriers@.len() <= cc by {
            cands.lemma_position(j);
            let h = cands.key_seq()[j];
            assert(latest_map(ins).contains_key(h));
            let k = choose|k: int| 0 <= k < ins.len() && #[trigger] ins[k].change_hash == h;
            lemma_last_exists(ins, k);
            let i2 = choose|i2: int| is_last_index(ins, i2) && ins[i2].change_hash == h;
            assert(0 <= i2 < ins.len());
            lemma_max_carriers(ins, i2);
        }
        lemma_max_carriers_within(vals@, cc);
        lemma_detection_cost_monotone(vals@.len() as int, max_carriers(vals@) as int, nn, cc);
    }
    let detected = detect_equivocations(&vals, budget, cancellation);
    let groups = match detected {
        Ok(found) => found,
        Err(e) => {
            return Err(e);
        },
    };
    let ghost v = groups@;
    let ghost base1 = budget.usage().operations();
    let mut quarantined: OrdSet<ChangeHash> = OrdSet::new();
    let mut alerts: Vec<IntegrityAlert> = Vec::new();
    let n = groups.len();
    proof {
        assert(n * per <= nn * per) by (nonlinear_arith)
            requires
                n <= nn,
                per >= 0,
        ;
        assert(base1 + nn * per <= start.usage().operations() + cost);
        assert(0 * per == 0);
        assert(quarantined@ =~= Set::new(|h: ChangeHash| exists|i: int| 0 <= i < 0 && #[trigger] affected_by(v[i], ins, *graph).contains(h)));
    }
    for i in 0..n
        invariant
            start == *old(budget),
            budget_grew(start, *budget),
            graph.wf(),
            by_actor.wf(),
            pairs_of_inputs(pairs_view(by_actor), ins, 0),
            v == groups@,
            n == v.len(),
            ins == inputs@,
            g == map_grouping(latest_map(ins)),
            detection_complete(g, v),
            quarantined.wf(),
            alerts@.len() == i,
            forall|q: int| 0 <= q < i ==> (#[trigger] v[q]).first_sequence != 0 && alert_reports(
                alerts@[q],
                v[q],
                affected_by(v[q], ins, *graph),
            ),
            quarantined@ == Set::new(|h: ChangeHash| exists|q: int| 0 <= q < i && #[trigger] affected_by(v[q], ins, *graph).contains(h)),
            !(cancellation.never_cancels() && operations_exhausted(start) && ins.len() > 0),
            nn == ins.len(),
            cc == max_carriers(ins) as int,
            kk == graph.dependants@.dom().len() as int,
            dd == max_set_len(graph.dependants.val_seq()) as int,
            gcost == group_cost(nn, kk, dd),
            per == 1 + gcost + 2 * nn + kk * dd,
            cost == quarantine_cost(nn, cc, kk, dd),
            never == (cancellation.never_cancels() && affords(start, cost)),
            n * per <= nn * per,
            base1 + nn * per <= start.usage().operations() + cost,
            budget.usage().operations() <= base1 + i * per,
            latest_map(ins).dom().finite(),
            latest_map(ins).dom().len() <= nn,
            forall|a: ActorId| #[trigger] pairs_view(by_actor).contains_key(a) ==> pairs_view(by_actor)[a].len() <= nn,
    {
        proof {
            assert((i + 1) * per == i * per + per) by (nonlinear_arith);
            assert((i + 1) * per <= n * per) by (nonlinear_arith)
                requires
                    i + 1 <= n,
                    per >= 0,
            ;
        }
        let c = charge_quarantine(budget, cancellation, WorkCounter::GraphNode, Ghost(start));
        if let Err(e) = c {
            return Err(e);
        }
        let grp = &groups[i];
        proof {
            assert(group_ok(g, v[i as int]));
            let k = ActorSequence { actor: v[i as int].actor, sequence: v[i as int].first_sequence };
            assert(conflicted(g, k));
            assert(g[k].dom().subset_of(latest_map(ins).dom()));
            vstd::set_lib::lemma_len_subset(g[k].dom(), latest_map(ins).dom());
        }
        let ghost before_group = budget.usage().operations();
        let (affected, alert) = match quarantine_group(grp, &by_actor, graph, budget, cancellation, Ghost(start), Ghost(nn)) {
            Ok(x) => x,
            Err(e) => {
                proof {
                    if e is Alert {
                        assert(v[i as int].first_sequence == 0);
                        assert(detection_complete(map_grouping(latest_map(ins)), v));
                        assert(exists|i2: int| 0 <= i2 < v.len() && (#[trigger] v[i2]).first_sequence == 0);
                        assert(exists|v2: Seq<EquivocationGroup>| #[trigger] detection_complete(map_grouping(latest_map(ins)), v2)
                            && exists|i2: int| 0 <= i2 < v2.len() && (#[trigger] v2[i2]).first_sequence == 0);
                    }
                }
                return Err(e);
            },
        };
        proof {
            lemma_later_hashes(pairs_view(by_actor), ins, grp.actor, grp.first_sequence);
            assert(quarantine_seed(*grp, pairs_view(by_actor)) == input_seed(*grp, ins));
            let chosen = affected_by(*grp, ins, *graph);
            assert(reachable_set(sets_view(graph.dependants), input_seed(*grp, ins), chosen));
            crate::graph::order::lemma_reachable_unique(sets_view(graph.dependants), input_seed(*grp, ins), chosen, affected@);
        }
        alerts.push(alert);
        let ghost q0 = quarantined@;
        let m = affected.len();
        proof {
            crate::ordered::lemma_sorted_no_duplicates(affected.seq());
            affected.seq().unique_seq_to_set();
        }
        for k in 0..m
            invariant
                start == *old(budget),
                budget_grew(start, *budget),
                affected.wf(),
                m == affected.seq().len(),
                quarantined.wf(),
                quarantined@ == q0.union(affected.seq().take(k as int).to_set()),
                start == *old(budget),
                ins == inputs@,
                !(cancellation.never_cancels() && operations_exhausted(start) && ins.len() > 0),
                nn == ins.len(),
                cc == max_carriers(ins) as int,
                kk == graph.dependants@.dom().len() as int,
                dd == max_set_len(graph.dependants.val_seq()) as int,
                gcost == group_cost(nn, kk, dd),
                per == 1 + gcost + 2 * nn + kk * dd,
                cost == quarantine_cost(nn, cc, kk, dd),
                never == (cancellation.never_cancels() && affords(start, cost)),
                (i + 1) * per <= nn * per,
                (i + 1) * per == i * per + per,
                base1 + nn * per <= start.usage().operations() + cost,
                m <= 2 * nn + kk * dd,
                budget.usage().operations() <= base1 + i * per + 1 + gcost + k,
        {
            let c = charge_quarantine(budget, cancellation, WorkCounter::GraphNode, Ghost(start));
            if let Err(e) = c {
                return Err(e);
            }
            let hash = affected.get(k);
            quarantined.insert(hash);
            proof {
                assert(affected.seq().take(k + 1) =~= affected.seq().take(k as int).push(hash));
                affected.seq().take(k as int).lemma_push_to_set_commute(hash);
                assert(quarantined@ =~= q0.union(affected.seq().take(k + 1).to_set()));
            }
        }
        proof {
            assert(affected.seq().take(m as int) =~= affected.seq());
            assert forall|q: int| 0 <= q < i + 1 implies (#[trigger] v[q]).first_sequence != 0 && alert_reports(
                alerts@[q],
                v[q],
                affected_by(v[q], ins, *graph),
            ) by {
                if q == i {
                    assert(alerts@[q] == alert);
                }
            }
            assert forall|h: ChangeHash| quarantined@.contains(h) <==> exists|q: int| 0 <= q < i + 1 && #[trigger] affected_by(v[q], ins, *graph).contains(h) by {
                if exists|q: int| 0 <= q < i + 1 && #[trigger] affected_by(v[q], ins, *graph).contains(h) {
                    let q = choose|q: int| 0 <= q < i + 1 && #[trigger] affected_by(v[q], ins, *graph).contains(h);
                    if q < i {
                        assert(q0.contains(h));
                    }
                }
                if affected@.contains(h) {
                    assert(affected_by(v[i as int], ins, *graph).contains(h));
                }
            }
            assert(quarantined@ =~= Set::new(|h: ChangeHash| exists|q: int| 0 <= q < i + 1 && #[trigger] affected_by(v[q], ins, *graph).contains(h)));
        }
    }
    let res = QuarantineResult { quarantined, alerts };
    proof {
        assert(detection_complete(map_grouping(latest_map(ins)), v));
        assert(quarantine_owed(ins, *graph, v, res));
    }
    Ok(res)
}

/// Marks every quarantined change excluded in `dispositions`, charging each
/// pull and each insertion before it is made.
pub fn publish_quarantine_dispositions_metered(
    quarantined: &OrdSet<ChangeHash>,
    dispositions: &mut OrdMap<ChangeHash, ProtocolDisposition>,
    budget: &mut WorkBudget,
    cancellation: &impl CancellationCheck,
) -> (r: Result<(), WorkStop>)
    requires
        quarantined.wf(),
        old(dispositions).wf(),
    ensures
        budget_grew(*old(budget), *final(budget)),
        r == Err::<(), WorkStop>(WorkStop::BudgetExhausted) ==> operations_exhausted(*final(budget)),
        r == Err::<(), WorkStop>(WorkStop::Cancelled) ==> !cancellation.never_cancels(),
        final(dispositions).wf(),
        r is Ok ==> final(dispositions)@ == Map::new(
            |h: ChangeHash| old(dispositions)@.contains_key(h) || quarantined@.contains(h),
            |h: ChangeHash| if quarantined@.contains(h) { ProtocolDisposition::Excluded } else { old(dispositions)@[h] },
        ),
        forall|h: ChangeHash| #[trigger] final(dispositions)@.contains_key(h) ==> (quarantined@.contains(h)
            && final(dispositions)@[h] == ProtocolDisposition::Excluded) || (old(dispositions)@.contains_key(h)
            && final(dispositions)@[h] == old(dispositions)@[h]),
        forall|h: ChangeHash| #[trigger] old(dispositions)@.contains_key(h) ==> final(dispositions)@.contains_key(h),
        r is Ok ==> final(budget).usage().operations() == old(budget).usage().operations() + 2 * quarantined@.len(),
        cancellation.never_cancels() && affords(*old(budget), (2 * quarantined@.len()) as int) ==> r is Ok,
{
    let ghost start = *budget;
    let ghost d0 = dispositions@;
    let n = quarantined.len();
    for i in 0..n
        invariant
            start == *old(budget),
            budget_grew(start, *budget),
            quarantined.wf(),
            n == quarantined.seq().len(),
            d0 == old(dispositions)@,
            dispositions.wf(),
            dispositions@ == Map::new(
                |h: ChangeHash| d0.contains_key(h) || quarantined.seq().take(i as int).contains(h),
                |h: ChangeHash| if quarantined.seq().take(i as int).contains(h) { ProtocolDisposition::Excluded } else { d0[h] },
            ),
            n == quarantined@.len(),
            budget.usage().operations() == start.usage().operations() + 2 * i,
    {
        let c = charge_from(budget, cancellation, WorkCounter::GraphNode, Ghost(start));
        proof {
            match c {
                Err(WorkStop::Cancelled) => {},
                Err(WorkStop::BudgetExhausted) => {},
                Ok(()) => {},
            }
        }
        if let Err(e) = c {
            return Err(e);
        }
        let hash = quarantined.get(i);
        let c = charge_from(budget, cancellation, WorkCounter::GraphNode, Ghost(start));
        proof {
            match c {
                Err(WorkStop::Cancelled) => {},
                Err(WorkStop::BudgetExhausted) => {},
                Ok(()) => {},
            }
        }
        if let Err(e) = c {
            return Err(e);
        }
        dispositions.insert(hash, ProtocolDisposition::Excluded);
        proof {
            let s0 = quarantined.seq().take(i as int);
            let s1 = quarantined.seq().take(i + 1);
            assert forall|x: ChangeHash| s1.contains(x) <==> (s0.contains(x) || x == hash) by {
                if s1.contains(x) {
                    let idx = choose|idx: int| 0 <= idx < s1.len() && s1[idx] == x;
                    if idx < i {
                        assert(s0[idx] == x);
                    }
                }
                if s0.contains(x) {
                    let idx = choose|idx: int| 0 <= idx < s0.len() && s0[idx] == x;
                    assert(s1[idx] == x);
                }
                if x == hash {
                    assert(s1[i as int] == x);
                }
            }
            assert(dispositions@ =~= Map::new(
                |h: ChangeHash| d0.contains_key(h) || s1.contains(h),
                |h: ChangeHash| if s1.contains(h) { ProtocolDisposition::Excluded } else { d0[h] },
            ));
        }
    }
    proof {
        assert(quarantined.seq().take(n as int) =~= quarantined.seq());
        assert(dispositions@ =~= Map::new(
            |h: ChangeHash| d0.contains_key(h) || quarantined@.contains(h),
            |h: ChangeHash| if quarantined@.contains(h) { ProtocolDisposition::Excluded } else { d0[h] },
        ));
    }
    Ok(())
}

} // verus!
