//! The controls of a batch, the changes written under them, and the maps a
//! batch evaluation starts from.

use vstd::prelude::*;
use crate::graph::change_candidate::{ChangeCandidate, same_candidate};
use crate::ordered::{OrdMap, OrdSet, insert_into_set_entry, lemma_sorted_prefix_step, same_members, sets_view, sets_wf};
use crate::reference::epoch_engine::PriorChangeKnowledge;
use crate::types::{ChangeHash, EventId, OrderedKey, ProtocolDisposition};
use crate::work_budget::{
    CancellationCheck, WorkBudget, WorkCounter, WorkStop, affords, budget_grew, budget_within_limits, charge_from,
    lemma_budget_grew_trans, lemma_grew_operations, operations_exhausted,
};

verus! {

/// One change offered under a control.
pub struct BatchChange {
    /// The change's candidate.
    pub candidate: ChangeCandidate,
    /// Eligibility hint used only when no control envelope is at hand.
    pub legacy_eligible: bool,
    /// The change's encoded bytes, when carried.
    pub raw_change: Option<Vec<u8>>,
}

/// One control event of a batch with the changes written under it.
pub struct BatchControl {
    /// The control's event id.
    pub event_id: EventId,
    /// The control it follows, if any.
    pub parent: Option<EventId>,
    /// The accepted base the control declares.
    pub accepted_base: OrdSet<ChangeHash>,
    /// Whether the control ends its branch.
    pub frozen: bool,
    /// The changes written under the control.
    pub changes: Vec<BatchChange>,
}

/// The maps a batch evaluation starts from.
pub struct InitialBatchMaps {
    /// Each control by its event id.
    pub controls: OrdMap<EventId, BatchControl>,
    /// The controls following each parent; `None` gathers the roots.
    pub children_by_parent: OrdMap<Option<EventId>, OrdSet<EventId>>,
    /// Every control, excluded until evaluated.
    pub control_dispositions: OrdMap<EventId, ProtocolDisposition>,
    /// Every change written under a control, excluded until evaluated.
    pub change_dispositions: OrdMap<ChangeHash, ProtocolDisposition>,
}

/// `m` maps the event id of each control in `s[k..]` to the last control
/// there with that id.
pub open spec fn last_controls_from(s: Seq<BatchControl>, k: int, m: Map<EventId, BatchControl>) -> bool {
    &&& forall|id: EventId|
        #[trigger] m.contains_key(id) <==> exists|j: int| k <= j < s.len() && (#[trigger] s[j]).event_id == id
    &&& forall|id: EventId|
        #[trigger] m.contains_key(id) ==> exists|j: int|
            k <= j < s.len() && (#[trigger] s[j]).event_id == id && m[id] == s[j] && forall|l: int|
                j < l < s.len() ==> (#[trigger] s[l]).event_id != id
}

/// The controls following each parent.
pub open spec fn children_index(controls: Map<EventId, BatchControl>) -> Map<Option<EventId>, Set<EventId>> {
    Map::new(
        |p: Option<EventId>| exists|id: EventId| #[trigger] controls.contains_key(id) && controls[id].parent == p,
        |p: Option<EventId>| Set::new(|id: EventId| controls.contains_key(id) && controls[id].parent == p),
    )
}

/// Every key of `keys`, excluded.
pub open spec fn all_excluded<K>(keys: Set<K>) -> Map<K, ProtocolDisposition> {
    Map::new(|k: K| keys.contains(k), |k: K| ProtocolDisposition::Excluded)
}

/// The hashes of the first `n` of `changes`.
pub open spec fn hashes_of(changes: Seq<BatchChange>, n: int) -> Set<ChangeHash> {
    Set::new(|h: ChangeHash| exists|l: int| 0 <= l < n && (#[trigger] changes[l]).candidate.change_hash == h)
}

/// The hashes of every change written under a control of `controls`.
pub open spec fn change_hashes(controls: Map<EventId, BatchControl>) -> Set<ChangeHash> {
    Set::new(
        |h: ChangeHash|
            exists|id: EventId|
                #[trigger] controls.contains_key(id) && hashes_of(controls[id].changes@, controls[id].changes@.len() as int).contains(h),
    )
}

/// Adding a control to a map of controls adds it to its parent's children.
proof fn lemma_children_index_insert(m: Map<EventId, BatchControl>, id: EventId, c: BatchControl)
    requires
        !m.contains_key(id),
    ensures
        children_index(m.insert(id, c)) == children_index(m).insert(
            c.parent,
            if children_index(m).contains_key(c.parent) {
                children_index(m)[c.parent].insert(id)
            } else {
                Set::<EventId>::empty().insert(id)
            },
        ),
{
    let m2 = m.insert(id, c);
    let lhs = children_index(m2);
    let rhs = children_index(m).insert(
        c.parent,
        if children_index(m).contains_key(c.parent) {
            children_index(m)[c.parent].insert(id)
        } else {
            Set::<EventId>::empty().insert(id)
        },
    );
    assert(m2.contains_key(id) && m2[id].parent == c.parent);
    assert forall|p: Option<EventId>| #[trigger] lhs.contains_key(p) == rhs.contains_key(p) by {
        if lhs.contains_key(p) && p != c.parent {
            let w = choose|w: EventId| m2.contains_key(w) && m2[w].parent == p;
            assert(m.contains_key(w));
        }
        if rhs.contains_key(p) && p != c.parent {
            let w = choose|w: EventId| m.contains_key(w) && m[w].parent == p;
            assert(m2.contains_key(w));
        }
    }
    assert forall|p: Option<EventId>| #[trigger] lhs.contains_key(p) implies lhs[p] == rhs[p] by {
        assert(lhs[p] =~= rhs[p]);
    }
    assert(lhs =~= rhs);
}

/// Adding a control adds its change hashes.
proof fn lemma_change_hashes_insert(m: Map<EventId, BatchControl>, id: EventId, c: BatchControl)
    requires
        !m.contains_key(id),
    ensures
        change_hashes(m.insert(id, c)) == change_hashes(m).union(hashes_of(c.changes@, c.changes@.len() as int)),
{
    let m2 = m.insert(id, c);
    assert forall|h: ChangeHash| change_hashes(m2).contains(h) == change_hashes(m).union(
        hashes_of(c.changes@, c.changes@.len() as int),
    ).contains(h) by {
        if change_hashes(m2).contains(h) {
            let w = choose|w: EventId|
                #[trigger] m2.contains_key(w) && hashes_of(m2[w].changes@, m2[w].changes@.len() as int).contains(h);
            if w != id {
                assert(m.contains_key(w));
            }
        }
        if change_hashes(m).contains(h) {
            let w = choose|w: EventId|
                #[trigger] m.contains_key(w) && hashes_of(m[w].changes@, m[w].changes@.len() as int).contains(h);
            assert(m2.contains_key(w));
        }
        if hashes_of(c.changes@, c.changes@.len() as int).contains(h) {
            assert(m2.contains_key(id));
        }
    }
    assert(change_hashes(m2) =~= change_hashes(m).union(hashes_of(c.changes@, c.changes@.len() as int)));
}

/// The first `i + 1` keys of a strictly ascending key sequence restrict a
/// map to one entry more than the first `i`.
proof fn lemma_restrict_step<V>(keys: Seq<EventId>, m: Map<EventId, V>, i: int)
    requires
        crate::ordered::strictly_sorted(keys),
        0 <= i < keys.len(),
        m.contains_key(keys[i]),
    ensures
        m.restrict(keys.take(i + 1).to_set()) == m.restrict(keys.take(i).to_set()).insert(keys[i], m[keys[i]]),
        !m.restrict(keys.take(i).to_set()).contains_key(keys[i]),
{
    lemma_sorted_prefix_step(keys, i);
    assert(m.restrict(keys.take(i + 1).to_set()) =~= m.restrict(keys.take(i).to_set()).insert(keys[i], m[keys[i]]));
}

/// The most changes any one of `s` carries.
pub open spec fn max_changes(s: Seq<BatchControl>) -> nat
    decreases s.len(),
{
    if s.len() == 0 {
        0
    } else if s.last().changes@.len() > max_changes(s.drop_last()) {
        s.last().changes@.len()
    } else {
        max_changes(s.drop_last())
    }
}

/// Each control carries at most `max_changes` changes.
pub proof fn lemma_max_changes(s: Seq<BatchControl>, i: int)
    requires
        0 <= i < s.len(),
    ensures
        s[i].changes@.len() <= max_changes(s),
    decreases s.len(),
{
    if i < s.len() - 1 {
        lemma_max_changes(s.drop_last(), i);
    }
}

/// The controls kept from `s` are no more numerous than `s` and carry at most
/// `max_changes(s)` changes each.
pub proof fn lemma_controls_bounds(s: Seq<BatchControl>, m: Map<EventId, BatchControl>)
    requires
        last_controls_from(s, 0, m),
    ensures
        m.dom().finite(),
        m.dom().len() <= s.len(),
        forall|id: EventId| #[trigger] m.contains_key(id) ==> m[id].changes@.len() <= max_changes(s),
{
    let ids = s.map_values(|c: BatchControl| c.event_id);
    assert forall|id: EventId| m.dom().contains(id) <==> ids.to_set().contains(id) by {
        if m.dom().contains(id) {
            let j = choose|j: int| 0 <= j < s.len() && (#[trigger] s[j]).event_id == id;
            assert(ids[j] == id);
        }
        if ids.to_set().contains(id) {
            let j = choose|j: int| 0 <= j < ids.len() && ids[j] == id;
            assert(s[j].event_id == id);
        }
    }
    assert(m.dom() =~= ids.to_set());
    ids.lemma_cardinality_of_set();
    vstd::seq_lib::seq_to_set_is_finite(ids);
    assert forall|id: EventId| #[trigger] m.contains_key(id) implies m[id].changes@.len() <= max_changes(s) by {
        let j = choose|j: int|
            0 <= j < s.len() && (#[trigger] s[j]).event_id == id && m[id] == s[j] && forall|l: int|
                j < l < s.len() ==> (#[trigger] s[l]).event_id != id;
        lemma_max_changes(s, j);
    }
}

/// The changes of the first `k` controls number at most `k * c` when no
/// control carries more than `c`.
pub proof fn lemma_entries_len_bound(cm: Map<EventId, BatchControl>, keys: Seq<EventId>, k: int, c: int)
    requires
        0 <= k <= keys.len(),
        c >= 0,
        forall|q: int| 0 <= q < k ==> #[trigger] cm[keys[q]].changes@.len() <= c,
    ensures
        batch_entries(cm, keys, k).len() <= k * c,
    decreases k,
{
    if k > 0 {
        lemma_entries_len_bound(cm, keys, k - 1, c);
        assert(cm[keys[k - 1]].changes@.len() <= c);
        assert(k * c == (k - 1) * c + c) by (nonlinear_arith);
    }
}

/// The changes of fewer controls are never more numerous.
pub proof fn lemma_entries_len_monotone(cm: Map<EventId, BatchControl>, keys: Seq<EventId>, i: int, n: int)
    requires
        0 <= i <= n,
    ensures
        batch_entries(cm, keys, i).len() <= batch_entries(cm, keys, n).len(),
    decreases n - i,
{
    if i < n {
        lemma_entries_len_monotone(cm, keys, i + 1, n);
    }
}

/// The units preparing the initial maps of `n` collected controls, each
/// carrying at most `c` changes, charges at most.
pub open spec fn initial_maps_cost(n: int, c: int) -> int {
    4 * n + n * c
}

/// Indexes the collected controls by event id, the later of two controls
/// with one id winning; then gathers the children of each parent, and marks
/// every control and every change written under one excluded.
///
/// One control unit is charged before each control is taken in, and before
/// each control is visited by each of the three following passes; in the
/// last pass one node unit is charged before each of its changes.
#[verifier::spinoff_prover]
pub fn prepare_initial_maps_metered(
    collected: Vec<BatchControl>,
    budget: &mut WorkBudget,
    cancellation: &impl CancellationCheck,
) -> (r: Result<InitialBatchMaps, WorkStop>)
    ensures
        budget_grew(*old(budget), *final(budget)),
        r == Err::<InitialBatchMaps, WorkStop>(WorkStop::BudgetExhausted) ==> operations_exhausted(*final(budget)),
        r == Err::<InitialBatchMaps, WorkStop>(WorkStop::Cancelled) ==> !cancellation.never_cancels(),
        r matches Ok(maps) ==> {
            &&& maps.controls.wf()
            &&& last_controls_from(collected@, 0, maps.controls@)
            &&& sets_wf(maps.children_by_parent)
            &&& sets_view(maps.children_by_parent) == children_index(maps.controls@)
            &&& maps.control_dispositions.wf()
            &&& maps.control_dispositions@ == all_excluded(maps.controls@.dom())
            &&& maps.change_dispositions.wf()
            &&& maps.change_dispositions@ == all_excluded(change_hashes(maps.controls@))
            &&& final(budget).usage().operations() == old(budget).usage().operations() + collected@.len() + 3
                * maps.controls@.dom().len() + batch_entries(
                maps.controls@,
                maps.controls.key_seq(),
                maps.controls.key_seq().len() as int,
            ).len()
        },
        cancellation.never_cancels() && affords(
            *old(budget),
            initial_maps_cost(collected@.len() as int, max_changes(collected@) as int),
        ) ==> r is Ok,
        cancellation.never_cancels() && operations_exhausted(*old(budget)) && collected@.len() > 0 ==> r
            == Err::<InitialBatchMaps, WorkStop>(WorkStop::BudgetExhausted),
{
    let ghost start = *budget;
    let ghost s = collected@;
    let ghost mc = max_changes(s) as int;
    let ghost cost = initial_maps_cost(s.len() as int, mc);
    let count = collected.len();
    proof {
        assert(count * mc >= 0) by (nonlinear_arith)
            requires
                mc >= 0,
        ;
    }
    let mut rest = collected;
    let mut controls: OrdMap<EventId, BatchControl> = OrdMap::new();
    let mut k = count;
    proof {
        assert(rest@ =~= s.take(count as int));
    }
    while k > 0
        invariant
            controls.wf(),
            start == *old(budget),
            budget_grew(start, *budget),
            count == s.len(),
            k <= count,
            rest@ == s.take(k as int),
            last_controls_from(s, k as int, controls@),
            budget.usage().operations() == start.usage().operations() + (count - k),
            cost == initial_maps_cost(count as int, mc),
            count * mc >= 0,
            s == collected@,
            mc == max_changes(s) as int,
        decreases k,
    {
        let c = charge_from(budget, cancellation, WorkCounter::Control, Ghost(start));
        proof {
            match c {
                Err(WorkStop::Cancelled) => {},
                Err(WorkStop::BudgetExhausted) => {},
                Ok(()) => {},
            }
        }
        if let Err(e) = c {
            return Err(e);
        }
        let control = rest.pop().unwrap();
        k = k - 1;
        proof {
            assert(control == s[k as int]);
            assert(rest@ =~= s.take(k as int));
        }
        let id = control.event_id;
        let ghost before = controls@;
        if !controls.contains_key(&id) {
            controls.insert(id, control);
        }
        proof {
            let m = controls@;
            assert forall|x: EventId| #[trigger] m.contains_key(x) <==> exists|j: int|
                k <= j < s.len() && (#[trigger] s[j]).event_id == x by {
                if x == id {
                    assert(s[k as int].event_id == x);
                } else if exists|j: int| k <= j < s.len() && (#[trigger] s[j]).event_id == x {
                    let j = choose|j: int| k <= j < s.len() && (#[trigger] s[j]).event_id == x;
                    assert(j != k);
                    assert(k + 1 <= j < s.len() && s[j].event_id == x);
                }
            }
            assert forall|x: EventId| #[trigger] m.contains_key(x) implies exists|j: int|
                k <= j < s.len() && (#[trigger] s[j]).event_id == x && m[x] == s[j] && forall|l: int|
                    j < l < s.len() ==> (#[trigger] s[l]).event_id != x by {
                if before.contains_key(x) {
                    let j = choose|j: int|
                        k + 1 <= j < s.len() && (#[trigger] s[j]).event_id == x && before[x] == s[j] && forall|l: int|
                            j < l < s.len() ==> (#[trigger] s[l]).event_id != x;
                    assert(k <= j < s.len() && s[j].event_id == x && m[x] == s[j]);
                } else {
                    assert(x == id);
                    assert forall|l: int| k < l < s.len() implies (#[trigger] s[l]).event_id != x by {
                        if s[l].event_id == x {
                            assert(k + 1 <= l < s.len() && s[l].event_id == x);
                        }
                    }
                    assert(k <= k < s.len() && s[k as int].event_id == x && m[x] == s[k as int]);
                }
            }
        }
    }
    let ghost cm = controls@;
    let n = controls.len();
    let ghost e = batch_entries(cm, controls.key_seq(), n as int).len() as int;
    proof {
        lemma_controls_bounds(s, cm);
        controls.lemma_len();
        assert forall|q: int| 0 <= q < n implies #[trigger] cm[controls.key_seq()[q]].changes@.len() <= mc by {
            controls.lemma_position(q);
        }
        lemma_entries_len_bound(cm, controls.key_seq(), n as int, mc);
        assert(n * mc <= count * mc) by (nonlinear_arith)
            requires
                n <= count,
                mc >= 0,
        ;
        assert(count + 3 * n + e <= cost);
    }
    let mut children: OrdMap<Option<EventId>, OrdSet<EventId>> = OrdMap::new();
    let mut i: usize = 0;
    proof {
        assert(cm.restrict(controls.key_seq().take(0).to_set()) =~= Map::<EventId, BatchControl>::empty());
        assert(children_index(Map::<EventId, BatchControl>::empty()) =~= sets_view(children));
    }
    while i < n
        invariant
            controls.wf(),
            cm == controls@,
            n == controls.key_seq().len(),
            i <= n,
            start == *old(budget),
            budget_grew(start, *budget),
            sets_wf(children),
            sets_view(children) == children_index(cm.restrict(controls.key_seq().take(i as int).to_set())),
            e == batch_entries(cm, controls.key_seq(), n as int).len(),
            count + 3 * n + e <= cost,
            s == collected@,
            count == s.len(),
            mc == max_changes(s) as int,
            cost == initial_maps_cost(count as int, mc),
            budget.usage().operations() == start.usage().operations() + count + i,
        decreases n - i,
    {
        let c = charge_from(budget, cancellation, WorkCounter::Control, Ghost(start));
        proof {
            match c {
                Err(WorkStop::Cancelled) => {},
                Err(WorkStop::BudgetExhausted) => {},
                Ok(()) => {},
            }
        }
        if let Err(e) = c {
            return Err(e);
        }
        let id = controls.key_at(i);
        let control = controls.value_at(i);
        proof {
            controls.lemma_position(i as int);
            lemma_restrict_step(controls.key_seq(), cm, i as int);
            lemma_children_index_insert(cm.restrict(controls.key_seq().take(i as int).to_set()), id, cm[id]);
        }
        insert_into_set_entry(&mut children, control.parent, id);
        i = i + 1;
    }
    proof {
        controls.lemma_len();
        assert(controls.key_seq().take(n as int) =~= controls.key_seq());
        assert(cm.restrict(controls.key_seq().to_set()) =~= cm);
    }
    let mut control_dispositions: OrdMap<EventId, ProtocolDisposition> = OrdMap::new();
    let mut i: usize = 0;
    proof {
        assert(control_dispositions@ =~= all_excluded(controls.key_seq().take(0).to_set()));
    }
    while i < n
        invariant
            controls.wf(),
            cm == controls@,
            n == controls.key_seq().len(),
            i <= n,
            start == *old(budget),
            budget_grew(start, *budget),
            control_dispositions.wf(),
            control_dispositions@ == all_excluded(controls.key_seq().take(i as int).to_set()),
            e == batch_entries(cm, controls.key_seq(), n as int).len(),
            count + 3 * n + e <= cost,
            s == collected@,
            count == s.len(),
            mc == max_changes(s) as int,
            cost == initial_maps_cost(count as int, mc),
            budget.usage().operations() == start.usage().operations() + count + n + i,
        decreases n - i,
    {
        let c = charge_from(budget, cancellation, WorkCounter::Control, Ghost(start));
        proof {
            match c {
                Err(WorkStop::Cancelled) => {},
                Err(WorkStop::BudgetExhausted) => {},
                Ok(()) => {},
            }
        }
        if let Err(e) = c {
            return Err(e);
        }
        let id = controls.key_at(i);
        control_dispositions.insert(id, ProtocolDisposition::Excluded);
        proof {
            lemma_sorted_prefix_step(controls.key_seq(), i as int);
            assert(control_dispositions@ =~= all_excluded(controls.key_seq().take(i + 1).to_set()));
        }
        i = i + 1;
    }
    proof {
        controls.lemma_len();
        assert(controls.key_seq().take(n as int) =~= controls.key_seq());
    }
    let mut change_dispositions: OrdMap<ChangeHash, ProtocolDisposition> = OrdMap::new();
    let mut i: usize = 0;
    proof {
        assert(cm.restrict(controls.key_seq().take(0).to_set()) =~= Map::<EventId, BatchControl>::empty());
        assert(change_dispositions@ =~= all_excluded(change_hashes(Map::<EventId, BatchControl>::empty())));
    }
    while i < n
        invariant
            controls.wf(),
            cm == controls@,
            n == controls.key_seq().len(),
            i <= n,
            start == *old(budget),
            budget_grew(start, *budget),
            change_dispositions.wf(),
            change_dispositions@ == all_excluded(
                change_hashes(cm.restrict(controls.key_seq().take(i as int).to_set())),
            ),
            budget.usage().operations() == start.usage().operations() + count + 2 * n + i + batch_entries(
                cm,
                controls.key_seq(),
                i as int,
            ).len(),
            e == batch_entries(cm, controls.key_seq(), n as int).len(),
            count + 3 * n + e <= cost,
            s == collected@,
            count == s.len(),
            mc == max_changes(s) as int,
            cost == initial_maps_cost(count as int, mc),
        decreases n - i,
    {
        proof {
            controls.lemma_position(i as int);
            lemma_entries_len_monotone(cm, controls.key_seq(), i + 1, n as int);
            assert(batch_entries(cm, controls.key_seq(), i + 1).len() == batch_entries(cm, controls.key_seq(), i as int).len()
                + cm[controls.key_seq()[i as int]].changes@.len());
        }
        let c = charge_from(budget, cancellation, WorkCounter::Control, Ghost(start));
        proof {
            match c {
                Err(WorkStop::Cancelled) => {},
                Err(WorkStop::BudgetExhausted) => {},
                Ok(()) => {},
            }
        }
        if let Err(e) = c {
            return Err(e);
        }
        let control = controls.value_at(i);
        let ghost done = change_hashes(cm.restrict(controls.key_seq().take(i as int).to_set()));
        let changes = &control.changes;
        let mut j: usize = 0;
        let ghost ops_before = budget.usage().operations();
        proof {
            assert(done.union(hashes_of(changes@, 0)) =~= done);
        }
        while j < changes.len()
            invariant
                change_dispositions.wf(),
                start == *old(budget),
                budget_grew(start, *budget),
                j <= changes@.len(),
                change_dispositions@ == all_excluded(done.union(hashes_of(changes@, j as int))),
                budget.usage().operations() == ops_before + j,
                ops_before + changes@.len() <= start.usage().operations() + cost,
                s == collected@,
                count == s.len(),
                mc == max_changes(s) as int,
                cost == initial_maps_cost(count as int, mc),
            decreases changes@.len() - j,
        {
            let c = charge_from(budget, cancellation, WorkCounter::GraphNode, Ghost(start));
            proof {
                match c {
                    Err(WorkStop::Cancelled) => {},
                    Err(WorkStop::BudgetExhausted) => {},
                    Ok(()) => {},
                }
            }
            if let Err(e) = c {
                return Err(e);
            }
            let hash = changes[j].candidate.change_hash;
            change_dispositions.insert(hash, ProtocolDisposition::Excluded);
            proof {
                assert(hashes_of(changes@, j + 1) =~= hashes_of(changes@, j as int).insert(hash)) by {
                    assert forall|h: ChangeHash| #[trigger] hashes_of(changes@, j + 1).contains(h) implies hashes_of(
                        changes@,
                        j as int,
                    ).insert(hash).contains(h) by {
                        let l = choose|l: int| 0 <= l < j + 1 && (#[trigger] changes@[l]).candidate.change_hash == h;
                        if l < j {
                            assert(0 <= l < j && changes@[l].candidate.change_hash == h);
                        }
                    }
                    assert(0 <= j < j + 1 && changes@[j as int].candidate.change_hash == hash);
                    assert forall|h: ChangeHash| #[trigger] hashes_of(changes@, j as int).contains(h) implies hashes_of(
                        changes@,
                        j + 1,
                    ).contains(h) by {
                        let l = choose|l: int| 0 <= l < j && (#[trigger] changes@[l]).candidate.change_hash == h;
                        assert(0 <= l < j + 1 && changes@[l].candidate.change_hash == h);
                    }
                }
                assert(change_dispositions@ =~= all_excluded(done.union(hashes_of(changes@, j + 1))));
            }
            j = j + 1;
        }
        proof {
            controls.lemma_position(i as int);
            let id = controls.key_seq()[i as int];
            lemma_restrict_step(controls.key_seq(), cm, i as int);
            lemma_change_hashes_insert(cm.restrict(controls.key_seq().take(i as int).to_set()), id, cm[id]);
            assert(batch_entries(cm, controls.key_seq(), i + 1).len() == batch_entries(cm, controls.key_seq(), i as int).len()
                + changes@.len());
        }
        i = i + 1;
    }
    proof {
        controls.lemma_len();
        assert(controls.key_seq().take(n as int) =~= controls.key_seq());
        assert(cm.restrict(controls.key_seq().to_set()) =~= cm);
    }
    budget_within_limits(budget);
    Ok(InitialBatchMaps { controls, children_by_parent: children, control_dispositions, change_dispositions })
}

/// What a batch's changes tell about each other, gathered once.
pub struct BatchChangeMemo {
    /// The first candidate seen for each change hash.
    pub candidates: OrdMap<ChangeHash, ChangeCandidate>,
    /// The first encoded bytes seen for each change hash.
    pub raw_changes: OrdMap<ChangeHash, Vec<u8>>,
    /// The hashes written under each control.
    pub hashes_by_control: OrdMap<EventId, OrdSet<ChangeHash>>,
    /// The controls each hash is written under.
    pub controls_by_hash: OrdMap<ChangeHash, OrdSet<EventId>>,
}

/// The changes of the first `n` controls of `keys`, each paired with its
/// control's id, in control order and then in order within each control.
pub open spec fn batch_entries(
    controls: Map<EventId, BatchControl>,
    keys: Seq<EventId>,
    n: int,
) -> Seq<(EventId, BatchChange)>
    decreases n,
{
    if n <= 0 {
        Seq::empty()
    } else {
        batch_entries(controls, keys, n - 1) + controls[keys[n - 1]].changes@.map_values(
            |c: BatchChange| (keys[n - 1], c),
        )
    }
}

/// The number of dependencies the changes of `entries` declare.
pub open spec fn dependency_total(entries: Seq<(EventId, BatchChange)>) -> int
    decreases entries.len(),
{
    if entries.len() == 0 {
        0
    } else {
        dependency_total(entries.drop_last()) + entries.last().1.candidate.dependencies@.len()
    }
}

/// One unit for each entry and one for each dependency it declares.
pub open spec fn entries_weight(entries: Seq<(EventId, BatchChange)>) -> int {
    entries.len() + dependency_total(entries)
}

/// Appending entries never lowers the weight.
pub proof fn lemma_weight_append(s: Seq<(EventId, BatchChange)>, t: Seq<(EventId, BatchChange)>)
    ensures
        entries_weight(s) <= entries_weight(s + t),
    decreases t.len(),
{
    if t.len() > 0 {
        lemma_weight_append(s, t.drop_last());
        assert((s + t).drop_last() =~= s + t.drop_last());
    } else {
        assert(s + t =~= s);
    }
}

/// The entries of fewer controls never weigh more.
pub proof fn lemma_entries_weight_monotone(
    controls: Map<EventId, BatchControl>,
    keys: Seq<EventId>,
    i: int,
    n: int,
)
    requires
        0 <= i <= n,
    ensures
        entries_weight(batch_entries(controls, keys, i)) <= entries_weight(batch_entries(controls, keys, n)),
    decreases n - i,
{
    if i < n {
        lemma_entries_weight_monotone(controls, keys, i + 1, n);
        lemma_weight_append(
            batch_entries(controls, keys, i),
            controls[keys[i]].changes@.map_values(|c: BatchChange| (keys[i], c)),
        );
    }
}

/// The pairs of `entries` grouped by first component.
pub open spec fn grouped<A, B>(entries: Seq<(A, B)>) -> Map<A, Set<B>> {
    Map::new(
        |a: A| exists|i: int| 0 <= i < entries.len() && (#[trigger] entries[i]).0 == a,
        |a: A| Set::new(|b: B| exists|i: int| 0 <= i < entries.len() && (#[trigger] entries[i]) == (a, b)),
    )
}

/// Each entry as a control id and a change hash.
pub open spec fn control_hash_pairs(entries: Seq<(EventId, BatchChange)>) -> Seq<(EventId, ChangeHash)> {
    entries.map_values(|e: (EventId, BatchChange)| (e.0, e.1.candidate.change_hash))
}

/// Each entry as a change hash and a control id.
pub open spec fn hash_control_pairs(entries: Seq<(EventId, BatchChange)>) -> Seq<(ChangeHash, EventId)> {
    entries.map_values(|e: (EventId, BatchChange)| (e.1.candidate.change_hash, e.0))
}

/// `i` is the first entry whose change has hash `h`.
pub open spec fn first_with_hash(entries: Seq<(EventId, BatchChange)>, h: ChangeHash, i: int) -> bool {
    &&& 0 <= i < entries.len()
    &&& entries[i].1.candidate.change_hash == h
    &&& forall|j: int| 0 <= j < i ==> (#[trigger] entries[j]).1.candidate.change_hash != h
}

/// `i` is the first entry whose change has hash `h` and carries bytes.
pub open spec fn first_raw_with_hash(entries: Seq<(EventId, BatchChange)>, h: ChangeHash, i: int) -> bool {
    &&& 0 <= i < entries.len()
    &&& entries[i].1.candidate.change_hash == h
    &&& entries[i].1.raw_change is Some
    &&& forall|j: int|
        0 <= j < i ==> !((#[trigger] entries[j]).1.candidate.change_hash == h && entries[j].1.raw_change is Some)
}

/// The memo describes exactly the changes `entries`.
pub open spec fn memo_of(memo: BatchChangeMemo, entries: Seq<(EventId, BatchChange)>) -> bool {
    &&& memo.candidates.wf()
    &&& memo.raw_changes.wf()
    &&& sets_wf(memo.hashes_by_control)
    &&& sets_wf(memo.controls_by_hash)
    &&& forall|h: ChangeHash| #[trigger]
        memo.candidates@.contains_key(h) <==> exists|i: int| first_with_hash(entries, h, i)
    &&& forall|h: ChangeHash, i: int|
        #[trigger] memo.candidates@.contains_key(h) && #[trigger] first_with_hash(entries, h, i) ==> same_candidate(
            memo.candidates@[h],
            entries[i].1.candidate,
        )
    &&& forall|h: ChangeHash| #[trigger]
        memo.raw_changes@.contains_key(h) <==> exists|i: int| first_raw_with_hash(entries, h, i)
    &&& forall|h: ChangeHash, i: int|
        #[trigger] memo.raw_changes@.contains_key(h) && #[trigger] first_raw_with_hash(entries, h, i)
            ==> memo.raw_changes@[h]@ == entries[i].1.raw_change->0@
    &&& sets_view(memo.hashes_by_control) == grouped(control_hash_pairs(entries))
    &&& sets_view(memo.controls_by_hash) == grouped(hash_control_pairs(entries))
}

/// Grouping one more pair adds its second component to its first's group.
proof fn lemma_grouped_push<A, B>(entries: Seq<(A, B)>, a: A, b: B)
    ensures
        grouped(entries.push((a, b))) == grouped(entries).insert(
            a,
            if grouped(entries).contains_key(a) {
                grouped(entries)[a].insert(b)
            } else {
                Set::<B>::empty().insert(b)
            },
        ),
{
    let e2 = entries.push((a, b));
    let lhs = grouped(e2);
    let rhs = grouped(entries).insert(
        a,
        if grouped(entries).contains_key(a) {
            grouped(entries)[a].insert(b)
        } else {
            Set::<B>::empty().insert(b)
        },
    );
    assert(e2[entries.len() as int] == (a, b));
    assert forall|x: A| #[trigger] lhs.contains_key(x) == rhs.contains_key(x) by {
        if lhs.contains_key(x) && x != a {
            let i = choose|i: int| 0 <= i < e2.len() && (#[trigger] e2[i]).0 == x;
            assert(entries[i] == e2[i]);
        }
        if rhs.contains_key(x) && x != a {
            let i = choose|i: int| 0 <= i < entries.len() && (#[trigger] entries[i]).0 == x;
            assert(e2[i] == entries[i]);
        }
    }
    assert forall|x: A| #[trigger] lhs.contains_key(x) implies lhs[x] == rhs[x] by {
        assert forall|y: B| #[trigger] lhs[x].contains(y) == rhs[x].contains(y) by {
            if lhs[x].contains(y) && !(x == a && y == b) {
                let i = choose|i: int| 0 <= i < e2.len() && (#[trigger] e2[i]) == (x, y);
                assert(entries[i] == e2[i]);
                assert(grouped(entries).contains_key(x));
            }
            if grouped(entries).contains_key(x) && grouped(entries)[x].contains(y) {
                let i = choose|i: int| 0 <= i < entries.len() && (#[trigger] entries[i]) == (x, y);
                assert(e2[i] == entries[i]);
            }
        }
        assert(lhs[x] =~= rhs[x]);
    }
    assert(lhs =~= rhs);
}

/// An exact copy of a byte vector.
fn copy_bytes(v: &Vec<u8>) -> (c: Vec<u8>)
    ensures
        c@ == v@,
{
    let mut c: Vec<u8> = Vec::new();
    let mut i: usize = 0;
    while i < v.len()
        invariant
            i <= v@.len(),
            c@ == v@.take(i as int),
        decreases v@.len() - i,
    {
        c.push(v[i]);
        i = i + 1;
        proof {
            assert(c@ =~= v@.take(i as int));
        }
    }
    proof {
        assert(v@.take(v@.len() as int) =~= v@);
    }
    c
}

/// Records one entry in the memo.
#[verifier::spinoff_prover]
fn memo_record(
    memo: &mut BatchChangeMemo,
    control_id: EventId,
    change: &BatchChange,
    Ghost(entries): Ghost<Seq<(EventId, BatchChange)>>,
)
    requires
        memo_of(*old(memo), entries),
    ensures
        memo_of(*final(memo), entries.push((control_id, *change))),
{
    let ghost e2 = entries.push((control_id, *change));
    let hash = change.candidate.change_hash;
    let ghost old_memo = *memo;
    assert(e2[entries.len() as int] == (control_id, *change));
    assert forall|j: int| #![trigger e2[j]] #![trigger entries[j]] 0 <= j < entries.len() implies e2[j] == entries[j] by {}
    if !memo.candidates.contains_key(&hash) {
        let copy = change.candidate.duplicate();
        memo.candidates.insert(hash, copy);
        proof {
            assert(first_with_hash(e2, hash, entries.len() as int)) by {
                assert forall|j: int| 0 <= j < entries.len() implies (#[trigger] e2[j]).1.candidate.change_hash != hash by {
                    if e2[j].1.candidate.change_hash == hash {
                        let k = choose_first(entries, hash, j);
                        assert(first_with_hash(entries, hash, k));
                    }
                }
            }
        }
    }
    proof {
        assert forall|h: ChangeHash| #[trigger] memo.candidates@.contains_key(h) <==> exists|i: int| first_with_hash(e2, h, i) by {
            if exists|i: int| first_with_hash(e2, h, i) {
                let i = choose|i: int| first_with_hash(e2, h, i);
                if i < entries.len() {
                    assert(first_with_hash(entries, h, i));
                }
            }
            if old_memo.candidates@.contains_key(h) {
                let i = choose|i: int| first_with_hash(entries, h, i);
                assert(first_with_hash(e2, h, i));
            }
        }
        assert forall|h: ChangeHash, i: int|
            #[trigger] memo.candidates@.contains_key(h) && #[trigger] first_with_hash(e2, h, i) implies same_candidate(
                memo.candidates@[h],
                e2[i].1.candidate,
            ) by {
            if i < entries.len() {
                assert(first_with_hash(entries, h, i));
            } else if old_memo.candidates@.contains_key(h) {
                let k = choose|k: int| first_with_hash(entries, h, k);
                assert(first_with_hash(e2, h, k));
            }
        }
    }
    let ghost mid_memo = *memo;
    match &change.raw_change {
        Some(raw) => {
            if !memo.raw_changes.contains_key(&hash) {
                let bytes = copy_bytes(raw);
                memo.raw_changes.insert(hash, bytes);
                proof {
                    assert(first_raw_with_hash(e2, hash, entries.len() as int)) by {
                        assert forall|j: int| 0 <= j < entries.len() implies !((#[trigger] e2[j]).1.candidate.change_hash
                            == hash && e2[j].1.raw_change is Some) by {
                            if e2[j].1.candidate.change_hash == hash && e2[j].1.raw_change is Some {
                                let k = choose_first_raw(entries, hash, j);
                                assert(first_raw_with_hash(entries, hash, k));
                            }
                        }
                    }
                }
            }
        },
        None => {},
    }
    proof {
        assert forall|h: ChangeHash| #[trigger] memo.raw_changes@.contains_key(h) <==> exists|i: int|
            first_raw_with_hash(e2, h, i) by {
            if exists|i: int| first_raw_with_hash(e2, h, i) {
                let i = choose|i: int| first_raw_with_hash(e2, h, i);
                if i < entries.len() {
                    assert(first_raw_with_hash(entries, h, i));
                }
            }
            if old_memo.raw_changes@.contains_key(h) {
                let i = choose|i: int| first_raw_with_hash(entries, h, i);
                assert(first_raw_with_hash(e2, h, i));
            }
        }
        assert forall|h: ChangeHash, i: int|
            #[trigger] memo.raw_changes@.contains_key(h) && #[trigger] first_raw_with_hash(e2, h, i) implies memo.raw_changes@[h]@
            == e2[i].1.raw_change->0@ by {
            if i < entries.len() {
                assert(first_raw_with_hash(entries, h, i));
            } else if old_memo.raw_changes@.contains_key(h) {
                let k = choose|k: int| first_raw_with_hash(entries, h, k);
                assert(first_raw_with_hash(e2, h, k));
            }
        }
    }
    insert_into_set_entry(&mut memo.hashes_by_control, control_id, hash);
    insert_into_set_entry(&mut memo.controls_by_hash, hash, control_id);
    proof {
        assert(control_hash_pairs(e2) =~= control_hash_pairs(entries).push((control_id, hash)));
        assert(hash_control_pairs(e2) =~= hash_control_pairs(entries).push((hash, control_id)));
        lemma_grouped_push(control_hash_pairs(entries), control_id, hash);
        lemma_grouped_push(hash_control_pairs(entries), hash, control_id);
    }
}

/// Some entry before or at `j` is the first with hash `h`, given that the
/// entry at `j` has it.
proof fn choose_first(entries: Seq<(EventId, BatchChange)>, h: ChangeHash, j: int) -> (i: int)
    requires
        0 <= j < entries.len(),
        entries[j].1.candidate.change_hash == h,
    ensures
        first_with_hash(entries, h, i),
        i <= j,
    decreases j,
{
    if exists|k: int| 0 <= k < j && (#[trigger] entries[k]).1.candidate.change_hash == h {
        let k = choose|k: int| 0 <= k < j && (#[trigger] entries[k]).1.candidate.change_hash == h;
        choose_first(entries, h, k)
    } else {
        j
    }
}

/// Some entry before or at `j` is the first with hash `h` and bytes, given
/// that the entry at `j` has both.
proof fn choose_first_raw(entries: Seq<(EventId, BatchChange)>, h: ChangeHash, j: int) -> (i: int)
    requires
        0 <= j < entries.len(),
        entries[j].1.candidate.change_hash == h,
        entries[j].1.raw_change is Some,
    ensures
        first_raw_with_hash(entries, h, i),
        i <= j,
    decreases j,
{
    if exists|k: int|
        0 <= k < j && (#[trigger] entries[k]).1.candidate.change_hash == h && entries[k].1.raw_change is Some {
        let k = choose|k: int|
            0 <= k < j && (#[trigger] entries[k]).1.candidate.change_hash == h && entries[k].1.raw_change is Some;
        choose_first_raw(entries, h, k)
    } else {
        j
    }
}

impl BatchChangeMemo {
    /// The empty memo.
    pub fn new() -> (memo: Self)
        ensures
            memo_of(memo, Seq::empty()),
    {
        let memo = BatchChangeMemo {
            candidates: OrdMap::new(),
            raw_changes: OrdMap::new(),
            hashes_by_control: OrdMap::new(),
            controls_by_hash: OrdMap::new(),
        };
        proof {
            let e = Seq::<(EventId, BatchChange)>::empty();
            assert(sets_view(memo.hashes_by_control) =~= grouped(control_hash_pairs(e)));
            assert(sets_view(memo.controls_by_hash) =~= grouped(hash_control_pairs(e)));
        }
        memo
    }

    /// Gathers the memo of every change of `controls`, in control order.
    ///
    /// Before each change one node unit is charged, after a cancellation
    /// check, and then one edge unit for each of its dependencies.
    #[verifier::spinoff_prover]
    pub fn derive(
        controls: &OrdMap<EventId, BatchControl>,
        budget: &mut WorkBudget,
        cancellation: &impl CancellationCheck,
    ) -> (r: Result<Self, WorkStop>)
        requires
            controls.wf(),
        ensures
            budget_grew(*old(budget), *final(budget)),
            r == Err::<Self, WorkStop>(WorkStop::BudgetExhausted) ==> operations_exhausted(*final(budget)),
            r == Err::<Self, WorkStop>(WorkStop::Cancelled) ==> !cancellation.never_cancels(),
            r matches Ok(memo) ==> memo_of(
                memo,
                batch_entries(controls@, controls.key_seq(), controls.key_seq().len() as int),
            ),
            r is Ok ==> {
                let entries = batch_entries(controls@, controls.key_seq(), controls.key_seq().len() as int);
                final(budget).usage().operations() == old(budget).usage().operations() + entries.len()
                    + dependency_total(entries)
            },
            cancellation.never_cancels() && affords(
                *old(budget),
                entries_weight(batch_entries(controls@, controls.key_seq(), controls.key_seq().len() as int)),
            ) ==> r is Ok,
    {
        let ghost start = *budget;
        let ghost cm = controls@;
        let ghost keys = controls.key_seq();
        let ghost total = entries_weight(batch_entries(cm, keys, keys.len() as int));
        let mut memo = BatchChangeMemo::new();
        let n = controls.len();
        let mut i: usize = 0;
        while i < n
            invariant
                controls.wf(),
                cm == controls@,
                keys == controls.key_seq(),
                n == keys.len(),
                i <= n,
                start == *old(budget),
                budget_grew(start, *budget),
                memo_of(memo, batch_entries(cm, keys, i as int)),
                budget.usage().operations() == start.usage().operations() + batch_entries(cm, keys, i as int).len()
                    + dependency_total(batch_entries(cm, keys, i as int)),
                total == entries_weight(batch_entries(cm, keys, n as int)),
            decreases n - i,
        {
            let control_id = controls.key_at(i);
            let control = controls.value_at(i);
            proof {
                controls.lemma_position(i as int);
            }
            let ghost before = batch_entries(cm, keys, i as int);
            let changes = &control.changes;
            let ghost full = before + changes@.map_values(|c: BatchChange| (control_id, c));
            proof {
                assert(full == batch_entries(cm, keys, i + 1));
                lemma_entries_weight_monotone(cm, keys, i + 1, n as int);
            }
            let mut j: usize = 0;
            proof {
                assert(before + changes@.take(0).map_values(|c: BatchChange| (control_id, c)) =~= before);
            }
            while j < changes.len()
                invariant
                    start == *old(budget),
                    budget_grew(start, *budget),
                    j <= changes@.len(),
                    full == before + changes@.map_values(|c: BatchChange| (control_id, c)),
                    entries_weight(full) <= total,
                    cm == controls@,
                    keys == controls.key_seq(),
                    total == entries_weight(batch_entries(cm, keys, keys.len() as int)),
                    memo_of(memo, before + changes@.take(j as int).map_values(|c: BatchChange| (control_id, c))),
                    ({
                        let so_far = before + changes@.take(j as int).map_values(|c: BatchChange| (control_id, c));
                        budget.usage().operations() == start.usage().operations() + so_far.len() + dependency_total(so_far)
                    }),
                decreases changes@.len() - j,
            {
                let ghost so_far = before + changes@.take(j as int).map_values(|c: BatchChange| (control_id, c));
                proof {
                    let grown = so_far.push((control_id, changes@[j as int]));
                    assert(grown.drop_last() =~= so_far);
                    assert(grown + changes@.skip(j + 1).map_values(|c: BatchChange| (control_id, c)) =~= full);
                    lemma_weight_append(grown, changes@.skip(j + 1).map_values(|c: BatchChange| (control_id, c)));
                    assert(dependency_total(grown) == dependency_total(so_far) + changes@[j as int].candidate.dependencies@.len());
                    assert(budget.usage().operations() + 1 + changes@[j as int].candidate.dependencies@.len()
                        <= start.usage().operations() + total);
                }
                let c = charge_from(budget, cancellation, WorkCounter::GraphNode, Ghost(start));
                proof {
                    match c {
                        Err(WorkStop::Cancelled) => {},
                        Err(WorkStop::BudgetExhausted) => {},
                        Ok(()) => {},
                    }
                }
                if let Err(e) = c {
                    return Err(e);
                }
                let change = &changes[j];
                let deps = change.candidate.dependencies.len();
                let mut d: usize = 0;
                let ghost ops_before = budget.usage().operations();
                while d < deps
                    invariant
                        start == *old(budget),
                        budget_grew(start, *budget),
                        d <= deps,
                        budget.usage().operations() == ops_before + d,
                        ops_before + deps <= start.usage().operations() + total,
                        cm == controls@,
                        keys == controls.key_seq(),
                        total == entries_weight(batch_entries(cm, keys, keys.len() as int)),
                    decreases deps - d,
                {
                    let c = charge_from(budget, cancellation, WorkCounter::GraphEdge, Ghost(start));
                    proof {
                        match c {
                            Err(WorkStop::Cancelled) => {},
                            Err(WorkStop::BudgetExhausted) => {},
                            Ok(()) => {},
                        }
                    }
                    if let Err(e) = c {
                        return Err(e);
                    }
                    d = d + 1;
                }
                memo_record(&mut memo, control_id, change, Ghost(so_far));
                proof {
                    assert(before + changes@.take(j + 1).map_values(|c: BatchChange| (control_id, c)) =~= so_far.push(
                        (control_id, *change),
                    ));
                    assert(so_far.push((control_id, *change)).drop_last() =~= so_far);
                }
                j = j + 1;
            }
            proof {
                assert(changes@.take(changes@.len() as int) =~= changes@);
                assert(batch_entries(cm, keys, i + 1) =~= before + changes@.take(changes@.len() as int).map_values(
                    |c: BatchChange| (control_id, c),
                ));
            }
            i = i + 1;
        }
        Ok(memo)
    }
}

/// What is known of each change before the epoch of `selected` is evaluated,
/// built in layers: the accepted `base`; the epoch's own changes
/// `same_epoch`, where not in the base; changes of the parent's accepted
/// closure `pruned_from` that the base dropped, overriding; changes also
/// written under another control, where nothing is known yet; and changes
/// found invalid or excluded before, outside the base, where nothing is
/// known yet.
pub open spec fn knowledge_layers(
    base: Set<ChangeHash>,
    same_epoch: Set<ChangeHash>,
    pruned_from: Option<Set<ChangeHash>>,
    controls_by_hash: Map<ChangeHash, Set<EventId>>,
    selected: EventId,
    dispositions: Map<ChangeHash, ProtocolDisposition>,
) -> Map<ChangeHash, PriorChangeKnowledge> {
    let in_base = Map::new(|h: ChangeHash| base.contains(h), |h: ChangeHash| PriorChangeKnowledge::AcceptedInBase);
    let with_epoch = same_epoch_layer(same_epoch).union_prefer_right(in_base);
    let with_pruned = match pruned_from {
        Some(closure) => with_epoch.union_prefer_right(pruned_layer(closure, base)),
        None => with_epoch,
    };
    let with_other = other_control_layer(controls_by_hash, selected).union_prefer_right(with_pruned);
    earlier_verdict_layer(dispositions, base).union_prefer_right(with_other)
}

/// The epoch's own changes.
pub open spec fn same_epoch_layer(same_epoch: Set<ChangeHash>) -> Map<ChangeHash, PriorChangeKnowledge> {
    Map::new(|h: ChangeHash| same_epoch.contains(h), |h: ChangeHash| PriorChangeKnowledge::SameEpochCandidate)
}

/// Changes of `closure` outside `base`.
pub open spec fn pruned_layer(closure: Set<ChangeHash>, base: Set<ChangeHash>) -> Map<ChangeHash, PriorChangeKnowledge> {
    Map::new(
        |h: ChangeHash| closure.contains(h) && !base.contains(h),
        |h: ChangeHash| PriorChangeKnowledge::PrunedCanonicalAncestor,
    )
}

/// A hash is written under a control other than `selected`.
pub open spec fn under_other_control(
    controls_by_hash: Map<ChangeHash, Set<EventId>>,
    selected: EventId,
    h: ChangeHash,
) -> bool {
    controls_by_hash.contains_key(h) && exists|id: EventId| #[trigger] controls_by_hash[h].contains(id) && id != selected
}

/// Changes written under a control other than `selected`.
pub open spec fn other_control_layer(
    controls_by_hash: Map<ChangeHash, Set<EventId>>,
    selected: EventId,
) -> Map<ChangeHash, PriorChangeKnowledge> {
    Map::new(
        |h: ChangeHash| under_other_control(controls_by_hash, selected, h),
        |h: ChangeHash| PriorChangeKnowledge::KnownOtherControl,
    )
}

/// Changes found invalid or excluded before, outside `base`.
pub open spec fn earlier_verdict_layer(
    dispositions: Map<ChangeHash, ProtocolDisposition>,
    base: Set<ChangeHash>,
) -> Map<ChangeHash, PriorChangeKnowledge> {
    Map::new(
        |h: ChangeHash|
            dispositions.contains_key(h) && !base.contains(h) && (dispositions[h] == ProtocolDisposition::Invalid
                || dispositions[h] == ProtocolDisposition::Excluded),
        |h: ChangeHash|
            if dispositions[h] == ProtocolDisposition::Invalid {
                PriorChangeKnowledge::KnownInvalid
            } else {
                PriorChangeKnowledge::PriorEquivocationExcluded
            },
    )
}

/// The members of a strictly ascending sequence's first `i` positions.
spec fn seen(s: Seq<ChangeHash>, i: int) -> Set<ChangeHash> {
    s.take(i).to_set()
}

/// Whether some member of `ids` differs from `selected`, scanning in
/// ascending order, charging one control unit before each member read,
/// and stopping at the first that differs.
fn has_other_control(
    ids: &OrdSet<EventId>,
    selected: EventId,
    budget: &mut WorkBudget,
    cancellation: &impl CancellationCheck,
    Ghost(start): Ghost<WorkBudget>,
) -> (r: Result<bool, WorkStop>)
    requires
        ids.wf(),
        budget_grew(start, *old(budget)),
    ensures
        budget_grew(start, *final(budget)),
        r == Err::<bool, WorkStop>(WorkStop::BudgetExhausted) ==> operations_exhausted(*final(budget)),
        r == Err::<bool, WorkStop>(WorkStop::Cancelled) ==> !cancellation.never_cancels(),
        r matches Ok(b) ==> b == exists|id: EventId| #[trigger] ids@.contains(id) && id != selected,
        final(budget).usage().operations() <= old(budget).usage().operations() + ids@.len(),
        cancellation.never_cancels() && affords(*old(budget), ids@.len() as int) ==> r is Ok,
{
    let ghost entry = *budget;
    let n = ids.len();
    let mut i: usize = 0;
    while i < n
        invariant
            ids.wf(),
            n == ids.seq().len(),
            n == ids@.len(),
            i <= n,
            budget_grew(start, *budget),
            budget_grew(entry, *budget),
            entry == *old(budget),
            budget.usage().operations() <= entry.usage().operations() + i,
            cancellation.never_cancels() && affords(entry, n as int) ==> budget.usage().operations()
                == entry.usage().operations() + i,
            forall|k: int| 0 <= k < i ==> #[trigger] ids.seq()[k] == selected,
        decreases n - i,
    {
        let ghost before = *budget;
        let c = charge_from(budget, cancellation, WorkCounter::Control, Ghost(start));
        proof {
            lemma_budget_grew_trans(entry, before, *budget);
            match c {
                Err(WorkStop::Cancelled) => {},
                Err(WorkStop::BudgetExhausted) => {},
                Ok(()) => {},
            }
        }
        if let Err(e) = c {
            return Err(e);
        }
        let id = ids.get(i);
        if !id.same_as(&selected) {
            proof {
                assert(ids.seq().contains(id));
                assert(ids@.contains(id));
            }
            return Ok(true);
        }
        i = i + 1;
    }
    proof {
        assert forall|id: EventId| #[trigger] ids@.contains(id) implies id == selected by {
            let k = choose|k: int| 0 <= k < ids.seq().len() && ids.seq()[k] == id;
            assert(ids.seq()[k] == selected);
        }
    }
    Ok(false)
}

/// The most controls any one of `s` holds.
pub open spec fn max_ids_len(s: Seq<OrdSet<EventId>>) -> nat
    decreases s.len(),
{
    if s.len() == 0 {
        0
    } else if s.last()@.len() > max_ids_len(s.drop_last()) {
        s.last()@.len()
    } else {
        max_ids_len(s.drop_last())
    }
}

/// Each of the sets `s` is no larger than the largest.
pub proof fn lemma_max_ids_len(s: Seq<OrdSet<EventId>>, i: int)
    requires
        0 <= i < s.len(),
    ensures
        s[i]@.len() <= max_ids_len(s),
    decreases s.len(),
{
    if i < s.len() - 1 {
        lemma_max_ids_len(s.drop_last(), i);
    }
}

/// The units gathering prior knowledge charges at most: one for each
/// accepted change of the base (`b`), each hash recorded under the control
/// (`e`) and each change of the parent's closure (`c`), and for each of the
/// `k` hashes whose controls are scanned one unit and one more for each of
/// its at most `m` controls; then one for each of the `d` earlier
/// dispositions.
pub open spec fn knowledge_cost(b: int, e: int, c: int, k: int, m: int, d: int) -> int {
    b + e + c + k * (1 + m) + d
}

/// What is known of each change before the epoch of `selected_control` is
/// evaluated: `knowledge_layers` over the selected base, the hashes the
/// memo records under the control, the parent's accepted closure, the
/// memo's controls of each hash and the dispositions so far.
///
/// One node unit is charged before each base member, each epoch change,
/// each member of the parent's closure, each hash of the memo and each
/// disposition; one control unit before each control read while looking
/// for another control of a hash.
#[verifier::spinoff_prover]
pub fn prior_change_knowledge(
    parent_closure: Option<&OrdSet<ChangeHash>>,
    selected_base: &OrdSet<ChangeHash>,
    dispositions: &OrdMap<ChangeHash, ProtocolDisposition>,
    selected_control: EventId,
    memo: &BatchChangeMemo,
    budget: &mut WorkBudget,
    cancellation: &impl CancellationCheck,
) -> (r: Result<OrdMap<ChangeHash, PriorChangeKnowledge>, WorkStop>)
    requires
        parent_closure matches Some(closure) ==> closure.wf(),
        selected_base.wf(),
        dispositions.wf(),
        sets_wf(memo.hashes_by_control),
        sets_wf(memo.controls_by_hash),
    ensures
        budget_grew(*old(budget), *final(budget)),
        r == Err::<OrdMap<ChangeHash, PriorChangeKnowledge>, WorkStop>(WorkStop::BudgetExhausted)
            ==> operations_exhausted(*final(budget)),
        r == Err::<OrdMap<ChangeHash, PriorChangeKnowledge>, WorkStop>(WorkStop::Cancelled)
            ==> !cancellation.never_cancels(),
        r matches Ok(knowledge) ==> knowledge.wf() && knowledge@ == knowledge_layers(
            selected_base@,
            if sets_view(memo.hashes_by_control).contains_key(selected_control) {
                sets_view(memo.hashes_by_control)[selected_control]
            } else {
                Set::empty()
            },
            match parent_closure {
                Some(closure) => Some(closure@),
                None => None,
            },
            sets_view(memo.controls_by_hash),
            selected_control,
            dispositions@,
        ),
        final(budget).usage().operations() <= old(budget).usage().operations() + knowledge_cost(
            selected_base@.len() as int,
            (if sets_view(memo.hashes_by_control).contains_key(selected_control) {
                sets_view(memo.hashes_by_control)[selected_control].len()
            } else {
                0
            }) as int,
            (match parent_closure {
                Some(closure) => closure@.len(),
                None => 0,
            }) as int,
            memo.controls_by_hash@.dom().len() as int,
            max_ids_len(memo.controls_by_hash.val_seq()) as int,
            dispositions@.dom().len() as int,
        ),
        cancellation.never_cancels() && affords(
            *old(budget),
            knowledge_cost(
                selected_base@.len() as int,
                (if sets_view(memo.hashes_by_control).contains_key(selected_control) {
                    sets_view(memo.hashes_by_control)[selected_control].len()
                } else {
                    0
                }) as int,
                (match parent_closure {
                    Some(closure) => closure@.len(),
                    None => 0,
                }) as int,
                memo.controls_by_hash@.dom().len() as int,
                max_ids_len(memo.controls_by_hash.val_seq()) as int,
                dispositions@.dom().len() as int,
            ),
        ) ==> r is Ok,
        cancellation.never_cancels() && operations_exhausted(*old(budget)) && selected_base@.len() > 0 ==> r
            == Err::<OrdMap<ChangeHash, PriorChangeKnowledge>, WorkStop>(WorkStop::BudgetExhausted),
{
    let ghost start = *budget;
    let ghost nb = selected_base@.len() as int;
    let ghost ne = (if sets_view(memo.hashes_by_control).contains_key(selected_control) {
        sets_view(memo.hashes_by_control)[selected_control].len()
    } else {
        0
    }) as int;
    let ghost nc = (match parent_closure {
        Some(closure) => closure@.len(),
        None => 0,
    }) as int;
    let ghost nk = memo.controls_by_hash@.dom().len() as int;
    let ghost mi = max_ids_len(memo.controls_by_hash.val_seq()) as int;
    let ghost nd = dispositions@.dom().len() as int;
    let ghost cost = knowledge_cost(nb, ne, nc, nk, mi, nd);
    let ghost never = cancellation.never_cancels() && affords(start, cost);
    proof {
        assert(nk * (1 + mi) >= 0) by (nonlinear_arith)
            requires
                nk >= 0,
                mi >= 0,
        ;
    }
    let ghost base = selected_base@;
    let mut knowledge: OrdMap<ChangeHash, PriorChangeKnowledge> = OrdMap::new();
    let n = selected_base.len();
    let mut i: usize = 0;
    proof {
        assert(knowledge@ =~= Map::new(
            |h: ChangeHash| seen(selected_base.seq(), 0).contains(h),
            |h: ChangeHash| PriorChangeKnowledge::AcceptedInBase,
        ));
    }
    while i < n
        invariant
            selected_base.wf(),
            knowledge.wf(),
            n == selected_base.seq().len(),
            i <= n,
            start == *old(budget),
            budget_grew(start, *budget),
            nb == n,
            budget.usage().operations() <= start.usage().operations() + i,
            cost == knowledge_cost(nb, ne, nc, nk, mi, nd),
            nd >= 0,
            nk * (1 + mi) >= 0,
            ne >= 0,
            nc >= 0,
            never == (cancellation.never_cancels() && affords(start, cost)),
            i > 0 ==> !(cancellation.never_cancels() && operations_exhausted(start)),
            nb == selected_base@.len() as int,
            ne == (if sets_view(memo.hashes_by_control).contains_key(selected_control) {
                sets_view(memo.hashes_by_control)[selected_control].len()
            } else {
                0
            }) as int,
            nc == (match parent_closure {
                Some(closure) => closure@.len(),
                None => 0,
            }) as int,
            nk == memo.controls_by_hash@.dom().len() as int,
            mi == max_ids_len(memo.controls_by_hash.val_seq()) as int,
            nd == dispositions@.dom().len() as int,
            knowledge@ == Map::new(
                |h: ChangeHash| seen(selected_base.seq(), i as int).contains(h),
                |h: ChangeHash| PriorChangeKnowledge::AcceptedInBase,
            ),
        decreases n - i,
    {
        proof {
            lemma_grew_operations(start, *budget);
        }
        let c = charge_from(budget, cancellation, WorkCounter::GraphNode, Ghost(start));
        proof {
            match c {
                Err(WorkStop::Cancelled) => {},
                Err(WorkStop::BudgetExhausted) => {},
                Ok(()) => {},
            }
        }
        if let Err(e) = c {
            return Err(e);
        }
        let hash = selected_base.get(i);
        knowledge.insert(hash, PriorChangeKnowledge::AcceptedInBase);
        proof {
            lemma_sorted_prefix_step(selected_base.seq(), i as int);
            assert(knowledge@ =~= Map::new(
                |h: ChangeHash| seen(selected_base.seq(), i + 1).contains(h),
                |h: ChangeHash| PriorChangeKnowledge::AcceptedInBase,
            ));
        }
        i = i + 1;
    }
    proof {
        assert(selected_base.seq().take(n as int) =~= selected_base.seq());
    }
    let ghost in_base = knowledge@;
    let ghost same_epoch = if sets_view(memo.hashes_by_control).contains_key(selected_control) {
        sets_view(memo.hashes_by_control)[selected_control]
    } else {
        Set::<ChangeHash>::empty()
    };
    match memo.hashes_by_control.get(&selected_control) {
        Some(hashes) => {
            let n = hashes.len();
            let mut i: usize = 0;
            proof {
                assert(same_epoch_layer(seen(hashes.seq(), 0)).union_prefer_right(in_base) =~= knowledge@);
            }
            while i < n
                invariant
                    hashes.wf(),
                    knowledge.wf(),
                    n == hashes.seq().len(),
                    i <= n,
                    start == *old(budget),
                    budget_grew(start, *budget),
                    ne == n,
                    budget.usage().operations() <= start.usage().operations() + nb + i,
                    cost == knowledge_cost(nb, ne, nc, nk, mi, nd),
            nd >= 0,
                    nk * (1 + mi) >= 0,
                    ne >= 0,
                    nc >= 0,
                    never == (cancellation.never_cancels() && affords(start, cost)),
                    nb > 0 ==> !(cancellation.never_cancels() && operations_exhausted(start)),
                    nb == selected_base@.len() as int,
                    ne == (if sets_view(memo.hashes_by_control).contains_key(selected_control) {
                        sets_view(memo.hashes_by_control)[selected_control].len()
                    } else {
                        0
                    }) as int,
                    nc == (match parent_closure {
                        Some(closure) => closure@.len(),
                        None => 0,
                    }) as int,
                    nk == memo.controls_by_hash@.dom().len() as int,
                    mi == max_ids_len(memo.controls_by_hash.val_seq()) as int,
                    nd == dispositions@.dom().len() as int,
                    knowledge@ == same_epoch_layer(seen(hashes.seq(), i as int)).union_prefer_right(in_base),
                decreases n - i,
            {
                let c = charge_from(budget, cancellation, WorkCounter::GraphNode, Ghost(start));
                proof {
                    match c {
                        Err(WorkStop::Cancelled) => {},
                        Err(WorkStop::BudgetExhausted) => {},
                        Ok(()) => {},
                    }
                }
                if let Err(e) = c {
                    return Err(e);
                }
                let hash = hashes.get(i);
                if !knowledge.contains_key(&hash) {
                    knowledge.insert(hash, PriorChangeKnowledge::SameEpochCandidate);
                }
                proof {
                    lemma_sorted_prefix_step(hashes.seq(), i as int);
                    assert(knowledge@ =~= same_epoch_layer(seen(hashes.seq(), i + 1)).union_prefer_right(in_base));
                }
                i = i + 1;
            }
            proof {
                assert(hashes.seq().take(n as int) =~= hashes.seq());
                assert(same_epoch == hashes@);
            }
        },
        None => {
            proof {
                assert(same_epoch_layer(Set::<ChangeHash>::empty()).union_prefer_right(in_base) =~= knowledge@);
            }
        },
    }
    let ghost with_epoch = knowledge@;
    match parent_closure {
        Some(closure) => {
            let n = closure.len();
            let mut i: usize = 0;
            proof {
                assert(with_epoch.union_prefer_right(pruned_layer(seen(closure.seq(), 0), base)) =~= knowledge@);
            }
            while i < n
                invariant
                    closure.wf(),
                    selected_base.wf(),
                    base == selected_base@,
                    knowledge.wf(),
                    n == closure.seq().len(),
                    i <= n,
                    start == *old(budget),
                    budget_grew(start, *budget),
                    nc == n,
                    budget.usage().operations() <= start.usage().operations() + nb + ne + i,
                    cost == knowledge_cost(nb, ne, nc, nk, mi, nd),
            nd >= 0,
                    nk * (1 + mi) >= 0,
                    ne >= 0,
                    nc >= 0,
                    never == (cancellation.never_cancels() && affords(start, cost)),
                    nb > 0 ==> !(cancellation.never_cancels() && operations_exhausted(start)),
                    nb == selected_base@.len() as int,
                    ne == (if sets_view(memo.hashes_by_control).contains_key(selected_control) {
                        sets_view(memo.hashes_by_control)[selected_control].len()
                    } else {
                        0
                    }) as int,
                    nc == (match parent_closure {
                        Some(closure) => closure@.len(),
                        None => 0,
                    }) as int,
                    nk == memo.controls_by_hash@.dom().len() as int,
                    mi == max_ids_len(memo.controls_by_hash.val_seq()) as int,
                    nd == dispositions@.dom().len() as int,
                    knowledge@ == with_epoch.union_prefer_right(pruned_layer(seen(closure.seq(), i as int), base)),
                decreases n - i,
            {
                let c = charge_from(budget, cancellation, WorkCounter::GraphNode, Ghost(start));
                proof {
                    match c {
                        Err(WorkStop::Cancelled) => {},
                        Err(WorkStop::BudgetExhausted) => {},
                        Ok(()) => {},
                    }
                }
                if let Err(e) = c {
                    return Err(e);
                }
                let hash = closure.get(i);
                if !selected_base.contains(&hash) {
                    knowledge.insert(hash, PriorChangeKnowledge::PrunedCanonicalAncestor);
                }
                proof {
                    lemma_sorted_prefix_step(closure.seq(), i as int);
                    assert(knowledge@ =~= with_epoch.union_prefer_right(
                        pruned_layer(seen(closure.seq(), i + 1), base),
                    ));
                }
                i = i + 1;
            }
            proof {
                assert(closure.seq().take(n as int) =~= closure.seq());
            }
        },
        None => {},
    }
    let ghost with_pruned = knowledge@;
    let ghost cbh = sets_view(memo.controls_by_hash);
    let n = memo.controls_by_hash.len();
    let mut i: usize = 0;
    proof {
        assert(0 * (1 + mi) == 0) by (nonlinear_arith);
        assert(other_control_layer(cbh.restrict(seen(memo.controls_by_hash.key_seq(), 0)), selected_control)
            .union_prefer_right(with_pruned) =~= knowledge@);
    }
    while i < n
        invariant
            sets_wf(memo.controls_by_hash),
            cbh == sets_view(memo.controls_by_hash),
            knowledge.wf(),
            n == memo.controls_by_hash.key_seq().len(),
            i <= n,
            start == *old(budget),
            budget_grew(start, *budget),
            nk == n,
            budget.usage().operations() <= start.usage().operations() + nb + ne + nc + i * (1 + mi),
            cost == knowledge_cost(nb, ne, nc, nk, mi, nd),
            nd >= 0,
            nk * (1 + mi) >= 0,
            ne >= 0,
            nc >= 0,
            never == (cancellation.never_cancels() && affords(start, cost)),
            nb > 0 ==> !(cancellation.never_cancels() && operations_exhausted(start)),
            nb == selected_base@.len() as int,
            ne == (if sets_view(memo.hashes_by_control).contains_key(selected_control) {
                sets_view(memo.hashes_by_control)[selected_control].len()
            } else {
                0
            }) as int,
            nc == (match parent_closure {
                Some(closure) => closure@.len(),
                None => 0,
            }) as int,
            nk == memo.controls_by_hash@.dom().len() as int,
            mi == max_ids_len(memo.controls_by_hash.val_seq()) as int,
            nd == dispositions@.dom().len() as int,
            knowledge@ == other_control_layer(
                cbh.restrict(seen(memo.controls_by_hash.key_seq(), i as int)),
                selected_control,
            ).union_prefer_right(with_pruned),
        decreases n - i,
    {
        proof {
            assert((i + 1) * (1 + mi) == i * (1 + mi) + 1 + mi) by (nonlinear_arith);
            assert(i * (1 + mi) + 1 + mi <= nk * (1 + mi)) by (nonlinear_arith)
                requires
                    i + 1 <= nk,
                    mi >= 0,
            ;
        }
        let c = charge_from(budget, cancellation, WorkCounter::GraphNode, Ghost(start));
        proof {
            match c {
                Err(WorkStop::Cancelled) => {},
                Err(WorkStop::BudgetExhausted) => {},
                Ok(()) => {},
            }
        }
        if let Err(e) = c {
            return Err(e);
        }
        let hash = memo.controls_by_hash.key_at(i);
        let ids = memo.controls_by_hash.value_at(i);
        proof {
            memo.controls_by_hash.lemma_position(i as int);
            lemma_max_ids_len(memo.controls_by_hash.val_seq(), i as int);
        }
        let c = has_other_control(ids, selected_control, budget, cancellation, Ghost(start));
        proof {
            match c {
                Err(WorkStop::Cancelled) => {},
                Err(WorkStop::BudgetExhausted) => {},
                Ok(_) => {},
            }
        }
        let other = match c {
            Ok(v) => v,
            Err(e) => {
                return Err(e);
            },
        };
        if other && !knowledge.contains_key(&hash) {
            knowledge.insert(hash, PriorChangeKnowledge::KnownOtherControl);
        }
        proof {
            let keys = memo.controls_by_hash.key_seq();
            lemma_sorted_prefix_step(keys, i as int);
            let before = cbh.restrict(seen(keys, i as int));
            let after = cbh.restrict(seen(keys, i + 1));
            assert(cbh.contains_key(hash) && cbh[hash] == ids@);
            assert(after.contains_key(hash) && after[hash] == ids@);
            assert(under_other_control(after, selected_control, hash) == other);
            assert forall|h: ChangeHash| h != hash implies under_other_control(after, selected_control, h)
                == under_other_control(before, selected_control, h) by {
                if after.contains_key(h) {
                    assert(before.contains_key(h));
                    assert(after[h] == before[h]);
                }
                if before.contains_key(h) {
                    assert(after.contains_key(h));
                }
            }
            assert(knowledge@ =~= other_control_layer(cbh.restrict(seen(keys, i + 1)), selected_control).union_prefer_right(
                with_pruned,
            ));
        }
        i = i + 1;
    }
    proof {
        memo.controls_by_hash.lemma_len();
        assert(memo.controls_by_hash.key_seq().take(n as int) =~= memo.controls_by_hash.key_seq());
        assert(cbh.restrict(seen(memo.controls_by_hash.key_seq(), n as int)) =~= cbh);
    }
    proof {
        assert(i * (1 + mi) == nk * (1 + mi));
    }
    let ghost with_other = knowledge@;
    let ghost dv = dispositions@;
    let n = dispositions.len();
    let mut i: usize = 0;
    proof {
        assert(earlier_verdict_layer(dv.restrict(seen(dispositions.key_seq(), 0)), base).union_prefer_right(with_other)
            =~= knowledge@);
    }
    while i < n
        invariant
            dispositions.wf(),
            dv == dispositions@,
            selected_base.wf(),
            base == selected_base@,
            knowledge.wf(),
            n == dispositions.key_seq().len(),
            i <= n,
            start == *old(budget),
            budget_grew(start, *budget),
            nd == n,
            budget.usage().operations() <= start.usage().operations() + nb + ne + nc + nk * (1 + mi) + i,
            cost == knowledge_cost(nb, ne, nc, nk, mi, nd),
            nk * (1 + mi) >= 0,
            ne >= 0,
            nc >= 0,
            nd >= 0,
            never == (cancellation.never_cancels() && affords(start, cost)),
            nb > 0 ==> !(cancellation.never_cancels() && operations_exhausted(start)),
            nb == selected_base@.len() as int,
            ne == (if sets_view(memo.hashes_by_control).contains_key(selected_control) {
                sets_view(memo.hashes_by_control)[selected_control].len()
            } else {
                0
            }) as int,
            nc == (match parent_closure {
                Some(closure) => closure@.len(),
                None => 0,
            }) as int,
            nk == memo.controls_by_hash@.dom().len() as int,
            mi == max_ids_len(memo.controls_by_hash.val_seq()) as int,
            nd == dispositions@.dom().len() as int,
            knowledge@ == earlier_verdict_layer(dv.restrict(seen(dispositions.key_seq(), i as int)), base).union_prefer_right(
                with_other,
            ),
        decreases n - i,
    {
        let c = charge_from(budget, cancellation, WorkCounter::GraphNode, Ghost(start));
        proof {
            match c {
                Err(WorkStop::Cancelled) => {},
                Err(WorkStop::BudgetExhausted) => {},
                Ok(()) => {},
            }
        }
        if let Err(e) = c {
            return Err(e);
        }
        let hash = dispositions.key_at(i);
        let disposition = *dispositions.value_at(i);
        proof {
            dispositions.lemma_position(i as int);
        }
        if disposition == ProtocolDisposition::Invalid && !selected_base.contains(&hash) {
            if !knowledge.contains_key(&hash) {
                knowledge.insert(hash, PriorChangeKnowledge::KnownInvalid);
            }
        } else if disposition == ProtocolDisposition::Excluded && !selected_base.contains(&hash)
            && !knowledge.contains_key(&hash) {
            knowledge.insert(hash, PriorChangeKnowledge::PriorEquivocationExcluded);
        }
        proof {
            let keys = dispositions.key_seq();
            lemma_sorted_prefix_step(keys, i as int);
            assert(knowledge@ =~= earlier_verdict_layer(dv.restrict(seen(keys, i + 1)), base).union_prefer_right(
                with_other,
            ));
        }
        i = i + 1;
    }
    proof {
        dispositions.lemma_len();
        assert(dispositions.key_seq().take(n as int) =~= dispositions.key_seq());
        assert(dv.restrict(seen(dispositions.key_seq(), n as int)) =~= dv);
    }
    Ok(knowledge)
}

/// The dependencies of the changes of `entries` that are in `accepted`.
pub open spec fn accepted_dependencies(
    accepted: Set<ChangeHash>,
    entries: Seq<(EventId, BatchChange)>,
) -> Set<ChangeHash> {
    Set::new(
        |d: ChangeHash|
            exists|i: int|
                0 <= i < entries.len() && accepted.contains((#[trigger] entries[i]).1.candidate.change_hash)
                    && entries[i].1.candidate.dependencies@.contains(d),
    )
}

/// The accepted changes no accepted change of the batch depends on.
#[verifier::spinoff_prover]
pub fn derive_heads(accepted: &OrdSet<ChangeHash>, controls: &OrdMap<EventId, BatchControl>) -> (heads: OrdSet<
    ChangeHash,
>)
    requires
        accepted.wf(),
        controls.wf(),
    ensures
        heads.wf(),
        heads@ == accepted@.difference(
            accepted_dependencies(
                accepted@,
                batch_entries(controls@, controls.key_seq(), controls.key_seq().len() as int),
            ),
        ),
{
    let ghost cm = controls@;
    let ghost keys = controls.key_seq();
    let mut dependencies: OrdSet<ChangeHash> = OrdSet::new();
    let n = controls.len();
    let mut i: usize = 0;
    proof {
        assert(dependencies@ =~= accepted_dependencies(accepted@, batch_entries(cm, keys, 0)));
    }
    while i < n
        invariant
            accepted.wf(),
            controls.wf(),
            dependencies.wf(),
            cm == controls@,
            keys == controls.key_seq(),
            n == keys.len(),
            i <= n,
            dependencies@ == accepted_dependencies(accepted@, batch_entries(cm, keys, i as int)),
        decreases n - i,
    {
        let control_id = controls.key_at(i);
        let control = controls.value_at(i);
        proof {
            controls.lemma_position(i as int);
        }
        let ghost before = batch_entries(cm, keys, i as int);
        let changes = &control.changes;
        let mut j: usize = 0;
        proof {
            assert(before + changes@.take(0).map_values(|c: BatchChange| (control_id, c)) =~= before);
        }
        while j < changes.len()
            invariant
                accepted.wf(),
                dependencies.wf(),
                j <= changes@.len(),
                dependencies@ == accepted_dependencies(
                    accepted@,
                    before + changes@.take(j as int).map_values(|c: BatchChange| (control_id, c)),
                ),
            decreases changes@.len() - j,
        {
            let change = &changes[j];
            let ghost so_far = before + changes@.take(j as int).map_values(|c: BatchChange| (control_id, c));
            let ghost next = so_far.push((control_id, *change));
            let ghost deps_before = dependencies@;
            if accepted.contains(&change.candidate.change_hash) {
                let deps = &change.candidate.dependencies;
                let mut d: usize = 0;
                while d < deps.len()
                    invariant
                        dependencies.wf(),
                        d <= deps@.len(),
                        dependencies@ == deps_before.union(deps@.take(d as int).to_set()),
                    decreases deps@.len() - d,
                {
                    dependencies.insert(deps[d]);
                    proof {
                        assert(deps@.take(d + 1) =~= deps@.take(d as int).push(deps@[d as int]));
                        deps@.take(d as int).lemma_push_to_set_commute(deps@[d as int]);
                        assert(dependencies@ =~= deps_before.union(deps@.take(d + 1).to_set()));
                    }
                    d = d + 1;
                }
                proof {
                    assert(deps@.take(deps@.len() as int) =~= deps@);
                }
            }
            proof {
                assert(next[so_far.len() as int] == (control_id, *change));
                assert forall|k: int| #![trigger next[k]] #![trigger so_far[k]] 0 <= k < so_far.len() implies next[k]
                    == so_far[k] by {}
                assert forall|x: ChangeHash| #[trigger] accepted_dependencies(accepted@, next).contains(x)
                    == dependencies@.contains(x) by {
                    if accepted_dependencies(accepted@, next).contains(x) {
                        let k = choose|k: int|
                            0 <= k < next.len() && accepted@.contains((#[trigger] next[k]).1.candidate.change_hash)
                                && next[k].1.candidate.dependencies@.contains(x);
                        if k < so_far.len() {
                            assert(accepted_dependencies(accepted@, so_far).contains(x));
                        } else {
                            assert(change.candidate.dependencies@.to_set().contains(x));
                        }
                    }
                    if deps_before.contains(x) {
                        let k = choose|k: int|
                            0 <= k < so_far.len() && accepted@.contains((#[trigger] so_far[k]).1.candidate.change_hash)
                                && so_far[k].1.candidate.dependencies@.contains(x);
                        assert(next[k] == so_far[k]);
                    }
                    if dependencies@.contains(x) && !deps_before.contains(x) {
                        assert(change.candidate.dependencies@.to_set().contains(x));
                        assert(change.candidate.dependencies@.contains(x));
                        assert(next[so_far.len() as int].1.candidate.dependencies@.contains(x));
                    }
                }
                assert(accepted_dependencies(accepted@, next) =~= dependencies@);
                assert(before + changes@.take(j + 1).map_values(|c: BatchChange| (control_id, c)) =~= next);
            }
            j = j + 1;
        }
        proof {
            assert(changes@.take(changes@.len() as int) =~= changes@);
            assert(batch_entries(cm, keys, i + 1) =~= before + changes@.take(changes@.len() as int).map_values(
                |c: BatchChange| (control_id, c),
            ));
        }
        i = i + 1;
    }
    let ghost all_deps = dependencies@;
    let mut heads: OrdSet<ChangeHash> = OrdSet::new();
    let m = accepted.len();
    let mut k: usize = 0;
    proof {
        assert(heads@ =~= seen(accepted.seq(), 0).difference(all_deps));
    }
    while k < m
        invariant
            accepted.wf(),
            dependencies.wf(),
            heads.wf(),
            all_deps == dependencies@,
            m == accepted.seq().len(),
            k <= m,
            heads@ == seen(accepted.seq(), k as int).difference(all_deps),
        decreases m - k,
    {
        let hash = accepted.get(k);
        if !dependencies.contains(&hash) {
            heads.insert(hash);
        }
        proof {
            lemma_sorted_prefix_step(accepted.seq(), k as int);
            assert(heads@ =~= seen(accepted.seq(), k + 1).difference(all_deps));
        }
        k = k + 1;
    }
    proof {
        assert(accepted.seq().take(m as int) =~= accepted.seq());
    }
    heads
}

/// Whether the heads of the applied document are the derived heads.
pub fn applied_heads_agree(derived_heads: &OrdSet<ChangeHash>, applied_heads: &OrdSet<ChangeHash>) -> (r: bool)
    requires
        derived_heads.wf(),
        applied_heads.wf(),
    ensures
        r == (derived_heads@ == applied_heads@),
{
    same_members(derived_heads, applied_heads)
}

/// Charges one application unit for each change of `ordered` and one more
/// for the document, each after a cancellation check.
pub fn charge_application_work(
    ordered: &Vec<ChangeHash>,
    budget: &mut WorkBudget,
    cancellation: &impl CancellationCheck,
) -> (r: Result<(), WorkStop>)
    ensures
        budget_grew(*old(budget), *final(budget)),
        r == Err::<(), WorkStop>(WorkStop::BudgetExhausted) ==> operations_exhausted(*final(budget)),
        r == Err::<(), WorkStop>(WorkStop::Cancelled) ==> !cancellation.never_cancels(),
        r is Ok ==> final(budget).usage().operations() == old(budget).usage().operations() + ordered@.len() + 1,
        r is Ok ==> final(budget).usage().used(WorkCounter::ApplyChange) == old(budget).usage().used(
            WorkCounter::ApplyChange,
        ) + ordered@.len() + 1,
        cancellation.never_cancels() && affords(*old(budget), ordered@.len() + 1int) ==> r is Ok,
{
    let ghost start = *budget;
    let mut i: usize = 0;
    while i < ordered.len()
        invariant
            i <= ordered@.len(),
            start == *old(budget),
            budget_grew(start, *budget),
            budget.usage().operations() == start.usage().operations() + i,
            budget.usage().used(WorkCounter::ApplyChange) == start.usage().used(WorkCounter::ApplyChange) + i,
        decreases ordered@.len() - i,
    {
        charge_from(budget, cancellation, WorkCounter::ApplyChange, Ghost(start))?;
        i = i + 1;
    }
    let r = charge_from(budget, cancellation, WorkCounter::ApplyChange, Ghost(start));
    proof {
        match r {
            Err(WorkStop::Cancelled) => {},
            Err(WorkStop::BudgetExhausted) => {},
            Ok(()) => {},
        }
    }
    r
}

/// Adds the children of `parent` to `ready`, charging one control unit
/// before each.
pub fn enqueue_children(
    parent: EventId,
    children_by_parent: &OrdMap<Option<EventId>, OrdSet<EventId>>,
    ready: &mut OrdSet<EventId>,
    budget: &mut WorkBudget,
    cancellation: &impl CancellationCheck,
) -> (r: Result<(), WorkStop>)
    requires
        sets_wf(*children_by_parent),
        old(ready).wf(),
    ensures
        final(ready).wf(),
        budget_grew(*old(budget), *final(budget)),
        r == Err::<(), WorkStop>(WorkStop::BudgetExhausted) ==> operations_exhausted(*final(budget)),
        r == Err::<(), WorkStop>(WorkStop::Cancelled) ==> !cancellation.never_cancels(),
        r is Ok ==> final(ready)@ == if sets_view(*children_by_parent).contains_key(Some(parent)) {
            old(ready)@.union(sets_view(*children_by_parent)[Some(parent)])
        } else {
            old(ready)@
        },
        r is Ok ==> final(budget).usage().operations() == old(budget).usage().operations() + if sets_view(
            *children_by_parent,
        ).contains_key(Some(parent)) {
            sets_view(*children_by_parent)[Some(parent)].len() as int
        } else {
            0int
        },
        cancellation.never_cancels() && affords(
            *old(budget),
            if sets_view(*children_by_parent).contains_key(Some(parent)) {
                sets_view(*children_by_parent)[Some(parent)].len() as int
            } else {
                0int
            },
        ) ==> r is Ok,
{
    let ghost start = *budget;
    let ghost initial = ready@;
    match children_by_parent.get(&Some(parent)) {
        Some(children) => {
            let n = children.len();
            let mut i: usize = 0;
            proof {
                assert(initial.union(seen_events(children.seq(), 0)) =~= initial);
            }
            while i < n
                invariant
                    children.wf(),
                    ready.wf(),
                    n == children.seq().len(),
                    i <= n,
                    start == *old(budget),
                    budget_grew(start, *budget),
                    ready@ == initial.union(seen_events(children.seq(), i as int)),
                    budget.usage().operations() == start.usage().operations() + i,
                    sets_view(*children_by_parent).contains_key(Some(parent)),
                    sets_view(*children_by_parent)[Some(parent)] == children@,
                    n == children@.len(),
                decreases n - i,
            {
                let c = charge_from(budget, cancellation, WorkCounter::Control, Ghost(start));
                proof {
                    match c {
                        Err(WorkStop::Cancelled) => {},
                        Err(WorkStop::BudgetExhausted) => {},
                        Ok(()) => {},
                    }
                }
                if let Err(e) = c {
                    return Err(e);
                }
                let child = children.get(i);
                ready.insert(child);
                proof {
                    lemma_sorted_prefix_step(children.seq(), i as int);
                    assert(ready@ =~= initial.union(seen_events(children.seq(), i + 1)));
                }
                i = i + 1;
            }
            proof {
                assert(children.seq().take(n as int) =~= children.seq());
                crate::ordered::lemma_sorted_no_duplicates(children.seq());
            }
        },
        None => {},
    }
    Ok(())
}

/// The members of the first `i` positions of a sequence of events.
spec fn seen_events(s: Seq<EventId>, i: int) -> Set<EventId> {
    s.take(i).to_set()
}

/// `l` is the last of the first `n` changes with hash `h`.
pub open spec fn last_with_hash(changes: Seq<BatchChange>, n: int, h: ChangeHash, l: int) -> bool {
    &&& 0 <= l < n
    &&& changes[l].candidate.change_hash == h
    &&& forall|k: int| l < k < n ==> (#[trigger] changes[k]).candidate.change_hash != h
}

/// The candidates of the first `n` changes outside `base`, each hash with
/// the candidate of its last change.
pub open spec fn control_candidates(
    candidates: Map<ChangeHash, ChangeCandidate>,
    changes: Seq<BatchChange>,
    n: int,
    base: Set<ChangeHash>,
) -> bool {
    &&& forall|h: ChangeHash| #[trigger]
        candidates.contains_key(h) <==> (!base.contains(h) && exists|l: int| 0 <= l < n && (#[trigger] changes[l]).candidate.change_hash == h)
    &&& forall|h: ChangeHash, l: int|
        #[trigger] candidates.contains_key(h) && #[trigger] last_with_hash(changes, n, h, l) ==> same_candidate(
            candidates[h],
            changes[l].candidate,
        )
}

/// Copies the candidates of `control`'s changes outside `accepted_base`, a
/// later change replacing an earlier one with the same hash; one node unit
/// is charged before each change.
#[verifier::spinoff_prover]
pub fn collect_control_candidates_metered(
    control: &BatchControl,
    accepted_base: &OrdSet<ChangeHash>,
    budget: &mut WorkBudget,
    cancellation: &impl CancellationCheck,
) -> (r: Result<OrdMap<ChangeHash, ChangeCandidate>, WorkStop>)
    requires
        accepted_base.wf(),
    ensures
        budget_grew(*old(budget), *final(budget)),
        r == Err::<OrdMap<ChangeHash, ChangeCandidate>, WorkStop>(WorkStop::BudgetExhausted) ==> operations_exhausted(
            *final(budget),
        ),
        r == Err::<OrdMap<ChangeHash, ChangeCandidate>, WorkStop>(WorkStop::Cancelled) ==> !cancellation.never_cancels(),
        r matches Ok(m) ==> m.wf() && control_candidates(
            m@,
            control.changes@,
            control.changes@.len() as int,
            accepted_base@,
        ),
        r is Ok ==> final(budget).usage().operations() == old(budget).usage().operations()
            + control.changes@.len(),
        cancellation.never_cancels() && affords(*old(budget), control.changes@.len() as int) ==> r is Ok,
{
    let ghost start = *budget;
    let changes = &control.changes;
    let mut candidates: OrdMap<ChangeHash, ChangeCandidate> = OrdMap::new();
    let mut i: usize = 0;
    while i < changes.len()
        invariant
            accepted_base.wf(),
            candidates.wf(),
            i <= changes@.len(),
            start == *old(budget),
            budget_grew(start, *budget),
            control_candidates(candidates@, changes@, i as int, accepted_base@),
            budget.usage().operations() == start.usage().operations() + i,
            changes@ == control.changes@,
        decreases changes@.len() - i,
    {
        let c = charge_from(budget, cancellation, WorkCounter::GraphNode, Ghost(start));
        proof {
            match c {
                Err(WorkStop::Cancelled) => {},
                Err(WorkStop::BudgetExhausted) => {},
                Ok(()) => {},
            }
        }
        if let Err(e) = c {
            return Err(e);
        }
        let change = &changes[i];
        let hash = change.candidate.change_hash;
        let ghost before = candidates@;
        if !accepted_base.contains(&hash) {
            let copy = change.candidate.duplicate();
            candidates.insert(hash, copy);
        }
        proof {
            let m = candidates@;
            let cs = changes@;
            assert(cs[i as int].candidate.change_hash == hash);
            assert forall|h: ChangeHash| #[trigger] m.contains_key(h) <==> (!accepted_base@.contains(h) && exists|l: int|
                0 <= l < i + 1 && (#[trigger] cs[l]).candidate.change_hash == h) by {
                if h != hash && exists|l: int| 0 <= l < i + 1 && (#[trigger] cs[l]).candidate.change_hash == h {
                    let l = choose|l: int| 0 <= l < i + 1 && (#[trigger] cs[l]).candidate.change_hash == h;
                    assert(l < i);
                }
            }
            assert forall|h: ChangeHash, l: int|
                #[trigger] m.contains_key(h) && #[trigger] last_with_hash(cs, i + 1, h, l) implies same_candidate(
                m[h],
                cs[l].candidate,
            ) by {
                if h != hash {
                    assert(l < i);
                    assert(last_with_hash(cs, i as int, h, l));
                } else {
                    assert(l == i);
                }
            }
        }
        i = i + 1;
    }
    Ok(candidates)
}

} // verus!
