//! Persistent maps kept as a chain of shared delta layers.
//!
//! Each layer holds the entries one extension changed. Extending a map
//! shares every existing layer with it and adds one new layer; a lookup reads
//! the layers newest first.

use std::sync::Arc;
use vstd::prelude::*;
use crate::ordered::{OrdMap, lemma_sorted_prefix_step, strictly_sorted};
use crate::types::{OrderedKey, SameValue};
use crate::work_budget::{
    CancellationCheck, WorkBudget, affords, WorkCounter, WorkStop, budget_grew, charge_from, lemma_budget_grew_trans,
    operations_exhausted,
};

verus! {

/// Another handle to the allocation that `a` points to.
///
/// Wraps `Arc::clone`, which hands out a new pointer to the same shared
/// value; the contract claims only that the value pointed to is the same.
#[verifier::external_body]
fn share_layer<T>(a: &Arc<T>) -> (r: Arc<T>)
    ensures
        r == *a,
{
    Arc::clone(a)
}

/// The entries the layers give, a later layer overriding earlier ones.
pub open spec fn layers_union<K, V>(layers: Seq<Map<K, V>>) -> Map<K, V>
    decreases layers.len(),
{
    if layers.len() == 0 {
        Map::empty()
    } else {
        layers_union(layers.drop_last()).union_prefer_right(layers.last())
    }
}

/// How many layers a lookup of `k` reads, newest first.
pub open spec fn layers_visited<K, V>(layers: Seq<Map<K, V>>, k: K) -> nat
    decreases layers.len(),
{
    if layers.len() == 0 {
        0
    } else if layers.last().contains_key(k) {
        1
    } else {
        1 + layers_visited(layers.drop_last(), k)
    }
}

/// How many entries the layers hold together, counting a key once per layer.
pub open spec fn layers_size<K, V>(layers: Seq<Map<K, V>>) -> nat
    decreases layers.len(),
{
    if layers.len() == 0 {
        0
    } else {
        layers_size(layers.drop_last()) + layers.last().dom().len()
    }
}

/// The entries of `local` that `base` does not already hold with the same value.
pub open spec fn changed_entries<K, V>(base: Map<K, V>, local: Map<K, V>) -> Map<K, V> {
    Map::new(
        |k: K| local.contains_key(k) && !(base.contains_key(k) && base[k] == local[k]),
        |k: K| local[k],
    )
}

/// The layers after extending `layers` by the changed entries of `local`.
pub open spec fn extended_layers<K, V>(layers: Seq<Map<K, V>>, local: Map<K, V>) -> Seq<Map<K, V>> {
    let delta = changed_entries(layers_union(layers), local);
    if delta.dom().len() == 0 {
        layers
    } else {
        layers.push(delta)
    }
}

/// A map kept as a chain of shared, non-empty delta layers.
#[derive(Debug)]
pub struct PersistentDeltaMap<K: OrderedKey, V> {
    layers: Vec<Arc<OrdMap<K, V>>>,
}

impl<K: OrderedKey, V> PersistentDeltaMap<K, V> {
    /// Every layer is well formed and holds at least one entry.
    #[verifier::type_invariant]
    spec fn layers_wf(self) -> bool {
        forall|i: int| 0 <= i < self.layers@.len() ==> (*#[trigger] self.layers@[i]).wf() && (*self.layers@[i])@.dom().len() > 0
    }

    /// The layers' entries, oldest first.
    pub closed spec fn layer_maps(self) -> Seq<Map<K, V>> {
        Seq::new(self.layers@.len(), |i: int| (*self.layers@[i])@)
    }
}

impl<K: OrderedKey, V> View for PersistentDeltaMap<K, V> {
    type V = Map<K, V>;

    open spec fn view(&self) -> Map<K, V> {
        layers_union(self.layer_maps())
    }
}

/// Looking up `k` in the union reads the newest layer holding it.
proof fn lemma_union_last<K, V>(layers: Seq<Map<K, V>>, k: K)
    requires
        layers.len() > 0,
    ensures
        layers.last().contains_key(k) ==> layers_union(layers).contains_key(k) && layers_union(layers)[k]
            == layers.last()[k],
        !layers.last().contains_key(k) ==> layers_union(layers).contains_key(k) == layers_union(
            layers.drop_last(),
        ).contains_key(k),
        !layers.last().contains_key(k) && layers_union(layers.drop_last()).contains_key(k) ==> layers_union(
            layers,
        )[k] == layers_union(layers.drop_last())[k],
{
}

impl<K: OrderedKey, V> PersistentDeltaMap<K, V> {
    /// The empty map.
    pub fn new() -> (m: Self)
        ensures
            m.layer_maps() == Seq::<Map<K, V>>::empty(),
            m@ == Map::<K, V>::empty(),
    {
        let m = PersistentDeltaMap { layers: Vec::new() };
        assert(m.layer_maps() =~= Seq::<Map<K, V>>::empty());
        m
    }

    /// A map of one layer holding `local`; the empty map when `local` is empty.
    pub fn from_local(local: OrdMap<K, V>) -> (m: Self)
        requires
            local.wf(),
        ensures
            m.layer_maps() == (if local@.dom().len() == 0 {
                Seq::<Map<K, V>>::empty()
            } else {
                seq![local@]
            }),
            m@ == local@,
    {
        if local.is_empty() {
            let m = Self::new();
            proof {
                local.lemma_len();
                assert(local@ =~= Map::<K, V>::empty());
            }
            return m;
        }
        let ghost lv = local@;
        let mut layers: Vec<Arc<OrdMap<K, V>>> = Vec::new();
        layers.push(Arc::new(local));
        let m = PersistentDeltaMap { layers };
        proof {
            assert(m.layer_maps() =~= seq![lv]);
            assert(seq![lv].drop_last() =~= Seq::<Map<K, V>>::empty());
            assert(layers_union(seq![lv].drop_last()) == Map::<K, V>::empty());
            assert(Map::<K, V>::empty().union_prefer_right(lv) =~= lv);
            assert(layers_union(seq![lv]) =~= lv);
        }
        m
    }

    /// Another handle to the same layers.
    pub fn share(&self) -> (c: Self)
        ensures
            c.layer_maps() == self.layer_maps(),
            c@ == self@,
    {
        proof {
            use_type_invariant(self);
        }
        let mut layers: Vec<Arc<OrdMap<K, V>>> = Vec::new();
        let n = self.layers.len();
        for i in 0..n
            invariant
                n == self.layers@.len(),
                layers@.len() == i,
                forall|j: int| 0 <= j < i ==> #[trigger] layers@[j] == self.layers@[j],
        {
            layers.push(share_layer(&self.layers[i]));
        }
        let c = PersistentDeltaMap { layers };
        proof {
            assert(c.layer_maps() =~= self.layer_maps());
        }
        c
    }

    /// How many entries the newest layer holds; zero for the empty map.
    pub fn local_len(&self) -> (n: usize)
        ensures
            self.layer_maps().len() == 0 ==> n == 0,
            self.layer_maps().len() > 0 ==> n == self.layer_maps().last().dom().len(),
    {
        proof {
            use_type_invariant(self);
        }
        let k = self.layers.len();
        if k == 0 {
            0
        } else {
            self.layers[k - 1].len()
        }
    }

    /// The value for `key`, read from the newest layer holding it.
    pub fn get(&self, key: &K) -> (r: Option<&V>)
        ensures
            r is Some <==> self@.contains_key(*key),
            r matches Some(v) ==> *v == self@[*key],
    {
        proof {
            use_type_invariant(self);
        }
        let ghost ls = self.layer_maps();
        let mut i = self.layers.len();
        proof {
            assert(ls.take(i as int) =~= ls);
        }
        while i > 0
            invariant
                i <= self.layers@.len(),
                ls == self.layer_maps(),
                forall|j: int| 0 <= j < self.layers@.len() ==> (*#[trigger] self.layers@[j]).wf(),
                layers_union(ls).contains_key(*key) == layers_union(ls.take(i as int)).contains_key(*key),
                layers_union(ls).contains_key(*key) ==> layers_union(ls)[*key] == layers_union(ls.take(i as int))[*key],
            decreases i,
        {
            let layer = &self.layers[i - 1];
            proof {
                assert((*self.layers@[i - 1]).wf());
                let t = ls.take(i as int);
                assert(t.drop_last() =~= ls.take(i - 1));
                assert(t.last() == ls[i - 1]);
                lemma_union_last(t, *key);
            }
            match layer.get(key) {
                Some(v) => {
                    return Some(v);
                },
                None => {},
            }
            i = i - 1;
        }
        proof {
            assert(ls.take(0) =~= Seq::<Map<K, V>>::empty());
        }
        None
    }

    /// Whether `key` has a value.
    pub fn contains_key(&self, key: &K) -> (b: bool)
        ensures
            b == self@.contains_key(*key),
    {
        self.get(key).is_some()
    }

    /// The value for `key`, charging one node unit before reading each
    /// layer, newest first.
    pub fn get_metered(
        &self,
        key: &K,
        budget: &mut WorkBudget,
        cancellation: &impl CancellationCheck,
    ) -> (r: Result<Option<&V>, WorkStop>)
        ensures
            budget_grew(*old(budget), *final(budget)),
            r == Err::<Option<&V>, WorkStop>(WorkStop::BudgetExhausted) ==> operations_exhausted(*final(budget)),
            r == Err::<Option<&V>, WorkStop>(WorkStop::Cancelled) ==> !cancellation.never_cancels(),
            r matches Ok(o) ==> (o is Some <==> self@.contains_key(*key)),
            r matches Ok(Some(v)) ==> *v == self@[*key],
            r is Ok ==> final(budget).usage().operations() == old(budget).usage().operations()
                + layers_visited(self.layer_maps(), *key),
            cancellation.never_cancels() && affords(*old(budget), layers_visited(self.layer_maps(), *key) as int)
                ==> r is Ok,
            final(budget).usage().operations() <= old(budget).usage().operations() + layers_visited(
                self.layer_maps(),
                *key,
            ),
    {
        proof {
            use_type_invariant(self);
        }
        let ghost ls = self.layer_maps();
        let ghost start = *budget;
        let mut i = self.layers.len();
        proof {
            assert(ls.take(i as int) =~= ls);
        }
        while i > 0
            invariant
                i <= self.layers@.len(),
                ls == self.layer_maps(),
                start == *old(budget),
                budget_grew(start, *budget),
                forall|j: int| 0 <= j < self.layers@.len() ==> (*#[trigger] self.layers@[j]).wf(),
                layers_union(ls).contains_key(*key) == layers_union(ls.take(i as int)).contains_key(*key),
                layers_union(ls).contains_key(*key) ==> layers_union(ls)[*key] == layers_union(ls.take(i as int))[*key],
                budget.usage().operations() + layers_visited(ls.take(i as int), *key) == start.usage().operations()
                    + layers_visited(ls, *key),
            decreases i,
        {
            proof {
                assert(layers_visited(ls.take(i as int), *key) >= 1);
            }
            let c = charge_from(budget, cancellation, WorkCounter::GraphNode, Ghost(start));
            proof {
                match c {
                    Err(WorkStop::Cancelled) => {},
                    Err(WorkStop::BudgetExhausted) => {},
                    Ok(()) => {},
                }
            }
            if let Err(e) = c {
                return Err(e);
            }
            let layer = &self.layers[i - 1];
            proof {
                assert((*self.layers@[i - 1]).wf());
                let t = ls.take(i as int);
                assert(t.drop_last() =~= ls.take(i - 1));
                assert(t.last() == ls[i - 1]);
                lemma_union_last(t, *key);
            }
            match layer.get(key) {
                Some(v) => {
                    return Ok(Some(v));
                },
                None => {},
            }
            i = i - 1;
        }
        proof {
            assert(ls.take(0) =~= Seq::<Map<K, V>>::empty());
        }
        Ok(None)
    }

    /// Whether `key` has a value, charged as `get_metered` is.
    pub fn contains_key_metered(
        &self,
        key: &K,
        budget: &mut WorkBudget,
        cancellation: &impl CancellationCheck,
    ) -> (r: Result<bool, WorkStop>)
        ensures
            budget_grew(*old(budget), *final(budget)),
            r == Err::<bool, WorkStop>(WorkStop::BudgetExhausted) ==> operations_exhausted(*final(budget)),
            r == Err::<bool, WorkStop>(WorkStop::Cancelled) ==> !cancellation.never_cancels(),
            r matches Ok(b) ==> b == self@.contains_key(*key),
            r is Ok ==> final(budget).usage().operations() == old(budget).usage().operations()
                + layers_visited(self.layer_maps(), *key),
            cancellation.never_cancels() && affords(*old(budget), layers_visited(self.layer_maps(), *key) as int)
                ==> r is Ok,
    {
        match self.get_metered(key, budget, cancellation) {
            Ok(v) => Ok(v.is_some()),
            Err(e) => Err(e),
        }
    }
}

impl<K: OrderedKey, V: SameValue> PersistentDeltaMap<K, V> {
    /// Adds one layer built from the entries in `layers`, shared with `self`.
    fn with_layer(&self, layer: OrdMap<K, V>) -> (m: Self)
        requires
            layer.wf(),
            layer@.dom().len() > 0,
        ensures
            m.layer_maps() == self.layer_maps().push(layer@),
    {
        let shared = self.share();
        proof {
            use_type_invariant(&shared);
        }
        let ghost lv = layer@;
        let mut layers = shared.layers;
        layers.push(Arc::new(layer));
        let m = PersistentDeltaMap { layers };
        proof {
            assert(m.layer_maps() =~= self.layer_maps().push(lv));
        }
        m
    }

    /// Extends the map by `local`: the entries that change the map's value
    /// become one new layer over the shared existing ones; when none does,
    /// the result shares exactly the existing layers.
    pub fn extend_local(&self, local: OrdMap<K, V>) -> (m: Self)
        requires
            local.wf(),
        ensures
            m.layer_maps() == extended_layers(self.layer_maps(), local@),
            m@ == self@.union_prefer_right(local@),
    {
        let ghost orig = local@;
        let ghost base = self@;
        let mut local = local;
        let mut accepted: OrdMap<K, V> = OrdMap::new();
        proof {
            assert(accepted@ =~= Map::new(
                |k: K| orig.contains_key(k) && !local@.contains_key(k) && !(base.contains_key(k) && base[k] == orig[k]),
                |k: K| orig[k],
            ));
            local.lemma_len();
        }
        while !local.is_empty()
            invariant
                local.wf(),
                accepted.wf(),
                base == self@,
                forall|k: K| #[trigger] local@.contains_key(k) ==> orig.contains_key(k) && local@[k] == orig[k],
                local@.dom().finite(),
                accepted@ == Map::new(
                    |k: K| orig.contains_key(k) && !local@.contains_key(k) && !(base.contains_key(k) && base[k] == orig[k]),
                    |k: K| orig[k],
                ),
            decreases local@.dom().len(),
        {
            proof {
                local.lemma_len();
            }
            let k = local.key_at(0);
            proof {
                local.lemma_position(0);
            }
            let ghost before = local@;
            let ghost acc_before = accepted@;
            let v = local.remove(&k).unwrap();
            let keep = match self.get(&k) {
                Some(x) => !x.same_value(&v),
                None => true,
            };
            if keep {
                accepted.insert(k, v);
            }
            proof {
                local.lemma_len();
                assert(local@.dom() =~= before.dom().remove(k));
                assert(accepted@ =~= Map::new(
                    |x: K| orig.contains_key(x) && !local@.contains_key(x) && !(base.contains_key(x) && base[x] == orig[x]),
                    |x: K| orig[x],
                ));
            }
        }
        proof {
            local.lemma_len();
            assert(local@.dom() =~= Set::<K>::empty());
            assert(accepted@ =~= changed_entries(base, orig));
            assert(self@.union_prefer_right(orig) =~= self@.union_prefer_right(changed_entries(base, orig)));
        }
        if accepted.is_empty() {
            proof {
                accepted.lemma_len();
                assert(changed_entries(base, orig).dom() =~= Set::<K>::empty());
            }
            return self.share();
        }
        let ghost av = accepted@;
        let m = self.with_layer(accepted);
        proof {
            accepted.lemma_len();
            let ls = self.layer_maps();
            assert(ls.push(av).drop_last() =~= ls);
        }
        m
    }

    /// Extends the map by `prepared` as `extend_local` does, charging one
    /// node unit for each prepared entry, for each layer its lookup reads and
    /// for each entry kept; nothing is published before all of it is done.
    pub fn extend_prepared_metered(
        &self,
        prepared: OrdMap<K, V>,
        budget: &mut WorkBudget,
        cancellation: &impl CancellationCheck,
    ) -> (r: Result<Self, WorkStop>)
        requires
            prepared.wf(),
        ensures
            budget_grew(*old(budget), *final(budget)),
            r == Err::<Self, WorkStop>(WorkStop::BudgetExhausted) ==> operations_exhausted(*final(budget)),
            r == Err::<Self, WorkStop>(WorkStop::Cancelled) ==> !cancellation.never_cancels(),
            r matches Ok(m) ==> m.layer_maps() == extended_layers(self.layer_maps(), prepared@),
            r matches Ok(m) ==> m@ == self@.union_prefer_right(prepared@),
            final(budget).usage().operations() <= old(budget).usage().operations() + prepared@.dom().len() * (2
                + self.layer_maps().len()),
            cancellation.never_cancels() && affords(
                *old(budget),
                (prepared@.dom().len() * (2 + self.layer_maps().len())) as int,
            ) ==> r is Ok,
    {
        let ghost orig = prepared@;
        let ghost base = self@;
        let ghost start = *budget;
        let ghost per: int = (2 + self.layer_maps().len()) as int;
        let ghost total: int = prepared@.dom().len() * per;
        proof {
            prepared.lemma_len();
        }
        let mut local = prepared;
        let mut accepted: OrdMap<K, V> = OrdMap::new();
        proof {
            assert(accepted@ =~= Map::new(
                |k: K| orig.contains_key(k) && !local@.contains_key(k) && !(base.contains_key(k) && base[k] == orig[k]),
                |k: K| orig[k],
            ));
            local.lemma_len();
        }
        while !local.is_empty()
            invariant
                local.wf(),
                accepted.wf(),
                base == self@,
                start == *old(budget),
                budget_grew(start, *budget),
                forall|k: K| #[trigger] local@.contains_key(k) ==> orig.contains_key(k) && local@[k] == orig[k],
                local@.dom().finite(),
                accepted@ == Map::new(
                    |k: K| orig.contains_key(k) && !local@.contains_key(k) && !(base.contains_key(k) && base[k] == orig[k]),
                    |k: K| orig[k],
                ),
                per == 2 + self.layer_maps().len(),
                total == orig.dom().len() * per,
                orig == prepared@,
                orig.dom().finite(),
                local@.dom().subset_of(orig.dom()),
                budget.usage().operations() + local@.dom().len() * per <= start.usage().operations() + total,
            decreases local@.dom().len(),
        {
            proof {
                local.lemma_len();
            }
            let ghost d: int = local@.dom().len() as int;
            proof {
                assert(d * per == (d - 1) * per + per) by (nonlinear_arith);
                vstd::set_lib::lemma_len_subset(local@.dom(), orig.dom());
                assert(0 <= (d - 1) * per) by (nonlinear_arith)
                    requires
                        d >= 1,
                        per >= 2,
                ;
                lemma_visited_bound(self.layer_maps(), local.key_seq()[0]);
                assert(budget.usage().operations() + d * per <= start.usage().operations() + total);
                assert(d * per >= per) by (nonlinear_arith)
                    requires
                        d >= 1,
                        per >= 2,
                ;
            }
            let c = charge_from(budget, cancellation, WorkCounter::GraphNode, Ghost(start));
            proof {
                match c {
                    Err(WorkStop::Cancelled) => {},
                    Err(WorkStop::BudgetExhausted) => {},
                    Ok(()) => {},
                }
            }
            if let Err(e) = c {
                return Err(e);
            }
            let k = local.key_at(0);
            proof {
                local.lemma_position(0);
            }
            let ghost before = local@;
            let v = local.remove(&k).unwrap();
            let ghost b1 = *budget;
            let inherited = self.get_metered(&k, budget, cancellation);
            proof {
                lemma_budget_grew_trans(start, b1, *budget);
            }
            let keep = match inherited {
                Err(e) => {
                    return Err(e);
                },
                Ok(Some(x)) => !x.same_value(&v),
                Ok(None) => true,
            };
            if keep {
                let c = charge_from(budget, cancellation, WorkCounter::GraphNode, Ghost(start));
                proof {
                    match c {
                        Err(WorkStop::Cancelled) => {},
                        Err(WorkStop::BudgetExhausted) => {},
                        Ok(()) => {},
                    }
                }
                if let Err(e) = c {
                    return Err(e);
                }
                accepted.insert(k, v);
            }
            proof {
                local.lemma_len();
                assert(local@.dom() =~= before.dom().remove(k));
                assert(accepted@ =~= Map::new(
                    |x: K| orig.contains_key(x) && !local@.contains_key(x) && !(base.contains_key(x) && base[x] == orig[x]),
                    |x: K| orig[x],
                ));
            }
        }
        proof {
            local.lemma_len();
            assert(local@.dom() =~= Set::<K>::empty());
            assert(accepted@ =~= changed_entries(base, orig));
            assert(self@.union_prefer_right(orig) =~= self@.union_prefer_right(changed_entries(base, orig)));
        }
        if accepted.is_empty() {
            proof {
                accepted.lemma_len();
                assert(changed_entries(base, orig).dom() =~= Set::<K>::empty());
            }
            return Ok(self.share());
        }
        let ghost av = accepted@;
        let m = self.with_layer(accepted);
        proof {
            accepted.lemma_len();
            let ls = self.layer_maps();
            assert(ls.push(av).drop_last() =~= ls);
        }
        Ok(m)
    }
}

/// A lookup reads at most every layer.
pub proof fn lemma_visited_bound<K, V>(ls: Seq<Map<K, V>>, k: K)
    ensures
        layers_visited(ls, k) <= ls.len(),
    decreases ls.len(),
{
    if ls.len() > 0 {
        lemma_visited_bound(ls.drop_last(), k);
    }
}

/// The entries of a prefix of the layers never outnumber those of a longer prefix.
pub proof fn lemma_layers_size_prefix<K, V>(ls: Seq<Map<K, V>>, i: int)
    requires
        0 <= i <= ls.len(),
    ensures
        layers_size(ls.take(i)) <= layers_size(ls),
    decreases ls.len() - i,
{
    if i < ls.len() {
        lemma_layers_size_prefix(ls, i + 1);
        let t = ls.take(i + 1);
        assert(t.drop_last() =~= ls.take(i));
    } else {
        assert(ls.take(i) =~= ls);
    }
}

/// The entries of `m` at the first `j` of the keys `keys`.
pub open spec fn key_prefix<K, V>(keys: Seq<K>, m: Map<K, V>, j: int) -> Map<K, V> {
    Map::new(|k: K| keys.take(j).contains(k), |k: K| m[k])
}

/// The first `i + 1` entries of `m` in key order are the first `i` and the
/// entry at position `i`.
pub proof fn lemma_key_prefix_step<K: OrderedKey, V>(keys: Seq<K>, m: Map<K, V>, i: int)
    requires
        strictly_sorted(keys),
        0 <= i < keys.len(),
    ensures
        key_prefix(keys, m, i + 1) == key_prefix(keys, m, i).insert(keys[i], m[keys[i]]),
        !key_prefix(keys, m, i).contains_key(keys[i]),
{
    lemma_sorted_prefix_step(keys, i);
    assert(key_prefix(keys, m, i + 1) =~= key_prefix(keys, m, i).insert(keys[i], m[keys[i]]));
}

impl<K: OrderedKey, V: Copy> PersistentDeltaMap<K, V> {
    /// Copies the map's entries into one ordered map, charging one node
    /// unit for each layer and then for each layer entry.
    pub fn materialize_metered(
        &self,
        budget: &mut WorkBudget,
        cancellation: &impl CancellationCheck,
    ) -> (r: Result<OrdMap<K, V>, WorkStop>)
        ensures
            budget_grew(*old(budget), *final(budget)),
            r == Err::<OrdMap<K, V>, WorkStop>(WorkStop::BudgetExhausted) ==> operations_exhausted(*final(budget)),
            r == Err::<OrdMap<K, V>, WorkStop>(WorkStop::Cancelled) ==> !cancellation.never_cancels(),
            r matches Ok(m) ==> m.wf() && m@ == self@,
            r is Ok ==> final(budget).usage().operations() == old(budget).usage().operations()
                + self.layer_maps().len() + layers_size(self.layer_maps()),
            cancellation.never_cancels() && affords(
                *old(budget),
                (self.layer_maps().len() + layers_size(self.layer_maps())) as int,
            ) ==> r is Ok,
    {
        proof {
            use_type_invariant(self);
        }
        let ghost start = *budget;
        let ghost ls = self.layer_maps();
        let ghost total: int = (ls.len() + layers_size(ls)) as int;
        let n = self.layers.len();
        proof {
            lemma_layers_size_prefix(ls, n as int);
            assert(ls.take(n as int) =~= ls);
        }
        for i in 0..n
            invariant
                start == *old(budget),
                budget_grew(start, *budget),
                n == ls.len(),
                ls == self.layer_maps(),
                total == ls.len() + layers_size(ls),
                budget.usage().operations() == start.usage().operations() + i,
        {
            let c = charge_from(budget, cancellation, WorkCounter::GraphNode, Ghost(start));
            proof {
                match c {
                    Err(WorkStop::Cancelled) => {},
                    Err(WorkStop::BudgetExhausted) => {},
                    Ok(()) => {},
                }
            }
            if let Err(e) = c {
                return Err(e);
            }
        }
        let mut result: OrdMap<K, V> = OrdMap::new();
        proof {
            assert(ls.take(0) =~= Seq::<Map<K, V>>::empty());
        }
        for i in 0..n
            invariant
                start == *old(budget),
                budget_grew(start, *budget),
                n == self.layers@.len(),
                ls == self.layer_maps(),
                forall|j: int| 0 <= j < self.layers@.len() ==> (*#[trigger] self.layers@[j]).wf(),
                result.wf(),
                result@ == layers_union(ls.take(i as int)),
                total == ls.len() + layers_size(ls),
                budget.usage().operations() == start.usage().operations() + n + layers_size(ls.take(i as int)),
                layers_size(ls) == layers_size(ls.take(n as int)),
        {
            let layer = &self.layers[i];
            proof {
                assert((*self.layers@[i as int]).wf());
                lemma_layers_size_prefix(ls, i + 1);
                lemma_layers_size_prefix(ls, n as int);
                let t = ls.take(i + 1);
                assert(t.drop_last() =~= ls.take(i as int));
                assert(t.last() == ls[i as int]);
            }
            let m = layer.len();
            let ghost before_layer = budget.usage().operations();
            let ghost acc0 = result@;
            proof {
                assert(key_prefix(layer.key_seq(), layer@, 0) =~= Map::<K, V>::empty());
                assert(acc0.union_prefer_right(key_prefix(layer.key_seq(), layer@, 0)) =~= acc0);
            }
            for j in 0..m
                invariant
                    start == *old(budget),
                    budget_grew(start, *budget),
                    layer.wf(),
                    m == layer.key_seq().len(),
                    result.wf(),
                    result@ == acc0.union_prefer_right(key_prefix(layer.key_seq(), layer@, j as int)),
                    m == layer@.dom().len(),
                    ls == self.layer_maps(),
                    total == ls.len() + layers_size(ls),
                    budget.usage().operations() == before_layer + j,
                    before_layer + m == start.usage().operations() + n + layers_size(ls.take(i + 1)),
                    start.usage().operations() + n + layers_size(ls.take(i + 1)) <= start.usage().operations() + total,
            {
                let c = charge_from(budget, cancellation, WorkCounter::GraphNode, Ghost(start));
                proof {
                    match c {
                        Err(WorkStop::Cancelled) => {},
                        Err(WorkStop::BudgetExhausted) => {},
                        Ok(()) => {},
                    }
                }
                if let Err(e) = c {
                    return Err(e);
                }
                let key = layer.key_at(j);
                let value = *layer.value_at(j);
                let ghost before = result@;
                result.insert(key, value);
                proof {
                    layer.lemma_position(j as int);
                    assert(value == layer@[key]);
                    let ks = layer.key_seq();
                    assert(ks.take(j + 1) =~= ks.take(j as int).push(key));
                    assert forall|x: K| ks.take(j + 1).contains(x) <==> (ks.take(j as int).contains(x) || x == key) by {
                        assert(ks.take(j + 1).to_set().contains(x) == ks.take(j + 1).contains(x));
                        ks.take(j as int).lemma_push_to_set_commute(key);
                        assert(ks.take(j as int).to_set().contains(x) == ks.take(j as int).contains(x));
                    }
                    let target = acc0.union_prefer_right(key_prefix(layer.key_seq(), layer@, j + 1));
                    assert forall|x: K| #[trigger] result@.contains_key(x) <==> target.contains_key(x) by {
                    }
                    assert forall|x: K| #[trigger] result@.contains_key(x) implies result@[x] == target[x] by {
                        if x != key {
                            assert(result@[x] == before[x]);
                            if ks.take(j as int).contains(x) {
                                assert(key_prefix(layer.key_seq(), layer@, j as int).contains_key(x));
                            }
                        } else {
                            assert(ks.take(j + 1)[j as int] == key);
                            assert(ks.take(j + 1).contains(key));
                            assert(key_prefix(layer.key_seq(), layer@, j + 1).contains_key(key));
                        }
                    }
                    assert(result@ =~= target);
                }
            }
            proof {
                let ks = layer.key_seq();
                assert(ks.take(m as int) =~= ks);
                layer.lemma_len();
                assert(key_prefix(layer.key_seq(), layer@, m as int) =~= layer@);
                let t = ls.take(i + 1);
                assert(t.drop_last() =~= ls.take(i as int));
                assert(t.last() == layer@);
            }
        }
        proof {
            assert(ls.take(n as int) =~= ls);
        }
        Ok(result)
    }
}

} // verus!
