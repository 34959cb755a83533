//! Ordered sets and maps over keys with a decidable strict total order.
//!
//! Both collections keep their keys in a strictly increasing vector, so
//! iteration by index visits keys in canonical ascending order.

use vstd::prelude::*;
use crate::types::OrderedKey;

verus! {

/// Keys of `s` are strictly increasing.
pub open spec fn strictly_sorted<K: OrderedKey>(s: Seq<K>) -> bool {
    forall|i: int, j: int| 0 <= i < j < s.len() ==> #[trigger] s[i].precedes(#[trigger] s[j])
}

} // verus!

verus! {

/// Result of locating a key in a strictly sorted sequence.
pub open spec fn search_result<K: OrderedKey>(s: Seq<K>, k: K, found: bool, pos: int) -> bool {
    &&& 0 <= pos <= s.len()
    &&& found ==> pos < s.len() && s[pos] == k
    &&& !found ==> (forall|i: int| 0 <= i < pos ==> #[trigger] s[i].precedes(k))
    &&& !found ==> (forall|i: int| pos <= i < s.len() ==> k.precedes(#[trigger] s[i]))
}

/// Binary search for `k` in a strictly sorted vector.
pub fn sorted_search<K: OrderedKey>(v: &Vec<K>, k: &K) -> (r: (bool, usize))
    requires
        strictly_sorted(v@),
    ensures
        search_result(v@, *k, r.0, r.1 as int),
{
    let mut lo: usize = 0;
    let mut hi: usize = v.len();
    while lo < hi
        invariant
            0 <= lo <= hi <= v.len(),
            strictly_sorted(v@),
            forall|i: int| 0 <= i < lo ==> #[trigger] v@[i].precedes(*k),
            forall|i: int| hi <= i < v.len() ==> k.precedes(#[trigger] v@[i]),
        decreases hi - lo,
    {
        let mid = lo + (hi - lo) / 2;
        let m = v[mid];
        if m.same_as(k) {
            return (true, mid);
        } else if m.less_than(k) {
            assert forall|i: int| 0 <= i < mid + 1 implies #[trigger] v@[i].precedes(*k) by {
                K::lemma_order(v@[i], m, *k);
            }
            lo = mid + 1;
        } else {
            assert forall|i: int| mid <= i < v.len() implies k.precedes(#[trigger] v@[i]) by {
                K::lemma_order(*k, m, v@[i]);
                K::lemma_order(m, *k, *k);
            }
            hi = mid;
        }
    }
    (false, lo)
}

/// Strict sortedness rules out duplicates.
pub proof fn lemma_sorted_no_duplicates<K: OrderedKey>(s: Seq<K>)
    requires
        strictly_sorted(s),
    ensures
        s.no_duplicates(),
        s.to_set().len() == s.len(),
{
    assert forall|i: int, j: int| 0 <= i < s.len() && 0 <= j < s.len() && i != j implies s[i]
        != s[j] by {
        K::lemma_order(s[i], s[j], s[j]);
        K::lemma_order(s[j], s[i], s[i]);
        if i < j {
            assert(s[i].precedes(s[j]));
        } else {
            assert(s[j].precedes(s[i]));
        }
    }
    assert(s.no_duplicates());
    s.unique_seq_to_set();
}

/// An ordered set of keys.
#[derive(Debug)]
pub struct OrdSet<K> {
    elems: Vec<K>,
}

impl<K: OrderedKey> View for OrdSet<K> {
    type V = Set<K>;

    /// The members as a mathematical set.
    open spec fn view(&self) -> Set<K> {
        self.seq().to_set()
    }
}

impl<K: OrderedKey> OrdSet<K> {
    /// The members in ascending order.
    pub closed spec fn seq(&self) -> Seq<K> {
        self.elems@
    }

    /// The members are strictly ascending.
    pub open spec fn wf(&self) -> bool {
        strictly_sorted(self.seq())
    }

    /// The empty set.
    pub fn new() -> (s: Self)
        ensures
            s.wf(),
            s.seq() == Seq::<K>::empty(),
            s@ == Set::<K>::empty(),
    {
        let s = OrdSet { elems: Vec::new() };
        assert(s.seq().to_set() =~= Set::<K>::empty());
        s
    }

    /// Number of members.
    pub fn len(&self) -> (n: usize)
        requires
            self.wf(),
        ensures
            n == self.seq().len(),
            n == self@.len(),
    {
        proof {
            lemma_sorted_no_duplicates(self.seq());
        }
        self.elems.len()
    }

    /// Whether the set has no member.
    pub fn is_empty(&self) -> (b: bool)
        requires
            self.wf(),
        ensures
            b == (self.seq().len() == 0),
            b == (self@.len() == 0),
    {
        proof {
            lemma_sorted_no_duplicates(self.seq());
        }
        self.elems.len() == 0
    }

    /// Membership test.
    pub fn contains(&self, k: &K) -> (b: bool)
        requires
            self.wf(),
        ensures
            b == self@.contains(*k),
            b == self.seq().contains(*k),
    {
        let (found, pos) = sorted_search(&self.elems, k);
        proof {
            if !found {
                assert forall|i: int| 0 <= i < self.seq().len() implies self.seq()[i] != *k by {
                    K::lemma_order(*k, *k, *k);
                    if i < pos {
                        assert(self.seq()[i].precedes(*k));
                    } else {
                        assert(k.precedes(self.seq()[i]));
                    }
                }
            } else {
                assert(self.seq()[pos as int] == *k);
            }
        }
        found
    }

    /// The member at ascending position `i`.
    pub fn get(&self, i: usize) -> (k: K)
        requires
            i < self.seq().len(),
        ensures
            k == self.seq()[i as int],
    {
        self.elems[i]
    }

    /// Inserts `k`; returns whether it was absent.
    pub fn insert(&mut self, k: K) -> (inserted: bool)
        requires
            old(self).wf(),
        ensures
            final(self).wf(),
            final(self)@ == old(self)@.insert(k),
            inserted == !old(self)@.contains(k),
            !inserted ==> final(self).seq() == old(self).seq(),
    {
        let (found, pos) = sorted_search(&self.elems, &k);
        if found {
            proof {
                assert(self.seq()[pos as int] == k);
                assert(self@.insert(k) =~= self@);
            }
            false
        } else {
            let ghost old_seq = self.seq();
            proof {
                assert forall|i: int| 0 <= i < old_seq.len() implies old_seq[i] != k by {
                    K::lemma_order(k, k, k);
                    if i < pos {
                        assert(old_seq[i].precedes(k));
                    } else {
                        assert(k.precedes(old_seq[i]));
                    }
                }
            }
            self.elems.insert(pos, k);
            proof {
                let s = self.seq();
                assert(s == old_seq.insert(pos as int, k));
                assert forall|i: int, j: int| 0 <= i < j < s.len() implies #[trigger] s[i].precedes(
                    #[trigger] s[j],
                ) by {
                    if j < pos {
                    } else if j == pos {
                    } else if i < pos {
                        K::lemma_order(s[i], k, s[j]);
                    } else if i == pos {
                    } else {
                    }
                }
                assert forall|x: K| s.to_set().contains(x) <==> old_seq.to_set().insert(k).contains(
                    x,
                ) by {
                    if s.contains(x) {
                        let idx = choose|idx: int| 0 <= idx < s.len() && s[idx] == x;
                        if idx < pos {
                            assert(old_seq[idx] == x);
                        } else if idx > pos {
                            assert(old_seq[idx - 1] == x);
                        }
                    }
                    if old_seq.contains(x) {
                        let idx = choose|idx: int| 0 <= idx < old_seq.len() && old_seq[idx] == x;
                        if idx < pos {
                            assert(s[idx] == x);
                        } else {
                            assert(s[idx + 1] == x);
                        }
                    }
                    if x == k {
                        assert(s[pos as int] == k);
                    }
                }
                assert(s.to_set() =~= old_seq.to_set().insert(k));
            }
            true
        }
    }

    /// The least member, if any.
    pub fn first(&self) -> (k: Option<K>)
        requires
            self.wf(),
        ensures
            k is None <==> self@.len() == 0,
            k matches Some(m) ==> self@.contains(m) && forall|x: K|
                #[trigger] self@.contains(x) && x != m ==> m.precedes(x),
            k matches Some(m) ==> m == self.seq()[0],
    {
        proof {
            lemma_sorted_no_duplicates(self.seq());
        }
        if self.elems.len() == 0 {
            None
        } else {
            let m = self.elems[0];
            proof {
                assert(self.seq().contains(m));
                assert forall|x: K| #[trigger] self@.contains(x) && x != m implies m.precedes(x) by {
                    let idx = choose|idx: int| 0 <= idx < self.seq().len() && self.seq()[idx] == x;
                    assert(idx != 0);
                }
            }
            Some(m)
        }
    }

    /// Removes and returns the least member, if any.
    pub fn pop_first(&mut self) -> (k: Option<K>)
        requires
            old(self).wf(),
        ensures
            final(self).wf(),
            k is None <==> old(self)@.len() == 0,
            k is None ==> final(self)@ == old(self)@,
            k matches Some(m) ==> old(self)@.contains(m) && final(self)@ == old(self)@.remove(m)
                && forall|x: K| #[trigger] old(self)@.contains(x) && x != m ==> m.precedes(x),
            k matches Some(m) ==> final(self).seq() == old(self).seq().drop_first() && m == old(
                self,
            ).seq()[0],
    {
        let first = self.first();
        match first {
            None => None,
            Some(m) => {
                let ghost old_seq = self.seq();
                let removed = self.remove(&m);
                proof {
                    lemma_sorted_no_duplicates(old_seq);
                    let s = self.seq();
                    let p = choose|p: int|
                        0 <= p < old_seq.len() && old_seq[p] == m && s == old_seq.remove(p);
                    assert(p == 0);
                    assert(s =~= old_seq.drop_first());
                }
                Some(m)
            },
        }
    }

    /// A copy of the set.
    pub fn duplicate(&self) -> (c: Self)
        requires
            self.wf(),
        ensures
            c.wf(),
            c.seq() == self.seq(),
            c@ == self@,
    {
        let mut elems: Vec<K> = Vec::new();
        let n = self.elems.len();
        for i in 0..n
            invariant
                n == self.elems@.len(),
                elems@ == self.elems@.subrange(0, i as int),
        {
            elems.push(self.elems[i]);
            assert(elems@ =~= self.elems@.subrange(0, i + 1));
        }
        assert(elems@ =~= self.elems@);
        OrdSet { elems }
    }

    /// The members in ascending order.
    pub fn to_vec(&self) -> (v: Vec<K>)
        requires
            self.wf(),
        ensures
            v@ == self.seq(),
    {
        let c = self.duplicate();
        c.elems
    }

    /// Removes `k`; returns whether it was present.
    pub fn remove(&mut self, k: &K) -> (removed: bool)
        requires
            old(self).wf(),
        ensures
            final(self).wf(),
            final(self)@ == old(self)@.remove(*k),
            removed == old(self)@.contains(*k),
            removed ==> exists|p: int|
                0 <= p < old(self).seq().len() && old(self).seq()[p] == *k && final(self).seq()
                    == old(self).seq().remove(p),
            !removed ==> final(self).seq() == old(self).seq(),
    {
        let ghost old_seq = self.seq();
        let (found, pos) = sorted_search(&self.elems, k);
        if found {
            self.elems.remove(pos);
            proof {
                let s = self.seq();
                assert(s == old_seq.remove(pos as int));
                lemma_sorted_no_duplicates(old_seq);
                assert forall|i: int, j: int| 0 <= i < j < s.len() implies #[trigger] s[i].precedes(
                    #[trigger] s[j],
                ) by {
                    if j < pos {
                        assert(s[i] == old_seq[i] && s[j] == old_seq[j]);
                    } else if i < pos {
                        assert(s[i] == old_seq[i] && s[j] == old_seq[j + 1]);
                    } else {
                        assert(s[i] == old_seq[i + 1] && s[j] == old_seq[j + 1]);
                    }
                }
                assert forall|x: K| s.to_set().contains(x) <==> old_seq.to_set().remove(*k).contains(
                    x,
                ) by {
                    if s.contains(x) {
                        let idx = choose|idx: int| 0 <= idx < s.len() && s[idx] == x;
                        if idx < pos {
                            assert(old_seq[idx] == x);
                        } else {
                            assert(old_seq[idx + 1] == x);
                        }
                    }
                    if old_seq.contains(x) && x != *k {
                        let idx = choose|idx: int| 0 <= idx < old_seq.len() && old_seq[idx] == x;
                        if idx < pos {
                            assert(s[idx] == x);
                        } else {
                            assert(idx != pos);
                            assert(s[idx - 1] == x);
                        }
                    }
                }
                assert(s.to_set() =~= old_seq.to_set().remove(*k));
                assert(old_seq[pos as int] == *k);
            }
            true
        } else {
            proof {
                assert forall|i: int| 0 <= i < old_seq.len() implies old_seq[i] != *k by {
                    K::lemma_order(*k, *k, *k);
                    if i < pos {
                        assert(old_seq[i].precedes(*k));
                    } else {
                        assert(k.precedes(old_seq[i]));
                    }
                }
                assert(self@.remove(*k) =~= self@);
            }
            false
        }
    }
}

} // verus!

verus! {

/// An ordered map from keys to values.
#[derive(Debug)]
pub struct OrdMap<K, V> {
    keys: Vec<K>,
    vals: Vec<V>,
}

impl<K: OrderedKey, V> View for OrdMap<K, V> {
    type V = Map<K, V>;

    /// The entries as a mathematical map.
    open spec fn view(&self) -> Map<K, V> {
        Map::new(
            |k: K| self.key_seq().contains(k),
            |k: K| self.val_seq()[self.position_of(k)],
        )
    }
}

impl<K: OrderedKey, V> OrdMap<K, V> {
    /// The keys in ascending order.
    pub closed spec fn key_seq(&self) -> Seq<K> {
        self.keys@
    }

    /// The values, position by position with `key_seq`.
    pub closed spec fn val_seq(&self) -> Seq<V> {
        self.vals@
    }

    /// Keys are strictly ascending and paired with exactly one value each.
    pub open spec fn wf(&self) -> bool {
        &&& strictly_sorted(self.key_seq())
        &&& self.key_seq().len() == self.val_seq().len()
    }

    /// The position of `k` among the keys.
    pub open spec fn position_of(&self, k: K) -> int {
        choose|i: int| 0 <= i < self.key_seq().len() && self.key_seq()[i] == k
    }

    /// In a well-formed map, the position of a key is the unique index holding it.
    pub proof fn lemma_position(&self, i: int)
        requires
            self.wf(),
            0 <= i < self.key_seq().len(),
        ensures
            self.position_of(self.key_seq()[i]) == i,
            self@.contains_key(self.key_seq()[i]),
            self@[self.key_seq()[i]] == self.val_seq()[i],
    {
        lemma_sorted_no_duplicates(self.key_seq());
        let k = self.key_seq()[i];
        assert(self.key_seq().contains(k));
        let j = self.position_of(k);
        assert(0 <= j < self.key_seq().len() && self.key_seq()[j] == k);
    }

    /// The keys form a set of the same size as the key sequence.
    pub proof fn lemma_len(&self)
        requires
            self.wf(),
        ensures
            self@.dom() == self.key_seq().to_set(),
            self@.dom().len() == self.key_seq().len(),
    {
        lemma_sorted_no_duplicates(self.key_seq());
        assert(self@.dom() =~= self.key_seq().to_set());
    }

    /// The empty map.
    pub fn new() -> (m: Self)
        ensures
            m.wf(),
            m.key_seq() == Seq::<K>::empty(),
            m@ == Map::<K, V>::empty(),
    {
        let m = OrdMap { keys: Vec::new(), vals: Vec::new() };
        assert(m@ =~= Map::<K, V>::empty());
        m
    }

    /// Number of entries.
    pub fn len(&self) -> (n: usize)
        requires
            self.wf(),
        ensures
            n == self.key_seq().len(),
            n == self@.dom().len(),
    {
        proof {
            self.lemma_len();
        }
        self.keys.len()
    }

    /// Whether the map has no entry.
    pub fn is_empty(&self) -> (b: bool)
        requires
            self.wf(),
        ensures
            b == (self@.dom().len() == 0),
            b == (self.key_seq().len() == 0),
    {
        proof {
            self.lemma_len();
        }
        self.keys.len() == 0
    }

    /// The position of `k`, if present.
    pub fn index_of(&self, k: &K) -> (r: Option<usize>)
        requires
            self.wf(),
        ensures
            r is None <==> !self@.contains_key(*k),
            r matches Some(i) ==> i < self.key_seq().len() && self.key_seq()[i as int] == *k
                && self@[*k] == self.val_seq()[i as int],
    {
        let (found, pos) = sorted_search(&self.keys, k);
        if found {
            proof {
                self.lemma_position(pos as int);
            }
            Some(pos)
        } else {
            proof {
                assert forall|i: int| 0 <= i < self.key_seq().len() implies self.key_seq()[i]
                    != *k by {
                    K::lemma_order(*k, *k, *k);
                    if i < pos {
                        assert(self.key_seq()[i].precedes(*k));
                    } else {
                        assert(k.precedes(self.key_seq()[i]));
                    }
                }
            }
            None
        }
    }

    /// Whether `k` has an entry.
    pub fn contains_key(&self, k: &K) -> (b: bool)
        requires
            self.wf(),
        ensures
            b == self@.contains_key(*k),
    {
        self.index_of(k).is_some()
    }

    /// The value stored under `k`, if any.
    pub fn get(&self, k: &K) -> (r: Option<&V>)
        requires
            self.wf(),
        ensures
            r is None <==> !self@.contains_key(*k),
            r matches Some(v) ==> self@.contains_key(*k) && *v == self@[*k],
    {
        match self.index_of(k) {
            Some(i) => Some(&self.vals[i]),
            None => None,
        }
    }

    /// The key at ascending position `i`.
    pub fn key_at(&self, i: usize) -> (k: K)
        requires
            i < self.key_seq().len(),
        ensures
            k == self.key_seq()[i as int],
    {
        self.keys[i]
    }

    /// The value at ascending position `i`.
    pub fn value_at(&self, i: usize) -> (v: &V)
        requires
            self.wf(),
            i < self.key_seq().len(),
        ensures
            *v == self.val_seq()[i as int],
            *v == self@[self.key_seq()[i as int]],
    {
        proof {
            self.lemma_position(i as int);
        }
        &self.vals[i]
    }

    /// Replacing one value leaves the other entries unchanged.
    pub proof fn lemma_view_update(old_map: &Self, new_map: &Self, i: int, v: V)
        requires
            old_map.wf(),
            0 <= i < old_map.key_seq().len(),
            new_map.key_seq() == old_map.key_seq(),
            new_map.val_seq() == old_map.val_seq().update(i, v),
        ensures
            new_map.wf(),
            new_map@ == old_map@.insert(old_map.key_seq()[i], v),
    {
        let k = old_map.key_seq()[i];
        lemma_sorted_no_duplicates(old_map.key_seq());
        assert forall|x: K| #[trigger] new_map@.contains_key(x) implies new_map@[x]
            == old_map@.insert(k, v)[x] by {
            let j = new_map.position_of(x);
            new_map.lemma_position(j);
            old_map.lemma_position(j);
            if x == k {
                new_map.lemma_position(i);
            } else {
                assert(j != i);
            }
        }
        assert(new_map@ =~= old_map@.insert(k, v));
    }

    /// Mutable access to the value at ascending position `i`.
    pub fn value_mut_at(&mut self, i: usize) -> (v: &mut V)
        requires
            old(self).wf(),
            i < old(self).key_seq().len(),
        ensures
            *v == old(self).val_seq()[i as int],
            final(self).key_seq() == old(self).key_seq(),
            final(self).val_seq() == old(self).val_seq().update(i as int, *final(v)),
    {
        &mut self.vals[i]
    }

    /// Replaces the value at ascending position `i`.
    pub fn set_value_at(&mut self, i: usize, v: V)
        requires
            old(self).wf(),
            i < old(self).key_seq().len(),
        ensures
            final(self).wf(),
            final(self).key_seq() == old(self).key_seq(),
            final(self).val_seq() == old(self).val_seq().update(i as int, v),
            final(self)@ == old(self)@.insert(old(self).key_seq()[i as int], v),
    {
        let ghost old_map = self@;
        let ghost k = self.keys@[i as int];
        self.vals.set(i, v);
        proof {
            lemma_sorted_no_duplicates(self.key_seq());
            assert forall|x: K| #[trigger] self@.contains_key(x) implies self@[x] == old_map.insert(
                k,
                v,
            )[x] by {
                let j = self.position_of(x);
                self.lemma_position(j);
                if x == k {
                    self.lemma_position(i as int);
                } else {
                    assert(j != i);
                }
            }
            assert(self@ =~= old_map.insert(k, v));
        }
    }

    /// Inserts or replaces the entry for `k`; returns whether `k` was absent.
    pub fn insert(&mut self, k: K, v: V) -> (inserted: bool)
        requires
            old(self).wf(),
        ensures
            final(self).wf(),
            final(self)@ == old(self)@.insert(k, v),
            inserted == !old(self)@.contains_key(k),
            final(self).key_seq().to_set() == old(self).key_seq().to_set().insert(k),
    {
        let ghost old_map = self@;
        let ghost old_keys = self.key_seq();
        let ghost old_vals = self.val_seq();
        let (found, pos) = sorted_search(&self.keys, &k);
        if found {
            self.set_value_at(pos, v);
            proof {
                assert(old_keys.to_set().insert(k) =~= old_keys.to_set());
            }
            false
        } else {
            proof {
                assert forall|i: int| 0 <= i < old_keys.len() implies old_keys[i] != k by {
                    K::lemma_order(k, k, k);
                    if i < pos {
                        assert(old_keys[i].precedes(k));
                    } else {
                        assert(k.precedes(old_keys[i]));
                    }
                }
            }
            self.keys.insert(pos, k);
            self.vals.insert(pos, v);
            proof {
                let s = self.key_seq();
                assert(s == old_keys.insert(pos as int, k));
                assert forall|i: int, j: int| 0 <= i < j < s.len() implies #[trigger] s[i].precedes(
                    #[trigger] s[j],
                ) by {
                    if j < pos {
                    } else if j == pos {
                    } else if i < pos {
                        K::lemma_order(s[i], k, s[j]);
                    } else if i == pos {
                    } else {
                    }
                }
                assert forall|x: K| #[trigger] s.contains(x) <==> (old_keys.contains(x) || x == k) by {
                    if s.contains(x) {
                        let idx = choose|idx: int| 0 <= idx < s.len() && s[idx] == x;
                        if idx < pos {
                            assert(old_keys[idx] == x);
                        } else if idx > pos {
                            assert(old_keys[idx - 1] == x);
                        }
                    }
                    if old_keys.contains(x) {
                        let idx = choose|idx: int| 0 <= idx < old_keys.len() && old_keys[idx] == x;
                        if idx < pos {
                            assert(s[idx] == x);
                        } else {
                            assert(s[idx + 1] == x);
                        }
                    }
                    if x == k {
                        assert(s[pos as int] == k);
                    }
                }
                assert(s.to_set() =~= old_keys.to_set().insert(k));
                assert forall|x: K| #[trigger] self@.contains_key(x) implies self@[x] == old_map.insert(
                    k,
                    v,
                )[x] by {
                    let j = self.position_of(x);
                    self.lemma_position(j);
                    if x == k {
                        self.lemma_position(pos as int);
                    } else {
                        assert(old_keys.contains(x));
                        let oj = old_map_position(old_keys, x);
                        lemma_sorted_no_duplicates(old_keys);
                        if j < pos {
                            assert(old_keys[j] == x);
                            assert(self.val_seq()[j] == old_vals[j]);
                            assert(old_keys.contains(x));
                            lemma_unique_position(old_keys, j, oj);
                        } else {
                            assert(j > pos);
                            assert(old_keys[j - 1] == x);
                            assert(self.val_seq()[j] == old_vals[j - 1]);
                            lemma_unique_position(old_keys, j - 1, oj);
                        }
                    }
                }
                assert(self@ =~= old_map.insert(k, v));
            }
            true
        }
    }

    /// Removes the entry for `k`, returning its value.
    pub fn remove(&mut self, k: &K) -> (r: Option<V>)
        requires
            old(self).wf(),
        ensures
            final(self).wf(),
            final(self)@ == old(self)@.remove(*k),
            r is None <==> !old(self)@.contains_key(*k),
            r matches Some(v) ==> v == old(self)@[*k],
    {
        let ghost old_map = self@;
        let ghost old_keys = self.key_seq();
        let ghost old_vals = self.val_seq();
        match self.index_of(k) {
            None => {
                proof {
                    assert(old_map.remove(*k) =~= old_map);
                }
                None
            },
            Some(pos) => {
                self.keys.remove(pos);
                let v = self.vals.remove(pos);
                proof {
                    lemma_sorted_no_duplicates(old_keys);
                    let s = self.key_seq();
                    assert(s == old_keys.remove(pos as int));
                    assert forall|i: int, j: int| 0 <= i < j < s.len() implies #[trigger] s[i].precedes(
                        #[trigger] s[j],
                    ) by {
                        if j < pos {
                            assert(s[i] == old_keys[i] && s[j] == old_keys[j]);
                        } else if i < pos {
                            assert(s[i] == old_keys[i] && s[j] == old_keys[j + 1]);
                        } else {
                            assert(s[i] == old_keys[i + 1] && s[j] == old_keys[j + 1]);
                        }
                    }
                    assert forall|x: K| #[trigger] s.contains(x) <==> (old_keys.contains(x) && x != *k) by {
                        if s.contains(x) {
                            let idx = choose|idx: int| 0 <= idx < s.len() && s[idx] == x;
                            if idx < pos {
                                assert(old_keys[idx] == x);
                                if x == *k {
                                    lemma_unique_position(old_keys, idx, pos as int);
                                }
                            } else {
                                assert(old_keys[idx + 1] == x);
                                if x == *k {
                                    lemma_unique_position(old_keys, idx + 1, pos as int);
                                }
                            }
                        }
                        if old_keys.contains(x) && x != *k {
                            let idx = choose|idx: int| 0 <= idx < old_keys.len() && old_keys[idx] == x;
                            if idx < pos {
                                assert(s[idx] == x);
                            } else {
                                assert(idx != pos);
                                assert(s[idx - 1] == x);
                            }
                        }
                    }
                    assert forall|x: K| #[trigger] self@.contains_key(x) implies self@[x] == old_map.remove(
                        *k,
                    )[x] by {
                        let j = self.position_of(x);
                        self.lemma_position(j);
                        assert(old_keys.contains(x));
                        let oj = old_map_position(old_keys, x);
                        if j < pos {
                            assert(old_keys[j] == x);
                            lemma_unique_position(old_keys, j, oj);
                        } else {
                            assert(old_keys[j + 1] == x);
                            lemma_unique_position(old_keys, j + 1, oj);
                        }
                    }
                    assert(self@ =~= old_map.remove(*k));
                }
                Some(v)
            },
        }
    }
}

/// The position chosen for `k` in a key sequence.
pub open spec fn old_map_position<K>(keys: Seq<K>, k: K) -> int {
    choose|i: int| 0 <= i < keys.len() && keys[i] == k
}

/// In a sequence without duplicates, two positions holding one key coincide.
pub proof fn lemma_unique_position<K>(keys: Seq<K>, i: int, j: int)
    requires
        keys.no_duplicates(),
        0 <= i < keys.len(),
        0 <= j < keys.len(),
        keys[j] == keys[i],
    ensures
        i == j,
{
}

} // verus!

verus! {

impl<K: OrderedKey, V: Copy> OrdMap<K, V> {
    /// The entries in ascending key order.
    pub fn entries(&self) -> (v: Vec<(K, V)>)
        requires
            self.wf(),
        ensures
            v@.len() == self.key_seq().len(),
            forall|i: int| 0 <= i < v@.len() ==> #[trigger] v@[i] == (self.key_seq()[i], self.val_seq()[i]),
    {
        let mut v: Vec<(K, V)> = Vec::new();
        let n = self.keys.len();
        for i in 0..n
            invariant
                n == self.key_seq().len(),
                self.wf(),
                v@.len() == i,
                forall|j: int| 0 <= j < i ==> #[trigger] v@[j] == (self.key_seq()[j], self.val_seq()[j]),
        {
            v.push((self.keys[i], self.vals[i]));
        }
        v
    }
}

} // verus!

verus! {

/// Every set stored in `m` is well formed.
pub open spec fn sets_wf<K: OrderedKey, J: OrderedKey>(m: OrdMap<K, OrdSet<J>>) -> bool {
    &&& m.wf()
    &&& forall|k: K| #[trigger] m@.contains_key(k) ==> m@[k].wf()
}

/// The sets stored in `m`, as mathematical sets.
pub open spec fn sets_view<K: OrderedKey, J: OrderedKey>(m: OrdMap<K, OrdSet<J>>) -> Map<K, Set<J>> {
    Map::new(|k: K| m@.contains_key(k), |k: K| m@[k]@)
}

/// Adds `member` to the set stored under `key`, creating an empty set first if needed.
pub fn insert_into_set_entry<K: OrderedKey, J: OrderedKey>(
    m: &mut OrdMap<K, OrdSet<J>>,
    key: K,
    member: J,
)
    requires
        sets_wf(*old(m)),
    ensures
        sets_wf(*final(m)),
        sets_view(*final(m)) == sets_view(*old(m)).insert(
            key,
            if old(m)@.contains_key(key) {
                old(m)@[key]@.insert(member)
            } else {
                Set::<J>::empty().insert(member)
            },
        ),
{
    let ghost old_m = *m;
    match m.index_of(&key) {
        Some(i) => {
            let ghost old_set = m.val_seq()[i as int];
            proof {
                m.lemma_position(i as int);
            }
            let entry = m.value_mut_at(i);
            entry.insert(member);
            proof {
                let new_set = m.val_seq()[i as int];
                OrdMap::lemma_view_update(&old_m, m, i as int, new_set);
                assert(sets_view(*m) =~= sets_view(old_m).insert(key, old_set@.insert(member)));
            }
        },
        None => {
            let mut fresh: OrdSet<J> = OrdSet::new();
            fresh.insert(member);
            let ghost fresh_set = fresh;
            m.insert(key, fresh);
            proof {
                assert(sets_view(*m) =~= sets_view(old_m).insert(key, Set::<J>::empty().insert(member)));
            }
        },
    }
}

/// Ensures `key` has an entry in `m`, storing an empty set if it had none.
pub fn ensure_set_entry<K: OrderedKey, J: OrderedKey>(m: &mut OrdMap<K, OrdSet<J>>, key: K)
    requires
        sets_wf(*old(m)),
    ensures
        sets_wf(*final(m)),
        sets_view(*final(m)) == if old(m)@.contains_key(key) {
            sets_view(*old(m))
        } else {
            sets_view(*old(m)).insert(key, Set::<J>::empty())
        },
{
    let ghost old_m = *m;
    if !m.contains_key(&key) {
        let fresh: OrdSet<J> = OrdSet::new();
        m.insert(key, fresh);
        proof {
            assert(sets_view(*m) =~= sets_view(old_m).insert(key, Set::<J>::empty()));
        }
    }
}

} // verus!

verus! {

/// Whether two ordered sets have the same members.
pub fn same_members<K: OrderedKey>(a: &OrdSet<K>, b: &OrdSet<K>) -> (r: bool)
    requires
        a.wf(),
        b.wf(),
    ensures
        r == (a@ == b@),
{
    let n = a.len();
    if n != b.len() {
        return false;
    }
    for i in 0..n
        invariant
            a.wf(),
            b.wf(),
            n == a.seq().len(),
            n == a@.len(),
            n == b@.len(),
            forall|j: int| 0 <= j < i ==> b@.contains(#[trigger] a.seq()[j]),
    {
        let x = a.get(i);
        if !b.contains(&x) {
            proof {
                assert(a@.contains(x));
            }
            return false;
        }
    }
    proof {
        assert forall|x: K| a@.contains(x) implies b@.contains(x) by {
            let j = choose|j: int| 0 <= j < a.seq().len() && a.seq()[j] == x;
        }
        vstd::set_lib::lemma_subset_equality(a@, b@);
    }
    true
}

} // verus!

verus! {

impl<K: OrderedKey, V> OrdMap<K, V> {
    /// The values in ascending key order, consuming the map.
    pub fn into_values(self) -> (v: Vec<V>)
        ensures
            v@ == self.val_seq(),
    {
        self.vals
    }
}

} // verus!

verus! {

/// Two strictly ascending sequences with the same members are equal: an
/// ordered collection has exactly one listing.
pub proof fn lemma_sorted_unique<K: OrderedKey>(a: Seq<K>, b: Seq<K>)
    requires
        strictly_sorted(a),
        strictly_sorted(b),
        a.to_set() == b.to_set(),
    ensures
        a == b,
    decreases a.len(),
{
    if a.len() == 0 {
        if b.len() > 0 {
            assert(b.to_set().contains(b[0]));
        }
        assert(b =~= a);
    } else {
        assert(a.to_set().contains(a[0]));
        assert(b.to_set().contains(a[0]));
        assert(b.len() > 0);
        assert(b.to_set().contains(b[0]));
        assert(a.to_set().contains(b[0]));
        let i = choose|i: int| 0 <= i < a.len() && a[i] == b[0];
        let j = choose|j: int| 0 <= j < b.len() && b[j] == a[0];
        if i > 0 && j > 0 {
            assert(a[0].precedes(a[i]));
            assert(b[0].precedes(b[j]));
            K::lemma_order(a[0], b[0], a[0]);
        }
        if i == 0 {
            assert(a[0] == b[0]);
        } else {
            assert(b[0] == a[0]) by {
                if j > 0 {
                    K::lemma_order(a[0], b[0], a[0]);
                }
            }
        }
        assert(a[0] == b[0]);
        let a1 = a.drop_first();
        let b1 = b.drop_first();
        assert forall|x: K| a1.to_set().contains(x) <==> b1.to_set().contains(x) by {
            if a1.to_set().contains(x) {
                let p = choose|p: int| 0 <= p < a1.len() && a1[p] == x;
                assert(a[p + 1] == x);
                assert(a[0].precedes(x));
                K::lemma_order(x, x, x);
                assert(b.to_set().contains(x));
                let q = choose|q: int| 0 <= q < b.len() && b[q] == x;
                assert(q != 0);
                assert(b1[q - 1] == x);
            }
            if b1.to_set().contains(x) {
                let p = choose|p: int| 0 <= p < b1.len() && b1[p] == x;
                assert(b[p + 1] == x);
                assert(b[0].precedes(x));
                K::lemma_order(x, x, x);
                assert(a.to_set().contains(x));
                let q = choose|q: int| 0 <= q < a.len() && a[q] == x;
                assert(q != 0);
                assert(a1[q - 1] == x);
            }
        }
        assert(a1.to_set() =~= b1.to_set());
        assert forall|p: int, q: int| 0 <= p < q < a1.len() implies #[trigger] a1[p].precedes(#[trigger] a1[q]) by {
            assert(a[p + 1].precedes(a[q + 1]));
        }
        assert forall|p: int, q: int| 0 <= p < q < b1.len() implies #[trigger] b1[p].precedes(#[trigger] b1[q]) by {
            assert(b[p + 1].precedes(b[q + 1]));
        }
        lemma_sorted_unique(a1, b1);
        assert(a =~= b) by {
            assert forall|p: int| 0 <= p < a.len() implies a[p] == b[p] by {
                if p > 0 {
                    assert(a1[p - 1] == b1[p - 1]);
                }
            }
        }
    }
}

/// The member at position `i` of a strictly ascending sequence is not among
/// the ones before it, and the prefix through it holds one member more.
pub proof fn lemma_sorted_prefix_step<K: OrderedKey>(s: Seq<K>, i: int)
    requires
        strictly_sorted(s),
        0 <= i < s.len(),
    ensures
        !s.take(i).contains(s[i]),
        s.take(i + 1).to_set() == s.take(i).to_set().insert(s[i]),
        s.take(i + 1) == s.take(i).push(s[i]),
{
    if s.take(i).contains(s[i]) {
        let j = choose|j: int| 0 <= j < i && s.take(i)[j] == s[i];
        assert(s[j].precedes(s[i]));
        K::lemma_order(s[i], s[i], s[i]);
    }
    assert(s.take(i + 1) =~= s.take(i).push(s[i]));
    s.take(i).lemma_push_to_set_commute(s[i]);
}

} // verus!
