//! The least-first topological order in which ready changes are processed.
//!
//! A change is ready once every change it depends on has been processed. At
//! each step the least ready change (in hash order) is processed next, until
//! no change is ready.

use vstd::prelude::*;
use crate::types::{ChangeHash, OrderedKey};

verus! {

/// `c` is a node not yet done whose dependencies are all done.
pub open spec fn is_ready(deps: Map<ChangeHash, Set<ChangeHash>>, done: Set<ChangeHash>, c: ChangeHash) -> bool {
    &&& deps.contains_key(c)
    &&& !done.contains(c)
    &&& deps[c].subset_of(done)
}

/// The nodes that are ready once `done` is done.
pub open spec fn ready_set(deps: Map<ChangeHash, Set<ChangeHash>>, done: Set<ChangeHash>) -> Set<ChangeHash> {
    Set::new(|c: ChangeHash| is_ready(deps, done, c))
}

/// `m` is the least member of `s`.
pub open spec fn is_least(s: Set<ChangeHash>, m: ChangeHash) -> bool {
    &&& s.contains(m)
    &&& forall|x: ChangeHash| #[trigger] s.contains(x) && x != m ==> m.precedes(x)
}

/// Each entry of `o` is the least node that is ready after the entries before it.
pub open spec fn greedy_prefix(deps: Map<ChangeHash, Set<ChangeHash>>, o: Seq<ChangeHash>) -> bool {
    forall|i: int| 0 <= i < o.len() ==> is_least(ready_set(deps, o.take(i).to_set()), #[trigger] o[i])
}

/// `o` is the least-first order, carried on until no node is ready.
pub open spec fn greedy_order(deps: Map<ChangeHash, Set<ChangeHash>>, o: Seq<ChangeHash>) -> bool {
    &&& greedy_prefix(deps, o)
    &&& forall|c: ChangeHash| !#[trigger] is_ready(deps, o.to_set(), c)
}

/// For every node, the nodes that depend on it, where there are any.
pub open spec fn dependant_sets(deps: Map<ChangeHash, Set<ChangeHash>>) -> Map<ChangeHash, Set<ChangeHash>> {
    Map::new(
        |p: ChangeHash| exists|c: ChangeHash| #[trigger] deps.contains_key(c) && deps[c].contains(p),
        |p: ChangeHash| Set::new(|c: ChangeHash| deps.contains_key(c) && deps[c].contains(p)),
    )
}

/// The dependencies of `c` that are not done yet.
pub open spec fn open_deps(deps: Map<ChangeHash, Set<ChangeHash>>, done: Set<ChangeHash>, c: ChangeHash) -> Set<ChangeHash> {
    deps[c].difference(done)
}

/// A finite set has no member outside `done` exactly when its open part is empty.
pub proof fn lemma_open_empty(s: Set<ChangeHash>, done: Set<ChangeHash>)
    requires
        s.finite(),
    ensures
        s.difference(done).finite(),
        s.difference(done).len() == 0 <==> s.subset_of(done),
{
    if s.difference(done).len() == 0 {
        s.difference(done).lemma_len0_is_empty();
        assert forall|x: ChangeHash| s.contains(x) implies done.contains(x) by {
            if !done.contains(x) {
                assert(s.difference(done).contains(x));
            }
        }
    }
    if s.subset_of(done) {
        assert(s.difference(done) =~= Set::<ChangeHash>::empty());
    }
}

/// Marking `h` done removes it from the open part of `s` when it belongs there.
pub proof fn lemma_open_step(s: Set<ChangeHash>, done: Set<ChangeHash>, h: ChangeHash)
    requires
        s.finite(),
        !done.contains(h),
    ensures
        s.difference(done.insert(h)).len() == s.difference(done).len() - (if s.contains(h) {
            1int
        } else {
            0
        }),
{
    assert(s.difference(done.insert(h)) =~= s.difference(done).remove(h));
    vstd::set::axiom_set_remove_len(s.difference(done), h);
}

/// Once `h` is processed after `done`, the nodes other than `h` that are ready
/// are those that were ready and the dependants of `h` whose last open
/// dependency was `h`.
pub proof fn lemma_ready_step(
    deps: Map<ChangeHash, Set<ChangeHash>>,
    done: Set<ChangeHash>,
    h: ChangeHash,
    c: ChangeHash,
)
    requires
        is_ready(deps, done, h),
        c != h,
        !deps.contains_key(c) || !deps[c].contains(h),
    ensures
        is_ready(deps, done.insert(h), c) == is_ready(deps, done, c),
{
}

/// The prefix of a greedy order that stops short is still greedy.
pub proof fn lemma_greedy_push(deps: Map<ChangeHash, Set<ChangeHash>>, o: Seq<ChangeHash>, h: ChangeHash)
    requires
        greedy_prefix(deps, o),
        is_least(ready_set(deps, o.to_set()), h),
    ensures
        greedy_prefix(deps, o.push(h)),
        o.push(h).to_set() == o.to_set().insert(h),
{
    let n = o.push(h);
    assert forall|i: int| 0 <= i < n.len() implies is_least(ready_set(deps, n.take(i).to_set()), #[trigger] n[i]) by {
        if i < o.len() {
            assert(n.take(i) =~= o.take(i));
        } else {
            assert(n.take(i) =~= o);
        }
    }
    o.lemma_push_to_set_commute(h);
}

/// A greedy prefix has no repeated entry, and only lists nodes.
pub proof fn lemma_greedy_distinct(deps: Map<ChangeHash, Set<ChangeHash>>, o: Seq<ChangeHash>)
    requires
        greedy_prefix(deps, o),
    ensures
        o.no_duplicates(),
        o.to_set().subset_of(deps.dom()),
{
    assert forall|i: int, j: int| 0 <= i < j < o.len() implies o[i] != o[j] by {
        assert(is_least(ready_set(deps, o.take(j).to_set()), o[j]));
        assert(o.take(j)[i] == o[i]);
        assert(o.take(j).to_set().contains(o[i]));
    }
    assert forall|x: ChangeHash| o.to_set().contains(x) implies deps.dom().contains(x) by {
        let i = choose|i: int| 0 <= i < o.len() && o[i] == x;
        assert(is_least(ready_set(deps, o.take(i).to_set()), o[i]));
    }
}

} // verus!

verus! {

/// Adding `d` to the dependencies of `h` adds `h` to the dependants of `d`.
pub proof fn lemma_dependant_sets_add(
    deps: Map<ChangeHash, Set<ChangeHash>>,
    h: ChangeHash,
    d: ChangeHash,
)
    requires
        deps.contains_key(h),
    ensures
        dependant_sets(deps.insert(h, deps[h].insert(d))) == dependant_sets(deps).insert(
            d,
            if dependant_sets(deps).contains_key(d) {
                dependant_sets(deps)[d].insert(h)
            } else {
                Set::<ChangeHash>::empty().insert(h)
            },
        ),
{
    let a = dependant_sets(deps.insert(h, deps[h].insert(d)));
    let b = dependant_sets(deps).insert(
        d,
        if dependant_sets(deps).contains_key(d) {
            dependant_sets(deps)[d].insert(h)
        } else {
            Set::<ChangeHash>::empty().insert(h)
        },
    );
    let n = deps.insert(h, deps[h].insert(d));
    assert forall|p: ChangeHash| a.contains_key(p) <==> b.contains_key(p) by {
        if p == d {
            assert(n.contains_key(h) && n[h].contains(d));
        } else {
            if a.contains_key(p) {
                let c = choose|c: ChangeHash| #[trigger] n.contains_key(c) && n[c].contains(p);
                assert(deps.contains_key(c) && deps[c].contains(p));
            }
            if b.contains_key(p) {
                let c = choose|c: ChangeHash| #[trigger] deps.contains_key(c) && deps[c].contains(p);
                assert(n.contains_key(c) && n[c].contains(p));
            }
        }
    }
    assert forall|p: ChangeHash| a.contains_key(p) implies a[p] =~= b[p] by {
        if p == d {
            if !dependant_sets(deps).contains_key(d) {
                assert forall|c: ChangeHash| deps.contains_key(c) implies !deps[c].contains(d) by {
                    if deps[c].contains(d) {
                        assert(dependant_sets(deps).contains_key(d));
                    }
                }
            }
        }
    }
    assert(a =~= b);
}

/// A new node with no dependencies leaves the dependants unchanged.
pub proof fn lemma_dependant_sets_new(deps: Map<ChangeHash, Set<ChangeHash>>, h: ChangeHash)
    requires
        !deps.contains_key(h),
    ensures
        dependant_sets(deps.insert(h, Set::<ChangeHash>::empty())) == dependant_sets(deps),
{
    let n = deps.insert(h, Set::<ChangeHash>::empty());
    let a = dependant_sets(n);
    let b = dependant_sets(deps);
    assert forall|p: ChangeHash| a.contains_key(p) <==> b.contains_key(p) by {
        if a.contains_key(p) {
            let c = choose|c: ChangeHash| #[trigger] n.contains_key(c) && n[c].contains(p);
            assert(deps.contains_key(c) && deps[c].contains(p));
        }
        if b.contains_key(p) {
            let c = choose|c: ChangeHash| #[trigger] deps.contains_key(c) && deps[c].contains(p);
            assert(n.contains_key(c) && n[c].contains(p));
        }
    }
    assert forall|p: ChangeHash| a.contains_key(p) implies a[p] =~= b[p] by {}
    assert(a =~= b);
}

} // verus!

verus! {

/// Everything a processed node depends on was processed before it.
pub proof fn lemma_greedy_closed(deps: Map<ChangeHash, Set<ChangeHash>>, o: Seq<ChangeHash>, c: ChangeHash)
    requires
        greedy_prefix(deps, o),
        o.to_set().contains(c),
    ensures
        deps.contains_key(c),
        deps[c].subset_of(o.to_set()),
{
    let i = choose|i: int| 0 <= i < o.len() && o[i] == c;
    assert(is_least(ready_set(deps, o.take(i).to_set()), o[i]));
    assert forall|x: ChangeHash| deps[c].contains(x) implies o.to_set().contains(x) by {
        assert(o.take(i).to_set().contains(x));
        let j = choose|j: int| 0 <= j < o.take(i).len() && o.take(i)[j] == x;
        assert(o[j] == x);
    }
}

/// Two least members of one set coincide.
pub proof fn lemma_least_unique(s: Set<ChangeHash>, a: ChangeHash, b: ChangeHash)
    requires
        is_least(s, a),
        is_least(s, b),
    ensures
        a == b,
{
    if a != b {
        assert(a.precedes(b));
        assert(b.precedes(a));
        ChangeHash::lemma_order(a, b, a);
    }
}

/// Every greedy prefix is a prefix of every complete greedy order.
pub proof fn lemma_greedy_prefix_of_order(deps: Map<ChangeHash, Set<ChangeHash>>, p: Seq<ChangeHash>, o: Seq<ChangeHash>)
    requires
        greedy_prefix(deps, p),
        greedy_order(deps, o),
    ensures
        p.len() <= o.len(),
        o.take(p.len() as int) == p,
    decreases p.len(),
{
    if p.len() > 0 {
        let q = p.drop_last();
        assert(greedy_prefix(deps, q)) by {
            assert forall|i: int| 0 <= i < q.len() implies is_least(ready_set(deps, q.take(i).to_set()), #[trigger] q[i]) by {
                assert(q.take(i) =~= p.take(i));
                assert(q[i] == p[i]);
            }
        }
        lemma_greedy_prefix_of_order(deps, q, o);
        let k = q.len() as int;
        assert(p.take(k) =~= q);
        assert(is_least(ready_set(deps, q.to_set()), p[k]));
        if o.len() == k {
            assert(o =~= o.take(k));
            assert(is_ready(deps, o.to_set(), p[k]));
        } else {
            assert(o.take(k) =~= q);
            assert(is_least(ready_set(deps, o.take(k).to_set()), o[k]));
            lemma_least_unique(ready_set(deps, q.to_set()), p[k], o[k]);
            assert(o.take(k + 1) =~= p);
        }
    }
}

/// Two complete greedy orders are equal.
pub proof fn lemma_greedy_order_unique(deps: Map<ChangeHash, Set<ChangeHash>>, a: Seq<ChangeHash>, b: Seq<ChangeHash>)
    requires
        greedy_order(deps, a),
        greedy_order(deps, b),
    ensures
        a == b,
{
    lemma_greedy_prefix_of_order(deps, a, b);
    lemma_greedy_prefix_of_order(deps, b, a);
    assert(a =~= b.take(a.len() as int));
    assert(a.len() == b.len());
    assert(b.take(b.len() as int) =~= b);
}

} // verus!

verus! {

/// `s` holds `roots` and, with each node it holds, that node's dependencies.
pub open spec fn closed_from(deps: Map<ChangeHash, Set<ChangeHash>>, roots: Set<ChangeHash>, s: Set<ChangeHash>) -> bool {
    &&& roots.subset_of(s)
    &&& forall|x: ChangeHash| #[trigger] s.contains(x) && deps.contains_key(x) ==> deps[x].subset_of(s)
}

/// `s` is exactly what `roots` reach through `deps`: the least set closed from them.
pub open spec fn reachable_set(deps: Map<ChangeHash, Set<ChangeHash>>, roots: Set<ChangeHash>, s: Set<ChangeHash>) -> bool {
    &&& closed_from(deps, roots, s)
    &&& forall|t: Set<ChangeHash>| #[trigger] closed_from(deps, roots, t) ==> s.subset_of(t)
}

/// `h` is reached from `roots`: it lies in every set closed from them.
pub open spec fn reaches(deps: Map<ChangeHash, Set<ChangeHash>>, roots: Set<ChangeHash>, h: ChangeHash) -> bool {
    forall|t: Set<ChangeHash>| #[trigger] closed_from(deps, roots, t) ==> t.contains(h)
}

/// The reachable set is unique.
pub proof fn lemma_reachable_unique(deps: Map<ChangeHash, Set<ChangeHash>>, roots: Set<ChangeHash>, a: Set<ChangeHash>, b: Set<ChangeHash>)
    requires
        reachable_set(deps, roots, a),
        reachable_set(deps, roots, b),
    ensures
        a == b,
{
    assert(a.subset_of(b));
    assert(b.subset_of(a));
    assert(a =~= b);
}

} // verus!
