use std::cell::Cell;
use std::rc::Rc;

use nostr_automerge::ordered::OrdMap;
use nostr_automerge::reference::branch_state::PersistentDeltaMap;
use nostr_automerge::types::{OrderedKey, SameValue};
use nostr_automerge::work_budget::{
    CancellationCheck, NeverCancelled, WorkBudget, WorkCounter, WorkStop,
};

struct CancelAfter {
    remaining: Cell<u64>,
}

impl CancellationCheck for CancelAfter {
    fn is_cancelled(&self) -> bool {
        let left = self.remaining.get();
        if left == 0 {
            return true;
        }
        self.remaining.set(left - 1);
        false
    }
}

#[derive(Debug)]
struct DropProbe {
    identity: u8,
    drops: Rc<Cell<usize>>,
}

impl Drop for DropProbe {
    fn drop(&mut self) {
        self.drops.set(self.drops.get() + 1);
    }
}

impl SameValue for DropProbe {
    fn same_value(&self, other: &Self) -> bool {
        self.identity == other.identity
    }
}

fn map<K: OrderedKey, V>(entries: Vec<(K, V)>) -> OrdMap<K, V> {
    let mut m = OrdMap::new();
    for (k, v) in entries {
        m.insert(k, v);
    }
    m
}

fn ample() -> WorkBudget {
    WorkBudget::new(0, u64::MAX)
}

fn visits(budget: &WorkBudget) -> u64 {
    budget.consumed().get(WorkCounter::GraphNode)
}

/// How many layers the map has: a lookup of an absent key reads them all.
fn depth<V>(state: &PersistentDeltaMap<u8, V>, absent: u8) -> u64 {
    let mut budget = ample();
    assert!(state.get_metered(&absent, &mut budget, &NeverCancelled).is_ok_and(|v| v.is_none()));
    visits(&budget)
}

#[test]
fn delta_chain_shares_parent_and_materializes_in_override_order() {
    let parent = PersistentDeltaMap::from_local(map(vec![(1_u8, 10_u8), (2, 20)]));
    let child = parent.extend_local(map(vec![(2, 21), (3, 30)]));
    assert_eq!(depth(&child, 99), depth(&parent, 99) + 1);
    assert_eq!(child.get(&1), Some(&10));
    assert_eq!(child.get(&2), Some(&21));
    assert_eq!(child.get(&3), Some(&30));
    assert_eq!(child.local_len(), 2);
    assert_eq!(parent.get(&2), Some(&20));
    assert_eq!(parent.get(&3), None);

    let mut budget = ample();
    let materialized = child.materialize_metered(&mut budget, &NeverCancelled);
    assert_eq!(materialized.map(|m| m.entries()).ok(), Some(vec![(1, 10), (2, 21), (3, 30)]));
    assert_eq!(visits(&budget), 6);
    for boundary in 0..visits(&budget) {
        let mut limited = WorkBudget::new(0, boundary);
        let stopped = child.materialize_metered(&mut limited, &NeverCancelled);
        assert_eq!(stopped.err(), Some(WorkStop::BudgetExhausted));
        assert_eq!(visits(&limited), boundary);
        let mut unlimited = ample();
        let cancel = CancelAfter { remaining: Cell::new(boundary) };
        let stopped = child.materialize_metered(&mut unlimited, &cancel);
        assert_eq!(stopped.err(), Some(WorkStop::Cancelled));
        assert_eq!(visits(&unlimited), boundary);
    }
}

#[test]
fn metered_lookup_counts_only_nodes_actually_visited() {
    let mut state = PersistentDeltaMap::from_local(map(vec![(0_u8, 10_u8)]));
    for value in 1_u8..=3 {
        state = state.extend_local(map(vec![(value, value + 10)]));
    }
    for (key, expected, expected_visits) in [(3, Some(&13), 1_u64), (1, Some(&11), 3), (0, Some(&10), 4), (4, None, 4)] {
        let mut budget = ample();
        let result = state.get_metered(&key, &mut budget, &NeverCancelled);
        assert_eq!(result, Ok(expected));
        assert_eq!(visits(&budget), expected_visits);
    }
    let mut none = WorkBudget::new(0, 0);
    assert_eq!(state.get_metered(&0, &mut none, &NeverCancelled), Err(WorkStop::BudgetExhausted));
}

#[test]
fn metered_membership_reuses_lookup_without_hidden_scans() {
    let mut state = PersistentDeltaMap::from_local(map(vec![(0_u8, 10_u8)]));
    for value in 1_u8..=3 {
        state = state.extend_local(map(vec![(value, value + 10)]));
    }
    for (key, expected, expected_visits) in [(3, true, 1_u64), (0, true, 4), (4, false, 4)] {
        let mut budget = ample();
        assert_eq!(state.contains_key_metered(&key, &mut budget, &NeverCancelled), Ok(expected));
        assert_eq!(visits(&budget), expected_visits);
        assert_eq!(state.contains_key(&key), expected);
        for boundary in 0..expected_visits {
            let mut limited = WorkBudget::new(0, boundary);
            assert_eq!(
                state.contains_key_metered(&key, &mut limited, &NeverCancelled),
                Err(WorkStop::BudgetExhausted)
            );
            assert_eq!(visits(&limited), boundary);
            let mut unlimited = ample();
            let cancel = CancelAfter { remaining: Cell::new(boundary) };
            assert_eq!(state.contains_key_metered(&key, &mut unlimited, &cancel), Err(WorkStop::Cancelled));
            assert_eq!(visits(&unlimited), boundary);
        }
    }
}

#[test]
fn metered_extension_publishes_only_after_all_owned_work() {
    let root = PersistentDeltaMap::from_local(map(vec![(0_u8, 10_u8)]));
    let parent = root.extend_local(map(vec![(1, 11)]));
    let prepared = || map(vec![(0_u8, 10_u8), (1, 12), (2, 20)]);
    // Prepared item, two lookups; prepared item, one lookup, insert;
    // prepared item, two lookups, insert.
    let expected_work: u64 = 10;
    let mut budget = ample();
    let extended = parent.extend_prepared_metered(prepared(), &mut budget, &NeverCancelled);
    assert!(extended.is_ok());
    assert_eq!(visits(&budget), expected_work);
    let extended = extended.unwrap();
    assert_eq!(depth(&extended, 99), depth(&parent, 99) + 1);
    assert_eq!(extended.local_len(), 2);
    assert_eq!(extended.get(&0), Some(&10));
    assert_eq!(extended.get(&1), Some(&12));
    assert_eq!(extended.get(&2), Some(&20));

    for boundary in 0..expected_work {
        let mut limited = WorkBudget::new(0, boundary);
        let stopped = parent.extend_prepared_metered(prepared(), &mut limited, &NeverCancelled);
        assert_eq!(stopped.err(), Some(WorkStop::BudgetExhausted));
        assert_eq!(visits(&limited), boundary);
        assert_eq!(parent.get(&0), Some(&10));
        assert_eq!(parent.get(&1), Some(&11));
        assert_eq!(parent.get(&2), None);
    }
}

#[test]
fn deep_persistent_boundaries_are_exact_and_cancellable() {
    const DEPTH: u8 = 64;
    let mut state = PersistentDeltaMap::from_local(map(vec![(0_u8, 0_u8)]));
    for key in 1..DEPTH {
        state = state.extend_local(map(vec![(key, key)]));
    }
    for (key, expected, expected_work) in
        [(DEPTH - 1, Some(&(DEPTH - 1)), 1_u64), (0, Some(&0), u64::from(DEPTH)), (DEPTH, None, u64::from(DEPTH))]
    {
        for capacity in 0..=expected_work + 1 {
            let mut budget = WorkBudget::new(0, capacity);
            let result = state.get_metered(&key, &mut budget, &NeverCancelled);
            if capacity < expected_work {
                assert_eq!(result, Err(WorkStop::BudgetExhausted));
                assert_eq!(visits(&budget), capacity);
            } else {
                assert_eq!(result, Ok(expected));
                assert_eq!(visits(&budget), expected_work);
            }
            let mut unlimited = ample();
            let cancel = CancelAfter { remaining: Cell::new(capacity) };
            let result = state.get_metered(&key, &mut unlimited, &cancel);
            if capacity < expected_work {
                assert_eq!(result, Err(WorkStop::Cancelled));
            } else {
                assert_eq!(result, Ok(expected));
            }
        }
    }

    for (key, value, accepted) in [(0, 99, true), (0, 0, false), (DEPTH, DEPTH, true)] {
        let expected_stages = 1 + u64::from(DEPTH) + u64::from(accepted);
        for capacity in 0..=expected_stages + 1 {
            let mut budget = WorkBudget::new(0, capacity);
            let result = state.extend_prepared_metered(map(vec![(key, value)]), &mut budget, &NeverCancelled);
            if capacity < expected_stages {
                assert_eq!(result.err(), Some(WorkStop::BudgetExhausted));
                assert_eq!(visits(&budget), capacity);
            } else {
                assert!(result.is_ok());
                let extended = result.unwrap();
                assert_eq!(visits(&budget), expected_stages);
                assert_eq!(extended.get(&key), Some(&value));
                assert_eq!(depth(&extended, 200), depth(&state, 200) + u64::from(accepted));
                assert_eq!(extended.local_len(), 1);
            }
        }
    }
}

#[test]
fn finding_096_deep_persistent_lookup_is_internally_metered() {
    let mut state = PersistentDeltaMap::from_local(map(vec![(0_u16, 1_u8)]));
    for value in 1_u16..=64 {
        state = state.extend_local(map(vec![(value, 1)]));
    }
    let mut budget = ample();
    let result = state.get_metered(&0, &mut budget, &NeverCancelled);
    assert_eq!(result, Ok(Some(&1)));
    assert_eq!(visits(&budget), 65);
}

#[test]
fn clone_drop_permutations_release_each_delta_value_once() {
    let root_drops = Rc::new(Cell::new(0));
    let child_drops = Rc::new(Cell::new(0));
    let root = PersistentDeltaMap::from_local(map(vec![(
        0_u8,
        DropProbe { identity: 0, drops: Rc::clone(&root_drops) },
    )]));
    let child = root.extend_local(map(vec![(1, DropProbe { identity: 1, drops: Rc::clone(&child_drops) })]));
    let first = child.share();
    let second = child.share();

    drop(root);
    drop(second);
    assert_eq!((root_drops.get(), child_drops.get()), (0, 0));
    drop(child);
    assert_eq!((root_drops.get(), child_drops.get()), (0, 0));
    drop(first);
    assert_eq!((root_drops.get(), child_drops.get()), (1, 1));
}

#[test]
fn unchanged_extension_keeps_the_existing_layers() {
    let root = PersistentDeltaMap::from_local(map(vec![(0_u8, 10_u8), (1, 11)]));
    let same = root.extend_local(map(vec![(0, 10)]));
    assert_eq!(depth(&same, 99), depth(&root, 99));
    assert_eq!(same.get(&1), Some(&11));
    let empty = PersistentDeltaMap::<u8, u8>::from_local(OrdMap::new());
    assert_eq!(depth(&empty, 0), 0);
    assert_eq!(empty.local_len(), 0);
    assert_eq!(empty.get(&0), None);
}
