use std::cell::Cell;

use nostr_automerge::graph::change_candidate::ChangeCandidate;
use nostr_automerge::ordered::{OrdMap, OrdSet};
use nostr_automerge::reference::batch::{
    applied_heads_agree, charge_application_work, collect_control_candidates_metered, derive_heads,
    enqueue_children, prepare_initial_maps_metered, prior_change_knowledge, BatchChange, BatchChangeMemo,
    BatchControl,
};
use nostr_automerge::reference::epoch_engine::PriorChangeKnowledge;
use nostr_automerge::types::{ActorId, ChangeHash, DevicePublicKey, EventId, ProtocolDisposition};
use nostr_automerge::work_budget::{CancellationCheck, NeverCancelled, WorkBudget, WorkCounter, WorkStop};

struct CancelAfter {
    remaining: Cell<u64>,
}

impl CancellationCheck for CancelAfter {
    fn is_cancelled(&self) -> bool {
        let left = self.remaining.get();
        if left == 0 {
            return true;
        }
        self.remaining.set(left - 1);
        false
    }
}

fn candidate(actor: u8, sequence: u64, start: u64, count: u64) -> ChangeCandidate {
    ChangeCandidate {
        change_hash: ChangeHash::from_bytes([u8::try_from(sequence).unwrap_or_default(); 32]),
        actor: ActorId::from_bytes([actor; 32]),
        sequence,
        start_op: start,
        operation_count: count,
        dependencies: Vec::new(),
        control_id: EventId::from_bytes([9; 32]),
        author: DevicePublicKey::from_bytes([actor; 32]),
        valid_carriers: vec![EventId::from_bytes([actor; 32])],
    }
}

fn control(id: u8, parent: Option<u8>, changes: Vec<BatchChange>) -> BatchControl {
    BatchControl {
        event_id: EventId::from_bytes([id; 32]),
        parent: parent.map(|byte| EventId::from_bytes([byte; 32])),
        accepted_base: OrdSet::new(),
        frozen: false,
        changes,
    }
}

fn change(hash: u8, actor: u8, sequence: u64) -> BatchChange {
    let mut value = candidate(actor, sequence, sequence, 1);
    value.change_hash = ChangeHash::from_bytes([hash; 32]);
    BatchChange { candidate: value, legacy_eligible: true, raw_change: None }
}

fn set_of<K: nostr_automerge::types::OrderedKey>(items: Vec<K>) -> OrdSet<K> {
    let mut set = OrdSet::new();
    for item in items {
        set.insert(item);
    }
    set
}

fn stopping_after(capacity: u64, cancel: bool) -> (WorkBudget, CancelAfter) {
    if cancel {
        (WorkBudget::new(0, 10_000), CancelAfter { remaining: Cell::new(capacity) })
    } else {
        (WorkBudget::new(0, capacity), CancelAfter { remaining: Cell::new(u64::MAX) })
    }
}

#[test]
fn initial_evaluator_maps_charge_before_every_item() {
    let controls = || vec![control(1, None, vec![change(11, 1, 1)]), control(2, Some(1), vec![change(12, 2, 1)])];
    let expected = [
        WorkCounter::Control,
        WorkCounter::Control,
        WorkCounter::Control,
        WorkCounter::Control,
        WorkCounter::Control,
        WorkCounter::Control,
        WorkCounter::Control,
        WorkCounter::GraphNode,
        WorkCounter::Control,
        WorkCounter::GraphNode,
    ];
    let count = |prefix: &[WorkCounter], counter: WorkCounter| prefix.iter().filter(|c| **c == counter).count() as u64;

    for cancel in [false, true] {
        for capacity in 0..=expected.len() as u64 + 1 {
            let (mut budget, cancellation) = stopping_after(capacity, cancel);
            let result = prepare_initial_maps_metered(controls(), &mut budget, &cancellation);
            let used = &expected[..(capacity as usize).min(expected.len())];
            assert_eq!(budget.consumed().get(WorkCounter::Control), count(used, WorkCounter::Control));
            assert_eq!(budget.consumed().get(WorkCounter::GraphNode), count(used, WorkCounter::GraphNode));
            if capacity < expected.len() as u64 {
                let stop = if cancel { WorkStop::Cancelled } else { WorkStop::BudgetExhausted };
                assert_eq!(result.err(), Some(stop));
            } else {
                let maps = result.ok().expect("maps complete");
                assert_eq!(maps.controls.len(), 2);
                assert_eq!(maps.children_by_parent.len(), 2);
                assert_eq!(maps.control_dispositions.len(), 2);
                assert_eq!(maps.change_dispositions.len(), 2);
            }
        }
    }
}

#[test]
fn initial_maps_index_children_and_keep_the_last_duplicate_control() {
    let mut replaced = control(1, None, vec![change(11, 1, 1)]);
    replaced.frozen = true;
    let collected = vec![
        replaced,
        control(2, Some(1), vec![change(12, 2, 1), change(13, 3, 1)]),
        control(3, Some(1), Vec::new()),
        control(1, None, vec![change(14, 1, 1)]),
    ];
    let maps = prepare_initial_maps_metered(collected, &mut WorkBudget::new(0, 100), &NeverCancelled)
        .ok()
        .expect("maps complete");
    assert_eq!(maps.controls.len(), 3);
    let first = maps.controls.get(&EventId::from_bytes([1; 32])).expect("control present");
    assert!(!first.frozen);
    assert_eq!(first.changes[0].candidate.change_hash, ChangeHash::from_bytes([14; 32]));
    let roots = maps.children_by_parent.get(&None).expect("roots present");
    assert_eq!(roots.to_vec(), vec![EventId::from_bytes([1; 32])]);
    let children = maps.children_by_parent.get(&Some(EventId::from_bytes([1; 32]))).expect("children present");
    assert_eq!(children.to_vec(), vec![EventId::from_bytes([2; 32]), EventId::from_bytes([3; 32])]);
    assert_eq!(maps.change_dispositions.len(), 3);
    assert!(maps.change_dispositions.get(&ChangeHash::from_bytes([11; 32])).is_none());
    assert_eq!(
        maps.change_dispositions.get(&ChangeHash::from_bytes([13; 32])),
        Some(&ProtocolDisposition::Excluded)
    );
}

#[test]
fn prior_knowledge_is_charged_per_item_before_access() {
    let selected_control = EventId::from_bytes([7; 32]);
    let other_control = EventId::from_bytes([8; 32]);
    let accepted = ChangeHash::from_bytes([1; 32]);
    let same_epoch = ChangeHash::from_bytes([2; 32]);
    let other = ChangeHash::from_bytes([3; 32]);
    let invalid = ChangeHash::from_bytes([4; 32]);
    let excluded = ChangeHash::from_bytes([5; 32]);
    let mut memo = BatchChangeMemo::new();
    memo.hashes_by_control.insert(selected_control, set_of(vec![same_epoch]));
    memo.controls_by_hash.insert(other, set_of(vec![other_control]));
    let mut dispositions = OrdMap::new();
    dispositions.insert(invalid, ProtocolDisposition::Invalid);
    dispositions.insert(excluded, ProtocolDisposition::Excluded);
    let selected_base = set_of(vec![accepted]);

    let mut exact = WorkBudget::new(0, 6);
    let knowledge =
        prior_change_knowledge(None, &selected_base, &dispositions, selected_control, &memo, &mut exact, &NeverCancelled)
            .ok()
            .expect("knowledge completes");
    assert_eq!(exact.consumed().get(WorkCounter::GraphNode), 5);
    assert_eq!(exact.consumed().get(WorkCounter::Control), 1);
    assert_eq!(knowledge.get(&accepted), Some(&PriorChangeKnowledge::AcceptedInBase));
    assert_eq!(knowledge.get(&same_epoch), Some(&PriorChangeKnowledge::SameEpochCandidate));
    assert_eq!(knowledge.get(&other), Some(&PriorChangeKnowledge::KnownOtherControl));
    assert_eq!(knowledge.get(&invalid), Some(&PriorChangeKnowledge::KnownInvalid));
    assert_eq!(knowledge.get(&excluded), Some(&PriorChangeKnowledge::PriorEquivocationExcluded));

    let mut insufficient = WorkBudget::new(0, 5);
    assert_eq!(
        prior_change_knowledge(None, &selected_base, &dispositions, selected_control, &memo, &mut insufficient, &NeverCancelled)
            .err(),
        Some(WorkStop::BudgetExhausted)
    );
    assert_eq!(insufficient.consumed().get(WorkCounter::GraphNode), 4);
    assert_eq!(insufficient.consumed().get(WorkCounter::Control), 1);

    let mut cancelled = WorkBudget::new(0, 6);
    let always = CancelAfter { remaining: Cell::new(0) };
    assert_eq!(
        prior_change_knowledge(None, &selected_base, &dispositions, selected_control, &memo, &mut cancelled, &always).err(),
        Some(WorkStop::Cancelled)
    );
    assert_eq!(cancelled.consumed().get(WorkCounter::GraphNode), 0);
    assert_eq!(cancelled.consumed().get(WorkCounter::Control), 0);
}

#[test]
fn pruned_ancestors_override_and_earlier_layers_win_otherwise() {
    let selected = EventId::from_bytes([7; 32]);
    let base = set_of(vec![ChangeHash::from_bytes([1; 32])]);
    let parent = set_of(vec![ChangeHash::from_bytes([1; 32]), ChangeHash::from_bytes([2; 32])]);
    let mut memo = BatchChangeMemo::new();
    memo.hashes_by_control.insert(selected, set_of(vec![ChangeHash::from_bytes([2; 32])]));
    memo.controls_by_hash.insert(ChangeHash::from_bytes([2; 32]), set_of(vec![EventId::from_bytes([9; 32])]));
    memo.controls_by_hash.insert(ChangeHash::from_bytes([6; 32]), set_of(vec![selected]));
    let mut dispositions = OrdMap::new();
    dispositions.insert(ChangeHash::from_bytes([1; 32]), ProtocolDisposition::Invalid);
    dispositions.insert(ChangeHash::from_bytes([2; 32]), ProtocolDisposition::Invalid);
    let knowledge = prior_change_knowledge(
        Some(&parent),
        &base,
        &dispositions,
        selected,
        &memo,
        &mut WorkBudget::new(0, 100),
        &NeverCancelled,
    )
    .ok()
    .expect("knowledge completes");
    assert_eq!(knowledge.len(), 2);
    assert_eq!(knowledge.get(&ChangeHash::from_bytes([1; 32])), Some(&PriorChangeKnowledge::AcceptedInBase));
    assert_eq!(
        knowledge.get(&ChangeHash::from_bytes([2; 32])),
        Some(&PriorChangeKnowledge::PrunedCanonicalAncestor)
    );
}

#[test]
fn memo_keeps_the_first_candidate_and_groups_both_ways() {
    let mut first = change(5, 1, 1);
    first.raw_change = None;
    let mut again = change(5, 2, 2);
    again.raw_change = Some(vec![1, 2, 3]);
    let mut controls = OrdMap::new();
    controls.insert(EventId::from_bytes([1; 32]), control(1, None, vec![first]));
    controls.insert(EventId::from_bytes([2; 32]), control(2, Some(1), vec![again, change(6, 3, 1)]));
    let mut budget = WorkBudget::new(0, 100);
    let memo = BatchChangeMemo::derive(&controls, &mut budget, &NeverCancelled).ok().expect("memo completes");
    assert_eq!(budget.consumed().get(WorkCounter::GraphNode), 3);
    let hash = ChangeHash::from_bytes([5; 32]);
    assert_eq!(memo.candidates.get(&hash).map(|c| c.sequence), Some(1));
    assert_eq!(memo.raw_changes.get(&hash), Some(&vec![1, 2, 3]));
    assert_eq!(
        memo.controls_by_hash.get(&hash).map(|ids| ids.to_vec()),
        Some(vec![EventId::from_bytes([1; 32]), EventId::from_bytes([2; 32])])
    );
    assert_eq!(
        memo.hashes_by_control.get(&EventId::from_bytes([2; 32])).map(|hashes| hashes.to_vec()),
        Some(vec![hash, ChangeHash::from_bytes([6; 32])])
    );
}

#[test]
fn applied_head_agreement_is_required() {
    let accepted = set_of(vec![ChangeHash::from_bytes([1; 32])]);
    let mut controls = OrdMap::new();
    controls.insert(EventId::from_bytes([2; 32]), control(2, None, vec![change(1, 1, 1)]));
    let derived = derive_heads(&accepted, &controls);
    assert!(applied_heads_agree(&derived, &accepted));
    assert!(!applied_heads_agree(&derived, &set_of(vec![ChangeHash::from_bytes([9; 32])])));
}

#[test]
fn heads_drop_what_accepted_changes_depend_on() {
    let mut dependant = change(2, 1, 2);
    dependant.candidate.dependencies = vec![ChangeHash::from_bytes([1; 32]), ChangeHash::from_bytes([7; 32])];
    let mut outsider = change(3, 2, 1);
    outsider.candidate.dependencies = vec![ChangeHash::from_bytes([2; 32])];
    let mut controls = OrdMap::new();
    controls.insert(EventId::from_bytes([4; 32]), control(4, None, vec![change(1, 1, 1), dependant, outsider]));
    let accepted = set_of(vec![ChangeHash::from_bytes([1; 32]), ChangeHash::from_bytes([2; 32])]);
    let heads = derive_heads(&accepted, &controls);
    assert_eq!(heads.to_vec(), vec![ChangeHash::from_bytes([2; 32])]);
}

#[test]
fn application_is_charged_once_per_change_and_once_more() {
    let ordered = vec![ChangeHash::from_bytes([1; 32]), ChangeHash::from_bytes([2; 32])];
    let mut budget = WorkBudget::new(0, 3);
    assert_eq!(charge_application_work(&ordered, &mut budget, &NeverCancelled), Ok(()));
    assert_eq!(budget.consumed().get(WorkCounter::ApplyChange), 3);
    let mut short = WorkBudget::new(0, 2);
    assert_eq!(charge_application_work(&ordered, &mut short, &NeverCancelled), Err(WorkStop::BudgetExhausted));
    assert_eq!(short.consumed().get(WorkCounter::ApplyChange), 2);
}

#[test]
fn children_of_a_parent_are_enqueued_with_one_charge_each() {
    let maps = prepare_initial_maps_metered(
        vec![control(1, None, Vec::new()), control(2, Some(1), Vec::new()), control(3, Some(1), Vec::new())],
        &mut WorkBudget::new(0, 100),
        &NeverCancelled,
    )
    .ok()
    .expect("maps complete");
    let mut ready = set_of(vec![EventId::from_bytes([9; 32])]);
    let mut budget = WorkBudget::new(0, 10);
    let parent = EventId::from_bytes([1; 32]);
    assert_eq!(enqueue_children(parent, &maps.children_by_parent, &mut ready, &mut budget, &NeverCancelled), Ok(()));
    assert_eq!(
        ready.to_vec(),
        vec![EventId::from_bytes([2; 32]), EventId::from_bytes([3; 32]), EventId::from_bytes([9; 32])]
    );
    assert_eq!(budget.consumed().get(WorkCounter::Control), 2);
    let mut leaf_budget = WorkBudget::new(0, 10);
    let leaf = EventId::from_bytes([3; 32]);
    assert_eq!(enqueue_children(leaf, &maps.children_by_parent, &mut ready, &mut leaf_budget, &NeverCancelled), Ok(()));
    assert_eq!(ready.len(), 3);
    assert_eq!(leaf_budget.consumed().get(WorkCounter::Control), 0);
    let mut short = WorkBudget::new(0, 1);
    let mut fresh = OrdSet::new();
    assert_eq!(
        enqueue_children(parent, &maps.children_by_parent, &mut fresh, &mut short, &NeverCancelled),
        Err(WorkStop::BudgetExhausted)
    );
    assert_eq!(fresh.to_vec(), vec![EventId::from_bytes([2; 32])]);
}

#[test]
fn control_candidates_skip_the_base_and_keep_the_last_duplicate() {
    let mut later = change(5, 2, 2);
    later.candidate.sequence = 7;
    let subject = control(1, None, vec![change(4, 1, 1), change(5, 1, 1), later]);
    let base = set_of(vec![ChangeHash::from_bytes([4; 32])]);
    let mut budget = WorkBudget::new(0, 10);
    let candidates = collect_control_candidates_metered(&subject, &base, &mut budget, &NeverCancelled)
        .ok()
        .expect("collection completes");
    assert_eq!(budget.consumed().get(WorkCounter::GraphNode), 3);
    assert_eq!(candidates.len(), 1);
    assert_eq!(candidates.get(&ChangeHash::from_bytes([5; 32])).map(|c| c.sequence), Some(7));
    let mut short = WorkBudget::new(0, 2);
    assert_eq!(
        collect_control_candidates_metered(&subject, &base, &mut short, &NeverCancelled).err(),
        Some(WorkStop::BudgetExhausted)
    );
}

#[test]
fn batch_memo_sharing_starts_only_after_exact_graph_charges() {
    let controls = || {
        let mut value = change(7, 7, 1);
        value.candidate.dependencies = (0_u8..64).map(|byte| ChangeHash::from_bytes([byte; 32])).collect();
        let mut map = OrdMap::new();
        map.insert(EventId::from_bytes([1; 32]), control(1, None, vec![value]));
        map
    };
    let mut insufficient = WorkBudget::new(0, 64);
    assert_eq!(
        BatchChangeMemo::derive(&controls(), &mut insufficient, &NeverCancelled).err(),
        Some(WorkStop::BudgetExhausted)
    );
    for limit in [65_u64, 66] {
        let mut budget = WorkBudget::new(0, limit);
        let memo = BatchChangeMemo::derive(&controls(), &mut budget, &NeverCancelled).ok().expect("memo completes");
        assert_eq!(memo.candidates.len(), 1);
        assert_eq!(budget.consumed().get(WorkCounter::GraphNode), 1);
        assert_eq!(budget.consumed().get(WorkCounter::GraphEdge), 64);
    }
    let mut cancelled = WorkBudget::new(0, 65);
    let always = CancelAfter { remaining: Cell::new(0) };
    assert_eq!(BatchChangeMemo::derive(&controls(), &mut cancelled, &always).err(), Some(WorkStop::Cancelled));
    assert_eq!(cancelled.consumed().get(WorkCounter::GraphNode), 0);
}

#[test]
fn batch_memo_clones_only_shared_candidate_payload_handles() {
    let mut value = change(7, 7, 1);
    value.candidate.dependencies = (0_u8..64).map(|byte| ChangeHash::from_bytes([byte; 32])).collect();
    value.candidate.valid_carriers = (64_u8..=96).map(|byte| EventId::from_bytes([byte; 32])).collect();
    let dependency_payload = value.candidate.dependencies.clone();
    let carrier_payload = value.candidate.valid_carriers.clone();
    let hash = value.candidate.change_hash;
    let mut controls = OrdMap::new();
    controls.insert(EventId::from_bytes([1; 32]), control(1, None, vec![value]));
    let mut budget = WorkBudget::new(0, 1_000);
    let memo = BatchChangeMemo::derive(&controls, &mut budget, &NeverCancelled).ok().expect("memo completes");
    let retained = memo.candidates.get(&hash).expect("candidate retained");
    assert_eq!(retained.dependencies, dependency_payload);
    assert_eq!(retained.valid_carriers, carrier_payload);
}
