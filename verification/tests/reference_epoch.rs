use nostr_automerge::graph::change_candidate::ChangeCandidate;
use nostr_automerge::ordered::{OrdMap, OrdSet};
use nostr_automerge::reference::epoch::{resolve_epoch, EpochCandidate};
use nostr_automerge::types::{ActorId, ChangeHash, DevicePublicKey, EventId, ProtocolDisposition};
use nostr_automerge::work_budget::{NeverCancelled, WorkBudget, WorkStop};

fn candidate(actor: u8, sequence: u64, start: u64, count: u64) -> ChangeCandidate {
    ChangeCandidate {
        change_hash: ChangeHash::from_bytes([u8::try_from(sequence).unwrap_or_default(); 32]),
        actor: ActorId::from_bytes([actor; 32]),
        sequence,
        start_op: start,
        operation_count: count,
        dependencies: Vec::new(),
        control_id: EventId::from_bytes([9; 32]),
        author: DevicePublicKey::from_bytes([actor; 32]),
        valid_carriers: vec![EventId::from_bytes([actor; 32])],
    }
}

fn h(byte: u8) -> ChangeHash {
    ChangeHash::from_bytes([byte; 32])
}

fn input(candidate: ChangeCandidate, semantically_valid: bool, canonical_control: bool) -> EpochCandidate {
    EpochCandidate { candidate, semantically_valid, canonical_control }
}

fn disposition(result: &OrdMap<ChangeHash, ProtocolDisposition>, hash: ChangeHash) -> Option<ProtocolDisposition> {
    result.get(&hash).copied()
}

#[test]
fn resolve_accepted_and_pending_changes() {
    let mut dependency = candidate(1, 1, 1, 1);
    dependency.change_hash = h(1);
    let mut dependant = candidate(2, 1, 1, 1);
    dependant.change_hash = h(2);
    dependant.dependencies = vec![dependency.change_hash];
    let mut missing = candidate(3, 1, 1, 1);
    missing.change_hash = h(3);
    missing.dependencies = vec![h(9)];
    let mut invalid = candidate(4, 1, 1, 1);
    invalid.change_hash = h(4);
    let mut excluded = candidate(5, 1, 1, 1);
    excluded.change_hash = h(5);
    let result = resolve_epoch(
        vec![
            input(dependant.clone(), true, true),
            input(missing.clone(), true, true),
            input(dependency.clone(), true, true),
            input(invalid.clone(), false, true),
            input(excluded.clone(), true, false),
        ],
        &OrdSet::new(),
        &mut WorkBudget::new(0, 100),
        &NeverCancelled,
    );
    assert!(result.is_ok());
    let result = match result {
        Ok(result) => result,
        Err(_) => return,
    };
    assert_eq!(disposition(&result, dependency.change_hash), Some(ProtocolDisposition::Accepted));
    assert_eq!(disposition(&result, dependant.change_hash), Some(ProtocolDisposition::Accepted));
    assert_eq!(disposition(&result, missing.change_hash), Some(ProtocolDisposition::Pending));
    assert_eq!(disposition(&result, invalid.change_hash), Some(ProtocolDisposition::Invalid));
    assert_eq!(disposition(&result, excluded.change_hash), Some(ProtocolDisposition::Excluded));
    assert_eq!(result.len(), 5);
}

#[test]
fn disposition_fixpoint_invalidates_transitive_dependants() {
    let mut invalid = candidate(1, 1, 1, 1);
    invalid.change_hash = h(1);
    let mut child = candidate(2, 1, 1, 1);
    child.change_hash = h(2);
    child.dependencies = vec![invalid.change_hash];
    let mut grandchild = candidate(3, 1, 1, 1);
    grandchild.change_hash = h(3);
    grandchild.dependencies = vec![child.change_hash];
    let inputs = vec![
        input(grandchild.clone(), true, true),
        input(child.clone(), true, true),
        input(invalid.clone(), false, true),
    ];
    let result = resolve_epoch(inputs, &OrdSet::new(), &mut WorkBudget::new(0, 100), &NeverCancelled);
    assert!(result.is_ok_and(|dispositions| {
        [invalid.change_hash, child.change_hash, grandchild.change_hash]
            .iter()
            .all(|hash| dispositions.get(hash) == Some(&ProtocolDisposition::Invalid))
    }));
}

#[test]
fn excluded_dependency_invalidates_and_base_dependency_accepts() {
    let mut excluded = candidate(1, 1, 1, 1);
    excluded.change_hash = h(1);
    let mut child = candidate(2, 1, 1, 1);
    child.change_hash = h(2);
    child.dependencies = vec![excluded.change_hash];
    let mut on_base = candidate(3, 1, 1, 1);
    on_base.change_hash = h(3);
    on_base.dependencies = vec![h(50)];
    let mut base = OrdSet::new();
    base.insert(h(50));
    let result = resolve_epoch(
        vec![input(child.clone(), true, true), input(excluded.clone(), true, false), input(on_base.clone(), true, true)],
        &base,
        &mut WorkBudget::new(0, 1_000),
        &NeverCancelled,
    );
    assert!(result.is_ok());
    let result = result.unwrap();
    assert_eq!(disposition(&result, excluded.change_hash), Some(ProtocolDisposition::Excluded));
    assert_eq!(disposition(&result, child.change_hash), Some(ProtocolDisposition::Invalid));
    assert_eq!(disposition(&result, on_base.change_hash), Some(ProtocolDisposition::Accepted));
    assert_eq!(
        resolve_epoch(vec![input(child, true, true)], &base, &mut WorkBudget::new(0, 0), &NeverCancelled).err(),
        Some(WorkStop::BudgetExhausted)
    );
}
