use nostr_automerge::graph::change_candidate::{CandidateCarrier, CandidateError, ChangeCandidate};
use nostr_automerge::types::{ActorId, ChangeHash, DevicePublicKey, EventId};

fn carrier(event: u8) -> CandidateCarrier {
    carrier_with_dependencies(event, vec![ChangeHash::from_bytes([6; 32])])
}

fn carrier_with_dependencies(event: u8, dependencies: Vec<ChangeHash>) -> CandidateCarrier {
    CandidateCarrier {
        event_id: EventId::from_bytes([event; 32]),
        change_hash: ChangeHash::from_bytes([1; 32]),
        actor: ActorId::from_bytes([2; 32]),
        sequence: 3,
        start_op: 4,
        operation_count: 5,
        dependencies,
        control_id: EventId::from_bytes([7; 32]),
        author: DevicePublicKey::from_bytes([8; 32]),
    }
}

#[test]
fn create_validated_change_candidate_metadata() {
    let candidate = ChangeCandidate::from_carriers(vec![carrier(10), carrier(9)]);
    assert!(candidate.is_ok());
    let candidate = match candidate {
        Ok(candidate) => candidate,
        Err(_) => return,
    };
    assert_eq!(
        candidate.valid_carriers.as_slice(),
        &[EventId::from_bytes([9; 32]), EventId::from_bytes([10; 32])]
    );
    assert_eq!(candidate.change_hash, ChangeHash::from_bytes([1; 32]));
    assert_eq!(candidate.sequence, 3);
    assert_eq!(candidate.start_op, 4);
    assert_eq!(candidate.operation_count, 5);
    assert_eq!(candidate.dependencies, vec![ChangeHash::from_bytes([6; 32])]);
    let cloned = candidate.duplicate();
    assert_eq!(cloned, candidate);
    let mut mismatch = carrier(11);
    mismatch.sequence = 4;
    assert_eq!(
        ChangeCandidate::from_carriers(vec![carrier(10), mismatch]),
        Err(CandidateError::Mismatch)
    );
    assert_eq!(ChangeCandidate::from_carriers(vec![]), Err(CandidateError::Empty));
}

#[test]
fn candidate_clones_share_zero_one_and_max_dependency_payloads() {
    for count in [0_usize, 1, 256] {
        let dependencies = (0..count)
            .map(|index| {
                let mut bytes = [0_u8; 32];
                bytes[24..].copy_from_slice(&(index as u64).to_be_bytes());
                ChangeHash::from_bytes(bytes)
            })
            .collect::<Vec<_>>();
        let candidate = ChangeCandidate::from_carriers(vec![
            carrier_with_dependencies(10, dependencies.clone()),
            carrier_with_dependencies(11, dependencies.clone()),
        ]);
        assert!(candidate.is_ok(), "dependencies:{count}");
        let Some(candidate) = candidate.ok() else {
            continue;
        };
        let cloned = candidate.duplicate();
        assert_eq!(candidate.dependencies.len(), count);
        assert_eq!(cloned.dependencies, dependencies);
        assert_eq!(cloned.valid_carriers, candidate.valid_carriers);
    }
}

#[test]
fn unsorted_dependencies_are_rejected() {
    let deps = vec![ChangeHash::from_bytes([6; 32]), ChangeHash::from_bytes([5; 32])];
    assert_eq!(
        ChangeCandidate::from_carriers(vec![carrier_with_dependencies(10, deps)]),
        Err(CandidateError::Dependencies)
    );
    let repeated = vec![ChangeHash::from_bytes([6; 32]), ChangeHash::from_bytes([6; 32])];
    assert_eq!(
        ChangeCandidate::from_carriers(vec![carrier_with_dependencies(10, repeated)]),
        Err(CandidateError::Dependencies)
    );
}

#[test]
fn repeated_carrier_events_are_kept_once() {
    let candidate = ChangeCandidate::from_carriers(vec![carrier(10), carrier(10), carrier(9)]);
    assert!(candidate.is_ok());
    assert_eq!(
        candidate.unwrap().valid_carriers,
        vec![EventId::from_bytes([9; 32]), EventId::from_bytes([10; 32])]
    );
}
