use nostr_automerge::graph::epoch::{validate_epoch_ancestry, EpochAncestry, EpochAncestryObservation};
use nostr_automerge::ordered::OrdSet;
use nostr_automerge::types::ChangeHash;

fn hash(byte: u8) -> ChangeHash {
    ChangeHash::from_bytes([byte; 32])
}

fn set(bytes: &[u8]) -> OrdSet<ChangeHash> {
    let mut s = OrdSet::new();
    for byte in bytes {
        s.insert(hash(*byte));
    }
    s
}

#[test]
fn enforce_epoch_base_ancestry() {
    let base = set(&[1, 2]);
    assert_eq!(validate_epoch_ancestry(&base, &set(&[1, 2, 3]), &set(&[])), EpochAncestry::Valid);
    assert_eq!(validate_epoch_ancestry(&base, &set(&[1]), &set(&[])), EpochAncestry::InvalidOmission);
    assert_eq!(validate_epoch_ancestry(&base, &set(&[]), &set(&[])), EpochAncestry::InvalidOmission);
    assert_eq!(validate_epoch_ancestry(&base, &set(&[]), &set(&[9])), EpochAncestry::PendingMissing);
}

#[test]
fn compact_epoch_ancestry_outcomes_are_closed_and_unambiguous() {
    assert_eq!(std::mem::size_of::<EpochAncestry>(), 1);
    assert_eq!(
        EpochAncestry::from_observation(EpochAncestryObservation::Missing),
        EpochAncestry::PendingMissing
    );
    assert_eq!(
        EpochAncestry::from_observation(EpochAncestryObservation::Complete { omits_base_head: false }),
        EpochAncestry::Valid
    );
    assert_eq!(
        EpochAncestry::from_observation(EpochAncestryObservation::Complete { omits_base_head: true }),
        EpochAncestry::InvalidOmission
    );
}

#[test]
fn finding_100_epoch_ancestry_work_reproduction() {
    let all: Vec<u8> = (1..=64).collect();
    let base = set(&all);
    assert_eq!(validate_epoch_ancestry(&base, &base, &set(&[])), EpochAncestry::Valid);
    let fewer: Vec<u8> = (1..64).collect();
    let closure = set(&fewer);
    assert_eq!(validate_epoch_ancestry(&base, &closure, &set(&[])), EpochAncestry::InvalidOmission);
    assert_eq!(validate_epoch_ancestry(&base, &closure, &set(&[65])), EpochAncestry::PendingMissing);
}
