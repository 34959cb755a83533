use nostr_automerge::integrity::{ControllerEquivocationAlert, DeviceEquivocationAlert};
use nostr_automerge::limits::ProtocolLimits;
use nostr_automerge::profile::kinds::{
    classify, CarrierKind, CHANGE, CHECKPOINT_CHUNK, CHECKPOINT_DESCRIPTOR, CONTROL, MANIFEST,
};
use nostr_automerge::profile::ProtocolRevision;
use nostr_automerge::types::{ActorId, ChangeHash, EventId};
use nostr_automerge::IMPLEMENTATION_VERSION;

#[test]
fn package_uses_approved_alpha_version() {
    assert_eq!(IMPLEMENTATION_VERSION, "0.1.0-alpha.0");
}

#[test]
fn constants_match_checked_in_registry() {
    let limits = ProtocolLimits::draft_v1();
    assert_eq!(limits.raw_event.get(), 262_144);
    assert_eq!(limits.checkpoint_bytes.get(), 67_108_864);
    assert_eq!(limits.checkpoint_dependency_edges.get(), 20_000_000);
    assert_eq!(limits.manifest_content.get(), 16_384);
    assert_eq!(limits.control_content.get(), 32_768);
    assert_eq!(limits.control_members.get(), 256);
    assert_eq!(limits.control_heads.get(), 64);
    assert_eq!(limits.change_bytes.get(), 32_768);
    assert_eq!(limits.change_operations.get(), 16_384);
    assert_eq!(limits.checkpoint_chunks.get(), 4_096);
    assert_eq!(limits.checkpoint_chunk_bytes.get(), 32_768);
    assert_eq!(limits.checkpoint_heads.get(), 256);
    assert_eq!(limits.checkpoint_changes.get(), 1_000_000);
    assert_eq!(limits.checkpoint_operations.get(), 10_000_000);
}

#[test]
fn typed_limits_convert_checked() {
    let limits = ProtocolLimits::draft_v1();
    assert_eq!(limits.change_dependencies.try_usize(), Ok(256));
    assert_eq!(limits.raw_event.try_usize(), Ok(262_144));
}

#[test]
fn only_exact_draft_revision_is_available() {
    let revision = ProtocolRevision::lookup("draft_2026_08");
    assert_eq!(revision.map(ProtocolRevision::identifier), Some("draft_2026_08"));
    assert_eq!(ProtocolRevision::lookup("draft_2026_09"), None);
    assert_eq!(ProtocolRevision::lookup(""), None);
    assert_eq!(ProtocolRevision::draft_v1().format(), "automerge-change-v1");
    assert_eq!(ProtocolRevision::draft_v1().text_encoding(), "utf16");
    assert!(ProtocolRevision::draft_v1().classify_kind(1624).is_some());
    assert!(ProtocolRevision::draft_v1().classify_kind(1).is_none());
}

#[test]
fn exact_provisional_kinds_are_classified() {
    assert_eq!(classify(CHANGE), Some(CarrierKind::Change));
    assert_eq!(classify(CONTROL), Some(CarrierKind::Control));
    assert_eq!(classify(CHECKPOINT_DESCRIPTOR), Some(CarrierKind::CheckpointDescriptor));
    assert_eq!(classify(CHECKPOINT_CHUNK), Some(CarrierKind::CheckpointChunk));
    assert_eq!(classify(MANIFEST), Some(CarrierKind::Manifest));
    assert_eq!(classify(1), None);
    assert_eq!(classify(1623), None);
    assert_eq!(classify(31625), None);
}

#[test]
fn alerts_reject_noncanonical_sets_and_zero_sequence() {
    let id = EventId::from_bytes([1; 32]);
    assert!(ControllerEquivocationAlert::new(None, vec![id, id], id).is_err());
    assert!(DeviceEquivocationAlert::new(
        ActorId::from_bytes([2; 32]),
        0,
        vec![ChangeHash::from_bytes([1; 32]), ChangeHash::from_bytes([2; 32])],
        vec![]
    )
    .is_err());
}

#[test]
fn alerts_accept_canonical_sets() {
    let low = EventId::from_bytes([1; 32]);
    let high = EventId::from_bytes([2; 32]);
    let alert = ControllerEquivocationAlert::new(None, vec![low, high], low);
    assert!(alert.is_ok());
    let alert = alert.unwrap();
    assert_eq!(alert.selected_control(), low);
    assert_eq!(alert.selected_control(), alert.candidate_controls()[0]);
    assert!(ControllerEquivocationAlert::new(None, vec![low, high], high).is_err());
    assert_eq!(alert.candidate_controls(), &[low, high]);
    assert!(ControllerEquivocationAlert::new(None, vec![high, low], high).is_err());
    assert!(ControllerEquivocationAlert::new(None, vec![low], low).is_err());
    assert!(
        ControllerEquivocationAlert::new(None, vec![low, high], EventId::from_bytes([3; 32]))
            .is_err()
    );
    let device = DeviceEquivocationAlert::new(
        ActorId::from_bytes([2; 32]),
        7,
        vec![ChangeHash::from_bytes([1; 32]), ChangeHash::from_bytes([2; 32])],
        vec![],
    );
    assert!(device.is_ok());
    assert_eq!(device.unwrap().first_sequence(), 7);
}
