use provisioner::error::Error;
use provisioner::primitives::{AvailabilityBitfield, LeafInfo, H256};
use provisioner::relay_parent::{
    note_provisionable_data, PerRelayParent, ProvisionableData, ProvisionerState, RequestOutcome,
};

fn hash(n: u64) -> H256 {
    H256(0, 0, 0, n)
}

fn leaf(n: u64) -> LeafInfo {
    LeafInfo { hash: hash(n), parent_hash: hash(n - 1), number: n as u32 }
}

fn bitfield(validator_index: u32) -> AvailabilityBitfield {
    AvailabilityBitfield { validator_index, bits: vec![true], signature: vec![] }
}

#[test]
fn activation_arms_delay() {
    let mut state = ProvisionerState::new();
    assert_eq!(state.handle_active_leaves_update(Some(leaf(5)), &[]), Some(hash(5)));
    assert!(state.is_active(hash(5)));
    assert_eq!(state.handle_active_leaves_update(None, &[]), None);
}

#[test]
fn requests_wait_for_delay_and_share_one_job() {
    let mut state = ProvisionerState::new();
    state.handle_active_leaves_update(Some(leaf(5)), &[]);
    state.handle_provisionable_data(hash(5), ProvisionableData::Bitfield(0, bitfield(0)));
    assert!(matches!(state.handle_request_inherent_data(hash(5), 1), RequestOutcome::Queued));
    assert!(matches!(state.handle_request_inherent_data(hash(5), 2), RequestOutcome::Queued));
    state.handle_provisionable_data(hash(5), ProvisionableData::Bitfield(0, bitfield(1)));
    let job = state.handle_inherent_delay(hash(5)).expect("two requesters wait");
    assert_eq!(job.requesters, vec![1, 2]);
    assert_eq!(job.leaf, leaf(5));
    assert_eq!(job.bitfields.len(), 2);
    // Nobody is left waiting.
    assert!(state.handle_inherent_delay(hash(5)).is_none());
}

#[test]
fn request_after_delay_is_answered_at_once() {
    let mut state = ProvisionerState::new();
    state.handle_active_leaves_update(Some(leaf(7)), &[]);
    assert!(state.handle_inherent_delay(hash(7)).is_none());
    match state.handle_request_inherent_data(hash(7), 42) {
        RequestOutcome::Assemble(job) => {
            assert_eq!(job.requesters, vec![42]);
            assert_eq!(job.leaf.number, 7);
            assert!(job.bitfields.is_empty());
        },
        other => panic!("expected an assembly, got {:?}", other),
    }
    // A second request assembles again.
    assert!(matches!(state.handle_request_inherent_data(hash(7), 43), RequestOutcome::Assemble(_)));
}

#[test]
fn deactivated_leaf_is_forgotten() {
    let mut state = ProvisionerState::new();
    state.handle_active_leaves_update(Some(leaf(5)), &[]);
    assert!(matches!(state.handle_request_inherent_data(hash(5), 1), RequestOutcome::Queued));
    state.handle_active_leaves_update(Some(leaf(6)), &[hash(5)]);
    assert!(!state.is_active(hash(5)));
    assert!(state.is_active(hash(6)));
    assert!(state.handle_inherent_delay(hash(5)).is_none());
    assert!(matches!(
        state.handle_request_inherent_data(hash(5), 2),
        RequestOutcome::UnknownRelayParent
    ));
    state.handle_provisionable_data(hash(5), ProvisionableData::Bitfield(0, bitfield(0)));
    assert!(!state.is_active(hash(5)));
}

#[test]
fn unknown_relay_parent_request_is_dropped() {
    let mut state = ProvisionerState::new();
    assert!(matches!(
        state.handle_request_inherent_data(hash(9), 1),
        RequestOutcome::UnknownRelayParent
    ));
}

#[test]
fn reactivation_starts_afresh() {
    let mut state = ProvisionerState::new();
    state.handle_active_leaves_update(Some(leaf(5)), &[]);
    state.handle_provisionable_data(hash(5), ProvisionableData::Bitfield(0, bitfield(0)));
    state.handle_inherent_delay(hash(5));
    state.handle_active_leaves_update(Some(leaf(5)), &[]);
    assert!(matches!(state.handle_request_inherent_data(hash(5), 1), RequestOutcome::Queued));
    let job = state.handle_inherent_delay(hash(5)).unwrap();
    assert!(job.bitfields.is_empty());
}

#[test]
fn only_bitfields_are_kept() {
    let mut entry = PerRelayParent::new(leaf(3));
    note_provisionable_data(&mut entry, ProvisionableData::MisbehaviorReport);
    note_provisionable_data(&mut entry, ProvisionableData::Dispute);
    assert!(entry.signed_bitfields.is_empty());
    note_provisionable_data(&mut entry, ProvisionableData::Bitfield(2, bitfield(4)));
    assert_eq!(entry.signed_bitfields.len(), 1);
    assert_eq!(entry.signed_bitfields[0].validator_index, 4);
    assert!(!entry.is_inherent_ready);
    assert!(entry.awaiting_inherent.is_empty());
}

#[test]
fn error_classification() {
    assert!(Error::OverseerExited.is_fatal());
    assert!(Error::FailedToSpawnBackgroundTask.is_fatal());
    assert!(!Error::SendInherentDataTimeout.is_fatal());
    assert!(!Error::CanceledAvailabilityCores.is_fatal());
    assert!(Error::SendInherentDataTimeout.is_likely_stale_leaf());
    assert!(Error::CanceledBackedCandidates.is_likely_stale_leaf());
    assert!(!Error::CanceledBackableCandidates.is_likely_stale_leaf());
    assert!(!Error::InherentDataReturnChannel.is_likely_stale_leaf());
}
