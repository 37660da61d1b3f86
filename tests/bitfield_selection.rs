use provisioner::bitfields::{bitfields_indicate_availability, count_ones, select_availability_bitfields};
use provisioner::primitives::{AvailabilityBitfield, CoreState, OccupiedCore, ScheduledCore, H256};

fn occupied(para_id: u32, n_validators: usize) -> CoreState {
    CoreState::Occupied(OccupiedCore {
        para_id,
        candidate_hash: H256(0, 0, 0, para_id as u64),
        availability: vec![false; n_validators],
        time_out_at: 100,
        next_up_on_available: None,
        next_up_on_time_out: None,
    })
}

fn bitfield(validator_index: u32, bits: &[bool]) -> AvailabilityBitfield {
    AvailabilityBitfield { validator_index, bits: bits.to_vec(), signature: vec![validator_index as u8] }
}

#[test]
fn count_ones_counts_set_bits() {
    assert_eq!(count_ones(&vec![]), 0);
    assert_eq!(count_ones(&vec![true, false, true, true]), 3);
}

#[test]
fn duplicate_validator_keeps_more_bits() {
    let cores = vec![occupied(1, 3), occupied(2, 3), occupied(3, 3)];
    let bitfields = vec![
        bitfield(0, &[true, false, false]),
        bitfield(0, &[true, true, false]),
        bitfield(1, &[false, false, true]),
    ];
    let selected = select_availability_bitfields(&cores, &bitfields);
    assert_eq!(selected.len(), 2);
    let v0: Vec<_> = selected.iter().filter(|b| b.validator_index == 0).collect();
    assert_eq!(v0.len(), 1);
    assert_eq!(v0[0].bits, vec![true, true, false]);
}

#[test]
fn duplicate_validator_more_bits_first() {
    let cores = vec![occupied(1, 3), occupied(2, 3)];
    let bitfields = vec![bitfield(4, &[true, true]), bitfield(4, &[false, true])];
    let selected = select_availability_bitfields(&cores, &bitfields);
    assert_eq!(selected.len(), 1);
    assert_eq!(selected[0].bits, vec![true, true]);
}

#[test]
fn duplicate_validator_tie_keeps_first() {
    let cores = vec![occupied(1, 3), occupied(2, 3)];
    let bitfields = vec![bitfield(2, &[true, false]), bitfield(2, &[false, true])];
    let selected = select_availability_bitfields(&cores, &bitfields);
    assert_eq!(selected.len(), 1);
    assert_eq!(selected[0].bits, vec![true, false]);
    assert_eq!(selected[0].signature, vec![2]);
}

#[test]
fn wrong_length_is_dropped() {
    let cores = vec![occupied(1, 3), occupied(2, 3)];
    let bitfields = vec![
        bitfield(0, &[true]),
        bitfield(1, &[true, true, false]),
        bitfield(2, &[false, true]),
    ];
    let selected = select_availability_bitfields(&cores, &bitfields);
    assert_eq!(selected.len(), 1);
    assert_eq!(selected[0].validator_index, 2);
}

#[test]
fn longer_but_malformed_does_not_replace() {
    let cores = vec![occupied(1, 3), occupied(2, 3)];
    let bitfields = vec![bitfield(0, &[true, false]), bitfield(0, &[true, true, true])];
    let selected = select_availability_bitfields(&cores, &bitfields);
    assert_eq!(selected.len(), 1);
    assert_eq!(selected[0].bits, vec![true, false]);
}

#[test]
fn bit_on_unoccupied_core_drops_whole_bitfield() {
    let cores = vec![
        occupied(1, 3),
        CoreState::Free,
        CoreState::Scheduled(ScheduledCore { para_id: 7 }),
    ];
    let bitfields = vec![
        bitfield(0, &[true, true, false]),
        bitfield(1, &[true, false, true]),
        bitfield(2, &[true, false, false]),
        bitfield(3, &[false, false, false]),
    ];
    let selected = select_availability_bitfields(&cores, &bitfields);
    let mut validators: Vec<u32> = selected.iter().map(|b| b.validator_index).collect();
    validators.sort();
    assert_eq!(validators, vec![2, 3]);
}

#[test]
fn better_bitfield_with_bad_bit_does_not_replace() {
    let cores = vec![occupied(1, 3), CoreState::Free];
    let bitfields = vec![bitfield(0, &[false, false]), bitfield(0, &[true, true])];
    let selected = select_availability_bitfields(&cores, &bitfields);
    assert_eq!(selected.len(), 1);
    assert_eq!(selected[0].bits, vec![false, false]);
}

#[test]
fn no_bitfields_selects_nothing() {
    let cores = vec![occupied(1, 3)];
    assert!(select_availability_bitfields(&cores, &[]).is_empty());
}

#[test]
fn threshold_three_validators() {
    let availability = vec![false; 3];
    let two = vec![bitfield(0, &[true]), bitfield(2, &[true])];
    assert!(bitfields_indicate_availability(0, &two, &availability));
    let one = vec![bitfield(1, &[true])];
    assert!(!bitfields_indicate_availability(0, &one, &availability));
}

#[test]
fn threshold_five_validators() {
    // ceil(2 * 5 / 3) = 4
    let availability = vec![false; 5];
    let four: Vec<_> = (0..4).map(|v| bitfield(v, &[false, true])).collect();
    assert!(bitfields_indicate_availability(1, &four, &availability));
    let three: Vec<_> = (0..3).map(|v| bitfield(v, &[false, true])).collect();
    assert!(!bitfields_indicate_availability(1, &three, &availability));
    assert!(!bitfields_indicate_availability(0, &four, &availability));
}

#[test]
fn onchain_bits_count_once() {
    let availability = vec![true, true, false];
    assert!(bitfields_indicate_availability(0, &[], &availability));
    let same = vec![bitfield(0, &[true]), bitfield(1, &[true])];
    let only_one = vec![true, false, false];
    assert!(!bitfields_indicate_availability(0, &same[..1], &only_one));
    assert!(bitfields_indicate_availability(0, &same, &only_one));
}

#[test]
fn validator_out_of_range_is_not_available() {
    let availability = vec![true, true, true];
    let bitfields = vec![bitfield(0, &[true]), bitfield(3, &[true])];
    assert!(!bitfields_indicate_availability(0, &bitfields, &availability));
}

#[test]
fn no_validators_is_available() {
    assert!(bitfields_indicate_availability(0, &[], &vec![]));
}
