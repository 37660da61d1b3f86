use provisioner::candidates::{
    backable_candidate_requests, decide_core, merge_candidates, nonempty_backable_candidates,
};
use provisioner::inherent::{assemble_inherent_data, plan_inherent_data, DisputeStatementSet};
use provisioner::primitives::{
    AvailabilityBitfield, BackedCandidate, CoreState, LeafInfo, OccupiedCore, ScheduledCore, H256,
};

fn hash(n: u64) -> H256 {
    H256(0, 0, 0, n)
}

fn occupied(
    para_id: u32,
    n_validators: usize,
    time_out_at: u32,
    next_up_on_available: Option<u32>,
    next_up_on_time_out: Option<u32>,
) -> CoreState {
    CoreState::Occupied(OccupiedCore {
        para_id,
        candidate_hash: hash(1000 + para_id as u64),
        availability: vec![false; n_validators],
        time_out_at,
        next_up_on_available: next_up_on_available.map(|para_id| ScheduledCore { para_id }),
        next_up_on_time_out: next_up_on_time_out.map(|para_id| ScheduledCore { para_id }),
    })
}

fn all_ones(validator_index: u32, n_cores: usize) -> AvailabilityBitfield {
    AvailabilityBitfield { validator_index, bits: vec![true; n_cores], signature: vec![] }
}

fn candidate(para_id: u32, n: u64, upgrade: bool) -> BackedCandidate {
    BackedCandidate {
        para_id,
        candidate_hash: hash(n),
        relay_parent: hash(1),
        new_validation_code: if upgrade { Some(vec![0xc0, 0xde]) } else { None },
        validity_votes: vec![vec![1]],
    }
}

#[test]
fn five_occupied_cores_all_available() {
    let current_block = 20;
    let cores: Vec<CoreState> =
        (1..=5).map(|p| occupied(p, 5, current_block + 10, None, None)).collect();
    let bitfields: Vec<_> = (0..4).map(|v| all_ones(v, 5)).collect();
    // Every candidate is available (4 * 3 >= 5 * 2): each stays in its
    // parachain's chain context, and as nothing is scheduled next no
    // parachain gets a slot.
    for (k, core) in cores.iter().enumerate() {
        let d = decide_core(core, k, &bitfields, current_block);
        let para = k as u32 + 1;
        assert_eq!(d.ancestor, Some((para, hash(1000 + para as u64))));
        assert_eq!(d.new_slot, None);
    }
    let requests = backable_candidate_requests(&cores, &bitfields, current_block);
    assert!(requests.is_empty());

    let leaf = LeafInfo { hash: hash(1), parent_hash: hash(0), number: current_block };
    let plan = plan_inherent_data(&cores, &bitfields, &leaf);
    assert_eq!(plan.bitfields.len(), 4);
    assert!(plan.requests.is_empty());
}

#[test]
fn five_occupied_cores_next_on_available() {
    let current_block = 20;
    let cores: Vec<CoreState> =
        (1..=5).map(|p| occupied(p, 5, current_block + 10, Some(p), None)).collect();
    let bitfields: Vec<_> = (0..4).map(|v| all_ones(v, 5)).collect();
    let requests = backable_candidate_requests(&cores, &bitfields, current_block);
    assert_eq!(requests.len(), 5);
    for r in &requests {
        assert_eq!(r.count, 1);
        assert_eq!(r.ancestors, vec![hash(1000 + r.para_id as u64)]);
    }
    let mut paras: Vec<u32> = requests.iter().map(|r| r.para_id).collect();
    paras.sort();
    assert_eq!(paras, vec![1, 2, 3, 4, 5]);
}

#[test]
fn timed_out_core_schedules_next() {
    let current_block = 20;
    let cores = vec![occupied(1, 5, current_block + 1, Some(8), Some(9))];
    let requests = backable_candidate_requests(&cores, &[], current_block);
    assert_eq!(requests.len(), 1);
    assert_eq!(requests[0].para_id, 9);
    assert_eq!(requests[0].count, 1);
    assert!(requests[0].ancestors.is_empty());
}

#[test]
fn timed_out_core_reschedules_own_para() {
    let current_block = 30;
    let cores = vec![occupied(6, 3, current_block + 1, None, Some(6))];
    let d = decide_core(&cores[0], 0, &[], current_block);
    assert_eq!(d.ancestor, None);
    assert_eq!(d.new_slot, Some(6));
    let requests = backable_candidate_requests(&cores, &[], current_block);
    assert_eq!(requests.len(), 1);
    assert_eq!(requests[0].para_id, 6);
    assert_eq!(requests[0].count, 1);
    assert!(requests[0].ancestors.is_empty());
}

#[test]
fn timed_out_core_without_next_gives_nothing() {
    let cores = vec![occupied(1, 5, 21, None, None), occupied(2, 5, 22, None, Some(1))];
    let requests = backable_candidate_requests(&cores, &[], 20);
    // Core 0 timed out; core 1 is still pending and keeps its candidate.
    assert!(requests.is_empty());
}

#[test]
fn pending_core_is_ancestor_of_scheduled_para() {
    let cores = vec![
        occupied(3, 4, 50, None, None),
        CoreState::Scheduled(ScheduledCore { para_id: 3 }),
        CoreState::Scheduled(ScheduledCore { para_id: 3 }),
        CoreState::Free,
        CoreState::Scheduled(ScheduledCore { para_id: 4 }),
    ];
    let requests = backable_candidate_requests(&cores, &[], 20);
    assert_eq!(requests.len(), 2);
    assert_eq!(requests[0].para_id, 3);
    assert_eq!(requests[0].count, 2);
    assert_eq!(requests[0].ancestors, vec![hash(1003)]);
    assert_eq!(requests[1].para_id, 4);
    assert_eq!(requests[1].count, 1);
    assert!(requests[1].ancestors.is_empty());
}

#[test]
fn empty_tracker_answers_are_dropped() {
    let responses = vec![
        (1, vec![(hash(1), hash(100))]),
        (2, vec![]),
        (3, vec![(hash(3), hash(100)), (hash(4), hash(100))]),
    ];
    let kept = nonempty_backable_candidates(responses);
    let paras: Vec<u32> = kept.iter().map(|x| x.0).collect();
    assert_eq!(paras, vec![1, 3]);
    assert_eq!(kept[1].1.len(), 2);
}

#[test]
fn merge_keeps_first_code_upgrade_only() {
    let per_para = vec![
        (1, vec![candidate(1, 10, false), candidate(1, 11, true)]),
        (2, vec![candidate(2, 20, true), candidate(2, 21, false)]),
        (3, vec![candidate(3, 30, true)]),
    ];
    let merged = merge_candidates(per_para);
    let hashes: Vec<u64> = merged.iter().map(|c| c.candidate_hash.3).collect();
    // Three upgrades: the two after the first are dropped.
    assert_eq!(hashes, vec![10, 11, 21]);
    assert_eq!(merged.iter().filter(|c| c.has_code_upgrade()).count(), 1);
}

#[test]
fn merge_without_upgrades_keeps_order() {
    let per_para = vec![
        (5, vec![candidate(5, 50, false), candidate(5, 51, false)]),
        (2, vec![candidate(2, 20, false)]),
    ];
    let merged = merge_candidates(per_para);
    let hashes: Vec<u64> = merged.iter().map(|c| c.candidate_hash.3).collect();
    assert_eq!(hashes, vec![50, 51, 20]);
}

#[test]
fn merge_of_nothing_is_empty() {
    assert!(merge_candidates(vec![]).is_empty());
}

#[test]
fn assemble_keeps_bitfields_and_disputes() {
    let bitfields = vec![all_ones(0, 2)];
    let backed = vec![(1, vec![candidate(1, 10, true), candidate(1, 11, true)])];
    let disputes = vec![DisputeStatementSet { candidate_hash: hash(9), session: 3, statements: vec![] }];
    let data = assemble_inherent_data(bitfields, backed, disputes);
    assert_eq!(data.bitfields.len(), 1);
    assert_eq!(data.backed_candidates.len(), 1);
    assert_eq!(data.backed_candidates[0].candidate_hash, hash(10));
    assert_eq!(data.disputes.len(), 1);
    assert_eq!(data.disputes[0].session, 3);
}
