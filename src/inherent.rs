//! Assembly of a relay parent's inherent data from the availability cores,
//! the collected bitfields and the answers of the candidate collaborators.
//!
//! The caller queries the collaborators between the two steps: the
//! candidate-chain tracker once per request of the plan, then the backing
//! component once for all of them.

use vstd::prelude::*;

use crate::bitfields::{
    bitfield_views, is_selection_of, lemma_selection_well_formed, select_availability_bitfields,
};
use crate::candidates::{
    backable_candidate_requests, core_decisions, flatten_candidates, keep_first_upgrade,
    merge_candidates, slot_count, ancestor_set, CandidateRequest,
};
use crate::primitives::{AvailabilityBitfield, BackedCandidate, CandidateHash, CoreState, LeafInfo, ParaId};

verus! {

/// The votes of one dispute, as handed over by the dispute collaborator.
#[derive(Clone, Debug)]
pub struct DisputeStatementSet {
    pub candidate_hash: CandidateHash,
    pub session: u32,
    pub statements: Vec<Vec<u8>>,
}

/// What goes into a relay-chain block: bitfields, backed candidates and
/// disputes.
#[derive(Clone, Debug)]
pub struct InherentData {
    pub bitfields: Vec<AvailabilityBitfield>,
    pub backed_candidates: Vec<BackedCandidate>,
    pub disputes: Vec<DisputeStatementSet>,
}

/// The first step for a relay parent: the selected bitfields and the
/// queries for the candidate-chain tracker that follow from them.
#[derive(Debug)]
pub struct InherentPlan {
    pub bitfields: Vec<AvailabilityBitfield>,
    pub requests: Vec<CandidateRequest>,
}

/// Selects the bitfields collected for `leaf` against its availability
/// cores, and plans the candidate requests from the selected ones.
pub fn plan_inherent_data(
    cores: &[CoreState],
    signed_bitfields: &[AvailabilityBitfield],
    leaf: &LeafInfo,
) -> (r: InherentPlan)
    ensures
        is_selection_of(bitfield_views(r.bitfields@), bitfield_views(signed_bitfields@), cores@),
        forall|i: int|
            0 <= i < r.requests@.len() ==> (#[trigger] r.requests@[i]).count == slot_count(
                core_decisions(cores@, bitfield_views(r.bitfields@), leaf.number),
                r.requests@[i].para_id,
            ) && r.requests@[i].count > 0,
        forall|i: int|
            0 <= i < r.requests@.len() ==> (#[trigger] r.requests@[i]).ancestors@.no_duplicates(),
        forall|i: int, h: CandidateHash|
            0 <= i < r.requests@.len() ==> ((#[trigger] r.requests@[i]).ancestors@.contains(h)
                <==> #[trigger] ancestor_set(
                core_decisions(cores@, bitfield_views(r.bitfields@), leaf.number),
                r.requests@[i].para_id,
            ).contains(h)),
        forall|p: ParaId|
            #[trigger] slot_count(core_decisions(cores@, bitfield_views(r.bitfields@), leaf.number), p)
                > 0 ==> exists|i: int| 0 <= i < r.requests@.len() && (#[trigger] r.requests@[i]).para_id == p,
        forall|i: int, j: int|
            0 <= i < r.requests@.len() && 0 <= j < r.requests@.len() && i != j
                ==> (#[trigger] r.requests@[i]).para_id != (#[trigger] r.requests@[j]).para_id,
{
    let bitfields = select_availability_bitfields(cores, signed_bitfields);
    proof {
        lemma_selection_well_formed(bitfield_views(bitfields@), bitfield_views(signed_bitfields@), cores@);
        assert forall|j: int| 0 <= j < bitfields@.len() implies (#[trigger] bitfields@[j]).bits@.len()
            == cores@.len() by {
            assert(bitfield_views(bitfields@)[j] == bitfields@[j]@);
        }
    }
    let requests = backable_candidate_requests(cores, bitfields.as_slice(), leaf.number);
    proof {
        let ds = core_decisions(cores@, bitfield_views(bitfields@), leaf.number);
        assert forall|p: ParaId| #[trigger] slot_count(ds, p) > 0 implies exists|i: int|
            0 <= i < requests@.len() && (#[trigger] requests@[i]).para_id == p by {
        }
    }
    InherentPlan { bitfields, requests }
}

/// The second step: the inherent data from the selected bitfields, the
/// backed candidates per parachain in request order, and the disputes. The
/// candidates are merged with at most one validation-code upgrade kept.
pub fn assemble_inherent_data(
    bitfields: Vec<AvailabilityBitfield>,
    backed: Vec<(ParaId, Vec<BackedCandidate>)>,
    disputes: Vec<DisputeStatementSet>,
) -> (r: InherentData)
    ensures
        r.bitfields@ == bitfields@,
        r.backed_candidates@ == keep_first_upgrade(flatten_candidates(backed@)),
        r.disputes@ == disputes@,
{
    let backed_candidates = merge_candidates(backed);
    InherentData { bitfields, backed_candidates, disputes }
}

} // verus!
