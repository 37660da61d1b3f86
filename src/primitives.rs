//! Plain data types shared by the provisioning logic.

use vstd::prelude::*;

verus! {

/// A 256-bit block or candidate hash, as four 64-bit words, most
/// significant first.
#[derive(Clone, Copy, PartialEq, Eq, Structural, Debug, Hash)]
pub struct H256(pub u64, pub u64, pub u64, pub u64);

/// Hash of a parachain candidate.
pub type CandidateHash = H256;

/// Identity of a parachain.
pub type ParaId = u32;

/// Index of a validator in the active set.
pub type ValidatorIndex = u32;

/// Relay-chain block number.
pub type BlockNumber = u32;

/// An activated relay-chain leaf.
#[derive(Clone, Copy, PartialEq, Eq, Structural, Debug)]
pub struct LeafInfo {
    pub hash: H256,
    pub parent_hash: H256,
    pub number: BlockNumber,
}

/// A validator's signed statement of which cores it holds data for: one bit
/// per availability core, scoped to one relay parent.
#[derive(Clone, Debug)]
pub struct AvailabilityBitfield {
    pub validator_index: ValidatorIndex,
    pub bits: Vec<bool>,
    pub signature: Vec<u8>,
}

/// What the contracts see of a bitfield.
pub struct BitfieldView {
    pub validator_index: ValidatorIndex,
    pub bits: Seq<bool>,
    pub signature: Seq<u8>,
}

impl View for AvailabilityBitfield {
    type V = BitfieldView;

    open spec fn view(&self) -> BitfieldView {
        BitfieldView { validator_index: self.validator_index, bits: self.bits@, signature: self.signature@ }
    }
}

/// Copies a byte or bit vector element by element.
pub(crate) fn copy_vec<T: Copy>(v: &Vec<T>) -> (r: Vec<T>)
    ensures
        r@ == v@,
{
    let mut r: Vec<T> = Vec::with_capacity(v.len());
    let mut i: usize = 0;
    while i < v.len()
        invariant
            i <= v.len(),
            r@ == v@.subrange(0, i as int),
        decreases v.len() - i,
    {
        r.push(v[i]);
        i += 1;
    }
    r
}

impl AvailabilityBitfield {
    /// A copy of this bitfield with the same validator, bits and signature.
    pub fn duplicate(&self) -> (r: Self)
        ensures
            r@ == self@,
    {
        AvailabilityBitfield {
            validator_index: self.validator_index,
            bits: copy_vec(&self.bits),
            signature: copy_vec(&self.signature),
        }
    }
}

/// A core on which a parachain is scheduled and nothing is pending.
#[derive(Clone, Copy, PartialEq, Eq, Structural, Debug)]
pub struct ScheduledCore {
    pub para_id: ParaId,
}

/// A core that holds a candidate awaiting availability.
#[derive(Clone, Debug)]
pub struct OccupiedCore {
    pub para_id: ParaId,
    pub candidate_hash: CandidateHash,
    /// One bit per validator: who already attested availability on chain.
    pub availability: Vec<bool>,
    /// The block number at which the candidate times out.
    pub time_out_at: BlockNumber,
    /// The core's next parachain if the candidate becomes available.
    pub next_up_on_available: Option<ScheduledCore>,
    /// The core's next parachain if the candidate times out.
    pub next_up_on_time_out: Option<ScheduledCore>,
}

/// The state of one availability core at a relay parent.
#[derive(Clone, Debug)]
pub enum CoreState {
    Free,
    Scheduled(ScheduledCore),
    Occupied(OccupiedCore),
}

impl CoreState {
    /// Whether the core holds a candidate.
    pub fn is_occupied(&self) -> (r: bool)
        ensures
            r == (self is Occupied),
    {
        match self {
            CoreState::Occupied(_) => true,
            _ => false,
        }
    }
}

/// A parachain candidate with its backing votes.
#[derive(Clone, Debug)]
pub struct BackedCandidate {
    pub para_id: ParaId,
    pub candidate_hash: CandidateHash,
    pub relay_parent: H256,
    /// A new validation code, when the candidate upgrades its parachain's code.
    pub new_validation_code: Option<Vec<u8>>,
    pub validity_votes: Vec<Vec<u8>>,
}

impl BackedCandidate {
    pub open spec fn spec_has_code_upgrade(&self) -> bool {
        self.new_validation_code is Some
    }

    /// Whether the candidate carries a validation-code upgrade.
    pub fn has_code_upgrade(&self) -> (r: bool)
        ensures
            r == self.spec_has_code_upgrade(),
    {
        self.new_validation_code.is_some()
    }
}

} // verus!
