//! Block provisioning for a relay chain: selection of availability
//! bitfields, planning of backable-candidate requests, merging of backed
//! candidates, and the per-relay-parent readiness state machine.

pub mod bitfields;
pub mod candidates;
pub mod error;
pub mod inherent;
pub mod primitives;
pub mod relay_parent;
pub mod storage_value;
pub mod xcm;
