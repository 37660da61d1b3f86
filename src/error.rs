//! The provisioner's errors and how each is handled.

use vstd::prelude::*;

verus! {

/// What can go wrong in the provisioner.
#[derive(Clone, Copy, Debug, PartialEq, Eq, Structural)]
pub enum Error {
    /// The channel from the orchestration layer is gone.
    OverseerExited,
    /// A background task could not be spawned.
    FailedToSpawnBackgroundTask,
    /// The availability-core query was canceled.
    CanceledAvailabilityCores,
    /// A backable-candidate query was canceled.
    CanceledBackableCandidates,
    /// The backed-candidate query was canceled.
    CanceledBackedCandidates,
    /// A requester dropped its reply channel.
    InherentDataReturnChannel,
    /// Assembling and sending the inherent data took too long.
    SendInherentDataTimeout,
}

impl Error {
    /// Fatal errors stop the subsystem: without the inbound channel or the
    /// ability to spawn work it cannot make progress. Every other error only
    /// ends one attempt.
    pub fn is_fatal(&self) -> (r: bool)
        ensures
            r == (*self == Error::OverseerExited || *self == Error::FailedToSpawnBackgroundTask),
    {
        match self {
            Error::OverseerExited | Error::FailedToSpawnBackgroundTask => true,
            _ => false,
        }
    }

    /// Errors that most likely mean the leaf went stale while the data was
    /// assembled; they are reported at a lower severity than the others.
    pub fn is_likely_stale_leaf(&self) -> (r: bool)
        ensures
            r == (*self == Error::CanceledBackedCandidates || *self == Error::SendInherentDataTimeout),
    {
        match self {
            Error::CanceledBackedCandidates | Error::SendInherentDataTimeout => true,
            _ => false,
        }
    }
}

} // verus!
