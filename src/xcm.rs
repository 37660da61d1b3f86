//! Cross-consensus message context records.

use vstd::prelude::*;

verus! {

/// Identity of an XCM, such as a hash of its versioned encoding.
pub type XcmHash = [u8; 32];

/// Identifier of a query.
pub type QueryId = u64;

/// An amount of execution weight: time and proof size.
#[derive(Clone, Copy, PartialEq, Eq, Structural, Debug)]
pub struct Weight {
    pub ref_time: u64,
    pub proof_size: u64,
}

/// A location relative to the current consensus system: how many levels up,
/// then the interior junctions, each in its encoded form.
#[derive(Clone, Debug)]
pub struct Location {
    pub parents: u8,
    pub interior: Vec<Vec<u8>>,
}

/// Information regarding the composition of a query response.
#[derive(Clone, Debug)]
pub struct QueryResponseInfo {
    /// The destination to which the query response message should be sent.
    pub destination: Location,
    /// The `query_id` field of the `QueryResponse` message.
    pub query_id: QueryId,
    /// The `max_weight` field of the `QueryResponse` message.
    pub max_weight: Weight,
}

/// Contextual data pertaining to a specific list of XCM instructions.
#[derive(Clone, Debug)]
pub struct XcmContext {
    /// The current value of the Origin register.
    pub origin: Option<Location>,
    /// The identity of the XCM.
    pub message_id: XcmHash,
    /// The current value of the Topic register.
    pub topic: Option<[u8; 32]>,
}

impl XcmContext {
    /// Constructor which sets the message ID to the supplied parameter and
    /// leaves the origin and topic unset.
    pub fn with_message_id(message_id: XcmHash) -> (r: XcmContext)
        ensures
            r.origin is None,
            r.message_id == message_id,
            r.topic is None,
    {
        XcmContext { origin: None, message_id, topic: None }
    }
}

} // verus!
