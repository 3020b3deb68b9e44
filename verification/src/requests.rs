//! The bodies of the requests the web service accepts.
use vstd::prelude::*;

verus! {

/// A request to draft a proposal from a prompt.
pub struct ProposeParams {
    pub prompt: String,
}

/// A request to approve a proposal.
pub struct ApproveParams {
    pub proposal_id: String,
}

} // verus!
