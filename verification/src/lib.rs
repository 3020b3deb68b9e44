use vstd::prelude::*;

pub mod text;
pub mod smap;
pub mod registry;
pub mod paths;
pub mod order;
pub mod error;
pub mod doc;
pub mod brain;
pub mod mcp;
pub mod skills;
pub mod skill_order;
pub mod steward;
pub mod prompt;
pub mod proposal;
pub mod chat;
pub mod openclaw;
pub mod openclaw_mcp;
pub mod digest;
pub mod requests;

verus! {

} // verus!
