//! The search-oriented shape of an AUR RPC result, where the vote
//! count is always present.

use vstd::prelude::*;

verus! {

/// One package as the AUR search reports it.
pub struct AurPackage {
    pub name: String,
    pub version: String,
    pub description: Option<String>,
    pub num_votes: i32,
}

} // verus!
