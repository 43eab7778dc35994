//! Replies of the component service endpoints that report on a simulation
//! run.

use vstd::prelude::*;

verus! {

/// The reply to a request that alters a simulation: whether the alteration
/// was applied.
#[derive(Clone, Copy, Debug)]
pub struct AlterSimulationResponse {
    success: bool,
}

impl AlterSimulationResponse {
    /// Whether the alteration was applied.
    pub closed spec fn spec_success(&self) -> bool {
        self.success
    }

    /// Builds a reply that records whether the alteration was applied.
    pub fn new(success: bool) -> (r: AlterSimulationResponse)
        ensures
            r.spec_success() == success,
    {
        AlterSimulationResponse { success }
    }

    /// Whether the alteration was applied.
    pub fn success(&self) -> (r: bool)
        ensures
            r == self.spec_success(),
    {
        self.success
    }
}

} // verus!
