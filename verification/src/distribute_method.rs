//! How incoming work is split among peers.

use vstd::prelude::*;

verus! {

/// The policy by which the pool's collaborator splits work.
#[derive(Clone, Debug)]
pub enum DistributeMethod {
    /// A peer's share of the workload matches its share of the total hash
    /// power.
    Default,
    /// Peers are first set into groups (by hash power or other things), and
    /// each group is allocated the same workload.  A named extension point:
    /// no algorithm is defined for it here.
    Trunk,
}

impl Default for DistributeMethod {
    /// The proportional policy.
    fn default() -> (m: Self)
        ensures
            m matches DistributeMethod::Default,
    {
        DistributeMethod::Default
    }
}

} // verus!
