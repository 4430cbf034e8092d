//! A participant in the pool.

use vstd::prelude::*;

verus! {

/// Capability set of a peer: it can describe itself to the pool.
pub trait Peer: Sized {
    /// Unique identity of the peer; equality defines peer identity for every
    /// map the pool keeps.
    type Id;

    /// What the pool records about the peer.
    type PeerInfo;

    /// Read the physical information of this machine.
    fn gather_info() -> Self;
}

} // verus!
