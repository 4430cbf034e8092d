//! Workload allocation for a pool of networked peers.
//!
//! Peers join and leave with a measured capacity ("power"); divisible work
//! arrives and is assigned per peer; peers report partial completion, which is
//! accumulated in a durable per-peer ledger.  Two selection queries answer
//! "who should get the next unit of work": the idle peer with the greatest
//! power, and the busy peer with the highest load relative to its power.

use vstd::prelude::*;

mod database;
mod distribute_method;
mod kvlist;
mod peer;
mod pool;
mod power;
mod workload;

pub use database::AccessDatabase;
pub use database::MemoryStore;
pub use distribute_method::DistributeMethod;
pub use kvlist::{as_map, has_key, keys_unique, sum_counts};
pub use peer::Peer;
pub use pool::{
    assigned_of, busier_than, ledger_after_completion, lemma_ledger_accumulation,
    lemma_peer_leave_idempotent, power_counts, power_of, work_counts, MiningPool,
};
pub use power::HashPower;
pub use power::Power;
pub use workload::{remaining_units, unit_views, WorkSet, Workload};

verus! {

/// Capability set of a whole pool deployment: the peers it watches, the
/// values it allocates, and the store it records completions in.
pub trait Pool: Sized {
    type Peers: Peer;
    type Workloads: Workload;
    type Powers: Power;
    type Database: AccessDatabase;
    type MiningPool;

    /// Record a peer's hash power.
    fn record_peer_info(peer: &Self::Peers, database: &Self::Database);

    /// Receive new work and sign it among peers according to the chosen
    /// distribution method.
    fn add_new_work(&mut self, work: Self::Workloads, mining_pool: &mut Self::MiningPool);

    /// Receive a valid block from a peer and reset the peer's status.
    fn finish_job(
        peer_id: <Self::Peers as Peer>::Id,
        height: u32,
        mining_pool: &mut Self::MiningPool,
    );
}

} // verus!
