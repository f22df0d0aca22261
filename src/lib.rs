//! A pool of compute nodes contributed by providers, and the placement of
//! application workloads on them.
//!
//! The state lives in [`pallet::Pallet`]: the node table with each node's
//! capacity, a rank of nodes by free capacity used for best-fit placement,
//! the deployment specifications, the workloads, and the owner indexes.
//! Every operation keeps the well-formedness invariant `Pallet::wf`, the
//! binding invariant (each online workload sits on an existing node that
//! lists it), the names invariant (one name per workload and owner) and the
//! owner invariant (each node is listed under its owner).
//!
//! - `provider`: node records and the capacity model.
//! - `sorted`, `rank`: sorted id sets and the rank index.
//! - `dapp`, `deployment`: workload records and deployment specifications.
//! - `pallet`: the pool, its invariants and lookups.
//! - `registry`: registration and node heartbeats.
//! - `scheduler`: best-fit allocation and placement.
//! - `lifecycle`, `workloads`: requesting, ending, changing and refreshing workloads.
//! - `liveness`, `sweep`: heartbeat timeouts and the periodic sweep.
//! - `redistribution`, `offline`: placing workloads of lost nodes again.
//! - `genesis`: seeding a pool.
//! - `laws`: properties that hold across operations.

use vstd::prelude::*;

pub mod provider;
pub mod sorted;
pub mod rank;
pub mod dapp;
pub mod deployment;
pub mod pallet;
pub mod registry;
pub mod scheduler;
pub mod lifecycle;
pub mod workloads;
pub mod liveness;
pub mod redistribution;
pub mod offline;
pub mod sweep;
pub mod laws;
pub mod genesis;

verus! {

} // verus!
