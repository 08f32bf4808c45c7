//! Compact-block relay engine for a proof-of-work blockchain node.
//!
//! The engine reacts to relay messages arriving from peers: it reconstructs
//! full blocks from compact representations by matching salted short
//! transaction ids against a mempool snapshot, coordinates the round trips
//! that fetch missing transactions and proposals, and decides which blocks
//! reach the acceptance path. All decisions are made here, over plain values;
//! the surrounding application owns the transport, the mempool, the verifier
//! and the chain controller, and performs the actions this library emits.

use vstd::prelude::*;

pub mod block;
pub mod laws;
pub mod reconstruct;
pub mod relayer;
pub mod short_id;
pub mod sid_map;
pub mod state;
pub mod types;

verus! {

/// Timer token under which the proposal-batching tick is registered.
pub const TX_PROPOSAL_TOKEN: u64 = 0;

} // verus!
