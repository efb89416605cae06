//! A peer-to-peer CRDT library: a grow-only counter, an observed-remove set
//! and a replicated growable array for collaborative text.
pub mod crdt;
pub mod network;
pub mod ui;

use vstd::prelude::*;

verus! {

/// Globally unique identifier of a peer/replica.
pub type PeerId = u64;

} // verus!
