//! Messages exchanged between peers.
use vstd::prelude::*;

use crate::crdt::sequence::Op;
use crate::PeerId;

verus! {

/// Envelope around every message sent between peers.
#[derive(Debug, Clone)]
pub enum Message {
    /// Handshake sent immediately after a TCP connection is established.
    Hello { peer_id: PeerId },
    /// A single CRDT operation. Repeated delivery is harmless: ops are idempotent.
    Op { from: PeerId, seq: u64, op: Op },
    /// Bulk catch-up: a reconnecting peer sends all ops it holds so the remote
    /// can apply any it missed while the connection was down.
    Sync { from: PeerId, ops: Vec<Op> },
}

} // verus!
