# rustcrdt

A peer-to-peer collaborative text editor built on three CRDTs. The
replicated data types, the replica each node runs (edits, delivery, retry of
ops whose anchor is missing, catch-up replay) and the stdin commands are
verified with Verus, as is the redial schedule; the transport around them
(sockets, resending held ops to a link that fell behind, the op log and the
WebSocket bridge) is ordinary Rust in `app/`.

## Layout

- `src/crdt/gcounter.rs`: grow-only counter. Its view is the map from peer to
  slot; `value` is the sum of the slots, `merge` the element-wise maximum. The
  merge laws (commutative, associative, idempotent, an upper bound) and the
  effect of `increment` on `value` are proof functions.
- `src/crdt/orset.rs`: observed-remove set over hash maps of tag sets. Its view
  is the pair (add tags, tombstoned tags) per element; membership is "some add
  tag is not tombstoned". Merge laws, add-wins, and "compaction keeps
  membership" are proof functions.
- `src/crdt/sequence.rs`: the replicated growable array. `apply` is specified
  exactly by `apply_spec` on the sequence of characters; `text` and
  `id_at_visible` by the visible characters.
- `src/crdt/convergence.rs`: the convergence proofs for the document:
  independent ops commute, any two ops that can both be applied commute,
  concurrent ops in any order converge, ops delivered after their
  dependencies in any order converge, front inserts read in descending id
  order, idempotence, entries and tombstones that are never lost.
- `src/network/protocol.rs`: the peer-to-peer message.
- `src/network/redial.rs`: the redial schedule: how long a node waits before
  dialing a peer again (doubling, reset after a link, capped).
- `src/network/peer.rs`: the replica a node runs: local edits become ops,
  received messages are delivered, ops whose anchor is missing wait and are
  retried. Replicas holding the same ops hold the same document, and replaying
  held ops rebuilds the document.
- `src/ui/cli.rs`: parsing and effect of the stdin commands.
- `tests/`: the scenarios and property tests.
- `app/`: the node binary: TCP links, the JSON-Lines op log, the WebSocket
  bridge, the stdin loop, and the serde copies of the wire types.
