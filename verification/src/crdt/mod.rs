//! CRDT implementations: each merge is commutative, associative and idempotent.
pub mod gcounter;
pub mod orset;
pub mod sequence;
pub mod convergence;
