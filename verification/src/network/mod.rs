//! Peer-to-peer protocol: wire messages, the replica state machine that
//! every node runs on the messages it receives, and the redial schedule.
pub mod peer;
pub mod protocol;
pub mod redial;
