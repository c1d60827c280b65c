//! Bracha's reliable broadcast: the per-participant protocol state machine,
//! the relay decisions of the simulated network, and the proofs of the
//! protocol's safety and progress over a model of whole runs.
pub mod network;
pub mod node;
pub mod protocols;
