//! A Raft consensus library: the per-node protocol state machine, a replicated
//! key-value state machine fed by committed log entries, a deterministic
//! multi-node simulator, and the operations that commands ask of a persistent
//! store.

pub mod raft;
pub mod simulator;
pub mod state_machine;
pub mod storage;
