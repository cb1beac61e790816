//! The parts of the engine's work. A handler borrows the fields of the engine that it needs.

pub mod following_handler;
pub mod log_handler;
pub mod replication_handler;
pub mod server_state_handler;
pub mod snapshot_handler;
pub mod vote_handler;
