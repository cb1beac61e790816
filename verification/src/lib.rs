//! The decision core of a Raft node.
//!
//! An [`engine::Engine`] holds what a node has to know to take part in Raft: its vote, the
//! ids of its log entries, the cluster membership, the snapshot position and, while it is
//! candidate or leader, the progress of its peers. It performs no I/O. Every event changes
//! the state in memory and queues [`command::Command`]s, which a runtime executes to make
//! the change durable or to talk to other nodes.
//!
//! Each type has a mathematical view, and each operation states its effect on that view.

pub mod node;
pub mod node_set;
pub mod log_id;
pub mod log_id_list;
pub mod membership;
pub mod vote;
pub mod entry;
pub mod message;
pub mod raft_state;
pub mod request;
pub mod progress;
pub mod command;
pub mod leader;
pub mod config;
pub mod view;
pub mod handler;
pub mod validity;
pub mod engine;
pub mod leadership;
pub mod commit;
pub mod history;
pub mod runtime;
pub mod laws;
pub mod meaning;
pub mod elections;
pub mod receiving;
pub mod tracking;
pub mod sending;
pub mod purging;
pub mod proposing;
pub mod admission;
