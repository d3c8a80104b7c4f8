//! A deterministic, tick-driven model of the core of Raft: timers, logs,
//! mailboxes, and the node state machine that elects a leader by quorum.
//!
//! Every node is driven by one call of `RaftBuddy::tick` per logical round.
//! Mailboxes live in a `Topology` that the driver owns; a node reaches them
//! through the topology it is handed for the duration of a call.

pub mod raft_buddy;
pub mod raft_channel;
pub mod raft_election;
pub mod raft_id;
pub mod raft_log;
pub mod raft_message;
pub mod raft_temporal;
pub mod raft_topology;

pub use raft_buddy::{RaftBuddy, Role};
pub use raft_channel::{Channel, RaftChannel};
pub use raft_id::RaftId;
pub use raft_log::{LogEntry, RaftLog};
pub use raft_message::{RaftMessage, RaftMessageBody};
pub use raft_temporal::{RaftTimer, Temporal};
pub use raft_topology::Topology;
