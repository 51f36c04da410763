//! A Raft-replicated key-value store.
#![allow(unused_imports)]

pub mod cli;
pub mod client;
pub mod cluster;
pub mod conf_change;
pub mod config;
pub mod embedded;
pub mod events;
pub mod handle;
pub mod http;
pub mod json;
pub mod kv;
pub mod log;
pub mod message;
pub mod node;
pub mod replay;
pub mod snapshot;
pub mod text;
pub mod wal;
pub mod wire;

pub use config::Config;
pub use log::RaftLog;
pub use message::{
    AppendEntries, AppendEntriesResponse, ConfChangeCmd, ConfChangeOp, EntryType, HardState,
    InstallSnapshot, InstallSnapshotResponse, LogEntry, LogIndex, Message, NodeId, RequestVote,
    RequestVoteResponse, Snapshot, Term,
};
