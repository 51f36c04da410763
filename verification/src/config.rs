//! Timeouts and tuning knobs of a Raft node.
use vstd::prelude::*;

use crate::message::NodeId;

verus! {

#[derive(Debug)]
pub struct Config {
    pub id: NodeId,
    pub peers: Vec<NodeId>,
    /// Ticks before a follower starts an election. Randomized in
    /// `[election_timeout, 2 * election_timeout)` to avoid split votes.
    pub election_timeout: u32,
    /// Ticks between leader heartbeats. Must be well below `election_timeout`.
    pub heartbeat_timeout: u32,
    /// Maximum entries sent in a single AppendEntries RPC.
    pub max_entries_per_append: usize,
}

pub const DEFAULT_ELECTION_TIMEOUT: u32 = 10;

pub const DEFAULT_HEARTBEAT_TIMEOUT: u32 = 3;

pub const DEFAULT_MAX_ENTRIES_PER_APPEND: usize = 100;

impl Clone for Config {
    fn clone(&self) -> (copy: Self)
        ensures
            copy.id == self.id,
            copy.peers@ == self.peers@,
            copy.election_timeout == self.election_timeout,
            copy.heartbeat_timeout == self.heartbeat_timeout,
            copy.max_entries_per_append == self.max_entries_per_append,
    {
        let peers = self.peers.clone();
        assert(peers@ =~= self.peers@);
        Config {
            id: self.id,
            peers,
            election_timeout: self.election_timeout,
            heartbeat_timeout: self.heartbeat_timeout,
            max_entries_per_append: self.max_entries_per_append,
        }
    }
}

impl Config {
    pub fn new(id: NodeId, peers: Vec<NodeId>) -> (config: Self)
        ensures
            config.id == id,
            config.peers == peers,
            config.election_timeout == DEFAULT_ELECTION_TIMEOUT,
            config.heartbeat_timeout == DEFAULT_HEARTBEAT_TIMEOUT,
            config.max_entries_per_append == DEFAULT_MAX_ENTRIES_PER_APPEND,
            config.election_timeout == 10,
            config.heartbeat_timeout == 3,
            config.max_entries_per_append == 100,
            config.usable(),
    {
        Config {
            id,
            peers,
            election_timeout: DEFAULT_ELECTION_TIMEOUT,
            heartbeat_timeout: DEFAULT_HEARTBEAT_TIMEOUT,
            max_entries_per_append: DEFAULT_MAX_ENTRIES_PER_APPEND,
        }
    }

    /// An election timeout that a node with this config may draw.
    pub open spec fn may_draw(self, timeout: u32) -> bool {
        self.election_timeout <= timeout < 2 * self.election_timeout
    }

    /// The range from which election timeouts are drawn is not empty and fits in a `u32`.
    pub open spec fn usable(self) -> bool {
        0 < self.election_timeout <= u32::MAX / 2
    }
}

/// Builds the Raft config, overriding the election and heartbeat timeouts only when a non-zero
/// value is given. `0` means "keep the built-in default".
pub fn build_raft_config(
    id: NodeId,
    peers: Vec<NodeId>,
    election_timeout: u32,
    heartbeat_timeout: u32,
) -> (config: Config)
    ensures
        config.id == id,
        config.peers == peers,
        config.election_timeout == (if election_timeout > 0 {
            election_timeout
        } else {
            DEFAULT_ELECTION_TIMEOUT
        }),
        config.heartbeat_timeout == (if heartbeat_timeout > 0 {
            heartbeat_timeout
        } else {
            DEFAULT_HEARTBEAT_TIMEOUT
        }),
        config.max_entries_per_append == DEFAULT_MAX_ENTRIES_PER_APPEND,
        election_timeout == 0 ==> config.election_timeout == 10,
        heartbeat_timeout == 0 ==> config.heartbeat_timeout == 3,
        config.max_entries_per_append == 100,
        config.usable() <==> election_timeout <= u32::MAX / 2,
{
    let mut config = Config::new(id, peers);
    if election_timeout > 0 {
        config.election_timeout = election_timeout;
    }
    if heartbeat_timeout > 0 {
        config.heartbeat_timeout = heartbeat_timeout;
    }
    config
}

/// A config can be used exactly if there is a timeout to draw and the largest one fits. What is
/// drawn is at least the configured timeout, and less than twice that.
pub proof fn law_usable_configs(config: Config, timeout: u32)
    ensures
        config.usable() <==> config.election_timeout > 0 && 2 * config.election_timeout <= u32::MAX,
        config.may_draw(timeout) <==> config.election_timeout <= timeout && timeout < 2
            * config.election_timeout,
        config.usable() ==> config.may_draw(config.election_timeout),
{
}

} // verus!
