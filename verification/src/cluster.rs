//! A cluster: nodes that exchange messages over a network that may lose, delay, duplicate and
//! reorder them.
//!
//! The laws in [`laws`], [`reads`], [`writes`] and [`stops`] hold of every run of a cluster whose
//! membership changes concern a single node: it may be added and removed any number of times, and
//! a change that got lost may be asked for again. They speak of the transitions that the contracts
//! of the node are stated with.
use vstd::prelude::*;

use crate::conf_change::{conf_change_bytes, conf_change_decoded};
use crate::config::Config;
use crate::log::LogView;
use crate::message::{InstallSnapshotView, LogIndex, MessageView, NodeId, SnapshotView, Term};
use crate::node::{enumerates, NodeView, ReadyView, RoleView};

mod ballots;
mod delivery;
mod following;
mod growth;
mod history;
mod parts;
mod replication;
mod snapshots;
mod voting;
mod writing;

pub mod laws;
pub mod reads;
pub mod stops;
pub mod writes;

verus! {

/// The nodes by their ids, and every message that was ever sent, with its destination. Nothing is
/// taken out when a message is delivered: it may be delivered again, later, or never.
pub ghost struct Cluster {
    pub nodes: Map<NodeId, NodeView>,
    pub sent: Set<(NodeId, MessageView)>,
    /// The voters that the cluster starts with.
    pub voters: Set<NodeId>,
    /// The one node that membership changes may concern.
    pub changing: Option<NodeId>,
}

/// What the nodes of a cluster start from: nothing, or a snapshot that all of them have, in a term
/// that all of them are in.
pub ghost struct Start {
    pub base: LogIndex,
    pub base_term: Term,
    pub term: Term,
}

impl Start {
    pub open spec fn sound(self) -> bool {
        &&& self.base < u64::MAX
        &&& self.base_term <= self.term
        &&& self.base > 0 <==> self.base_term > 0
    }
}

impl NodeView {
    /// A node that has seen nothing since the start, in a cluster with these members. It may have
    /// voted in the term that it starts in.
    pub open spec fn starts_in(
        self,
        id: NodeId,
        members: Set<NodeId>,
        is_voter: bool,
        start: Start,
    ) -> bool {
        exists|config: Config, timeout: u32|
            #![trigger NodeView::fresh(config, is_voter, timeout)]
            {
                &&& self == (NodeView {
                    term: start.term,
                    voted_for: self.voted_for,
                    log: LogView {
                        base: start.base,
                        base_term: start.base_term,
                        entries: Seq::empty(),
                    },
                    commit: start.base,
                    applied: start.base,
                    ..NodeView::fresh(config, is_voter, timeout)
                })
                &&& config.id == id
                &&& config.peers@.to_set().insert(id) == members
                &&& config.max_entries_per_append > 0
            }
    }

    /// The node as its host leaves it after a step: its output is handed over, and a snapshot that
    /// was installed has replaced the log.
    pub open spec fn settled(self, timeout: u32) -> NodeView {
        match self.ready.snapshot_to_apply {
            Some(snapshot) => self.drained().rebased(snapshot, timeout),
            None => self.drained(),
        }
    }

    /// Taking the message would drop entries that agree with the leader: the log already holds the
    /// last entry that the snapshot covers, and more behind it.
    pub open spec fn forgets(self, message: MessageView) -> bool {
        match message {
            MessageView::InstallSnapshot { msg, .. } => {
                &&& msg.term >= self.term
                &&& self.commit < msg.snapshot.last_index < self.log.last_index()
                &&& self.log.term_at(msg.snapshot.last_index as int) == Some(
                    msg.snapshot.last_term,
                )
            },
            _ => false,
        }
    }

    /// The node as it is loaded after a crash: what was durable is what it was, and it knows of
    /// no members but those it was first started with.
    pub open spec fn loads_as(
        self,
        members: Set<NodeId>,
        is_voter: bool,
        loaded: NodeView,
    ) -> bool {
        loaded == NodeView {
            role: RoleView::Follower { leader_id: None },
            members,
            is_voter,
            pending_conf_change: false,
            applied: self.log.base,
            election_ticks: loaded.election_ticks,
            election_timeout: loaded.election_timeout,
            heartbeat_ticks: loaded.heartbeat_ticks,
            ready: ReadyView::empty(),
            ..self
        }
    }

    /// The node after a crash: it has applied again what it knows to be committed.
    pub open spec fn restarts_as(
        self,
        members: Set<NodeId>,
        is_voter: bool,
        after: NodeView,
    ) -> bool {
        exists|loaded: NodeView, timeout: u32|
            self.loads_as(members, is_voter, loaded) && after == (
            #[trigger] loaded.apply_committed(timeout)).drained()
    }
}

impl Cluster {
    /// The voters when the node that membership changes may concern is a voter if it was none, or
    /// none if it was one.
    pub open spec fn changed(self) -> Set<NodeId> {
        match self.changing {
            Some(node) => if self.voters.contains(node) {
                self.voters.remove(node)
            } else {
                self.voters.insert(node)
            },
            None => self.voters,
        }
    }

    /// The nodes are those that ever vote.
    pub open spec fn configured(self) -> bool {
        &&& self.voters.finite()
        &&& self.nodes.dom() == self.voters.union(self.changed())
    }

    /// The members that a node is started with: a node that is to be added is a learner, and
    /// counts itself among the members.
    pub open spec fn initial_members(self, n: NodeId) -> Set<NodeId> {
        self.voters.insert(n)
    }

    /// A cluster that has done nothing since its start.
    pub open spec fn starts_from(self, start: Start) -> bool {
        &&& start.sound()
        &&& self.configured()
        &&& self.sent == Set::<(NodeId, MessageView)>::empty()
        &&& forall|n: NodeId| #[trigger]
            self.nodes.contains_key(n) ==> self.nodes[n].starts_in(
                n,
                self.initial_members(n),
                self.voters.contains(n),
                start,
            )
    }

    /// A cluster that is new, or that was stopped when all its nodes had the same snapshot and is
    /// started again with the voters of that time.
    pub open spec fn fresh(self) -> bool {
        exists|start: Start| #[trigger] self.starts_from(start)
    }

    /// A client can ask for this: a write, or a membership change that concerns the one node. A
    /// change is read from the log as it was written.
    pub open spec fn can_ask(self, message: MessageView) -> bool {
        match message {
            MessageView::Propose { .. } => true,
            MessageView::ProposeConfChange { cmd } => {
                &&& self.changing == Some(cmd.node_id)
                &&& conf_change_decoded(conf_change_bytes(cmd)) == Some(cmd)
            },
            _ => false,
        }
    }

    /// The clock, a client or the network can hand this message to the node. Snapshots that make
    /// the node forget are left out.
    pub open spec fn can_deliver(
        self,
        n: NodeId,
        message: MessageView,
        timeout: u32,
        order: Seq<NodeId>,
    ) -> bool {
        &&& self.nodes.contains_key(n)
        &&& message is Tick || self.can_ask(message) || self.sent.contains((n, message))
        &&& self.nodes[n].accepts(message)
        &&& enumerates(order, self.nodes[n].contacts(message))
        &&& !self.nodes[n].forgets(message)
    }

    pub open spec fn delivered(
        self,
        n: NodeId,
        message: MessageView,
        timeout: u32,
        order: Seq<NodeId>,
    ) -> Cluster {
        let handled = self.nodes[n].handle(message, timeout, order);
        Cluster {
            nodes: self.nodes.insert(n, handled.settled(timeout)),
            sent: self.sent.union(handled.ready.messages.to_set()),
            ..self
        }
    }

    /// A leader that has compacted its log can send its snapshot.
    pub open spec fn can_send_snapshot(self, n: NodeId, to: NodeId, data: Seq<u8>) -> bool {
        &&& self.nodes.contains_key(n)
        &&& self.nodes.contains_key(to)
        &&& self.nodes[n].role is Leader
        &&& self.nodes[n].log.base > 0
    }

    pub open spec fn snapshot_sent(self, n: NodeId, to: NodeId, data: Seq<u8>) -> Cluster {
        let leader = self.nodes[n];
        Cluster {
            sent: self.sent.insert(
                (
                    to,
                    MessageView::InstallSnapshot {
                        from: n,
                        msg: InstallSnapshotView {
                            term: leader.term,
                            leader_id: n,
                            snapshot: SnapshotView {
                                last_index: leader.log.base,
                                last_term: leader.log.base_term,
                                data,
                            },
                        },
                    },
                ),
            ),
            ..self
        }
    }

    /// What a node has applied can be folded into a snapshot.
    pub open spec fn can_compact(self, n: NodeId, index: LogIndex) -> bool {
        &&& self.nodes.contains_key(n)
        &&& self.nodes[n].log.base <= index <= self.nodes[n].applied
    }

    pub open spec fn compacted(self, n: NodeId, index: LogIndex) -> Cluster {
        let node = self.nodes[n];
        let term = match node.log.term_at(index as int) {
            Some(term) => term,
            None => 0,
        };
        Cluster {
            nodes: self.nodes.insert(n, NodeView { log: node.log.compact(index, term), ..node }),
            ..self
        }
    }

    pub open spec fn can_restart(self, n: NodeId, after: NodeView) -> bool {
        self.nodes.contains_key(n) && self.nodes[n].restarts_as(
            self.initial_members(n),
            self.voters.contains(n),
            after,
        )
    }

    pub open spec fn restarted(self, n: NodeId, after: NodeView) -> Cluster {
        Cluster { nodes: self.nodes.insert(n, after), ..self }
    }

    pub open spec fn steps_to(self, next: Cluster) -> bool {
        ||| exists|n: NodeId, message: MessageView, timeout: u32, order: Seq<NodeId>|
            #[trigger] self.can_deliver(n, message, timeout, order) && next == self.delivered(
                n,
                message,
                timeout,
                order,
            )
        ||| exists|n: NodeId, to: NodeId, data: Seq<u8>|
            #[trigger] self.can_send_snapshot(n, to, data) && next == self.snapshot_sent(
                n,
                to,
                data,
            )
        ||| exists|n: NodeId, index: LogIndex|
            #[trigger] self.can_compact(n, index) && next == self.compacted(n, index)
        ||| exists|n: NodeId, after: NodeView|
            #[trigger] self.can_restart(n, after) && next == self.restarted(n, after)
    }
}

/// The states that a cluster goes through, one step after the other.
pub open spec fn is_run(run: Seq<Cluster>) -> bool
    decreases run.len(),
{
    if run.len() <= 1 {
        run.len() == 1 && run[0].fresh()
    } else {
        is_run(run.drop_last()) && run[run.len() - 2].steps_to(run.last())
    }
}

} // verus!
