//! The Raft consensus state machine: no I/O, no clock, no network.
//!
//! A message goes in, a [`Ready`] comes out; everything the outside world has to do is listed
//! there.
use std::collections::{HashMap, HashSet};

use rand::Rng;
use vstd::prelude::*;

use crate::config::Config;
use crate::log::{LogView, RaftLog};
use crate::message::{
    entry_views, message_views, ConfChangeCmd, ConfChangeView, HardState, LogEntry, LogIndex,
    Message, NodeId, Snapshot, SnapshotView, Term,
};
use crate::node::listing::keys_of;

pub mod effects;
pub mod election;
pub mod laws;
pub(crate) mod listing;
pub mod membership;
pub mod model;
pub mod progress;
pub mod replication;

pub use model::{enumerates, NodeView, ReadyView, RoleView};

verus! {

broadcast use vstd::std_specs::hash::group_hash_axioms;

// ── Role ───────────────────────────────────────────────────────────────────

#[derive(Debug)]
pub enum Role {
    Follower { leader_id: Option<NodeId> },
    Candidate { votes_received: HashSet<NodeId> },
    Leader { next_index: HashMap<NodeId, LogIndex>, match_index: HashMap<NodeId, LogIndex> },
}

impl View for Role {
    type V = RoleView;

    open spec fn view(&self) -> RoleView {
        match *self {
            Role::Follower { leader_id } => RoleView::Follower { leader_id },
            Role::Candidate { votes_received } => RoleView::Candidate { votes: votes_received@ },
            Role::Leader { next_index, match_index } => RoleView::Leader {
                next: next_index@,
                matched: match_index@,
            },
        }
    }
}

// ── Ready ──────────────────────────────────────────────────────────────────

/// Output of one step of the Raft state machine.
/// The caller must process every field before the next step.
#[derive(Debug)]
pub struct Ready {
    /// Hard state that must reach durable storage before any RPC response is sent.
    /// Present exactly when the term, the vote or the commit index changed in this step.
    pub hard_state: Option<HardState>,
    /// Messages to send to other nodes: (destination, message).
    pub messages: Vec<(NodeId, Message)>,
    /// Entries that must be persisted to stable storage before sending messages.
    pub entries_to_persist: Vec<LogEntry>,
    /// Entries committed and ready to be applied to the key-value state machine.
    pub entries_to_apply: Vec<LogEntry>,
    /// Leader: peers that need a full snapshot (their next index is before our snapshot).
    pub snapshot_to_send: Vec<NodeId>,
    /// Follower: a snapshot received from the leader that must replace the key-value store.
    pub snapshot_to_apply: Option<Snapshot>,
    /// Present when a ConfChange entry was applied in this step.
    pub membership_change: Option<ConfChangeCmd>,
}

pub open spec fn snapshot_view(snapshot: Option<Snapshot>) -> Option<SnapshotView> {
    match snapshot {
        Some(s) => Some(s@),
        None => None,
    }
}

pub open spec fn conf_change_view(cmd: Option<ConfChangeCmd>) -> Option<ConfChangeView> {
    match cmd {
        Some(c) => Some(c@),
        None => None,
    }
}

impl View for Ready {
    type V = ReadyView;

    open spec fn view(&self) -> ReadyView {
        ReadyView {
            hard_state: self.hard_state,
            messages: message_views(self.messages@),
            to_persist: entry_views(self.entries_to_persist@),
            to_apply: entry_views(self.entries_to_apply@),
            snapshot_to_send: self.snapshot_to_send@,
            snapshot_to_apply: snapshot_view(self.snapshot_to_apply),
            membership_change: conf_change_view(self.membership_change),
        }
    }
}

impl Default for Ready {
    fn default() -> (ready: Self)
        ensures
            ready@ == ReadyView::empty(),
    {
        let ready = Ready {
            hard_state: None,
            messages: Vec::new(),
            entries_to_persist: Vec::new(),
            entries_to_apply: Vec::new(),
            snapshot_to_send: Vec::new(),
            snapshot_to_apply: None,
            membership_change: None,
        };
        assert(ready@ =~= ReadyView::empty());
        ready
    }
}

impl Ready {
    pub(crate) fn push_message(&mut self, to: NodeId, message: Message)
        ensures
            final(self)@ == (ReadyView {
                messages: old(self)@.messages.push((to, message@)),
                ..old(self)@
            }),
    {
        let ghost before = self.messages@;
        self.messages.push((to, message));
        assert(message_views(self.messages@) =~= message_views(before).push((to, message@)));
    }

    pub(crate) fn push_persist(&mut self, entry: LogEntry)
        ensures
            final(self)@ == (ReadyView {
                to_persist: old(self)@.to_persist.push(entry@),
                ..old(self)@
            }),
    {
        let ghost before = self.entries_to_persist@;
        self.entries_to_persist.push(entry);
        assert(entry_views(self.entries_to_persist@) =~= entry_views(before).push(entry@));
    }

    pub(crate) fn push_apply(&mut self, entry: LogEntry)
        ensures
            final(self)@ == (ReadyView {
                to_apply: old(self)@.to_apply.push(entry@),
                ..old(self)@
            }),
    {
        let ghost before = self.entries_to_apply@;
        self.entries_to_apply.push(entry);
        assert(entry_views(self.entries_to_apply@) =~= entry_views(before).push(entry@));
    }
}

// ── RaftNode ───────────────────────────────────────────────────────────────

/// Durable state to hand back to a freshly created node.
#[derive(Debug)]
pub struct Restore {
    pub term: Term,
    pub voted_for: Option<NodeId>,
    /// Highest commit index known to be durable.
    pub commit: LogIndex,
    pub snapshot_index: LogIndex,
    pub snapshot_term: Term,
    /// The entries above the snapshot, in order.
    pub entries: Vec<LogEntry>,
}

impl Default for Restore {
    fn default() -> (state: Self)
        ensures
            state.term == 0,
            state.voted_for is None,
            state.commit == 0,
            state.snapshot_index == 0,
            state.snapshot_term == 0,
            state.entries@ == Seq::<LogEntry>::empty(),
    {
        Restore {
            term: 0,
            voted_for: None,
            commit: 0,
            snapshot_index: 0,
            snapshot_term: 0,
            entries: Vec::new(),
        }
    }
}

/// Durable state: the hard state and the log.
pub ghost struct RestoreView {
    pub term: Term,
    pub voted_for: Option<NodeId>,
    pub commit: LogIndex,
    pub log: LogView,
}

impl View for Restore {
    type V = RestoreView;

    open spec fn view(&self) -> RestoreView {
        RestoreView {
            term: self.term,
            voted_for: self.voted_for,
            commit: self.commit,
            log: LogView {
                base: self.snapshot_index,
                base_term: self.snapshot_term,
                entries: entry_views(self.entries@),
            },
        }
    }
}

impl RestoreView {
    /// The commit index to resume from: at least the snapshot, at most the end of the log. The
    /// tail of the log can be lost after the commit index was made durable.
    pub open spec fn resumed_commit(self) -> LogIndex {
        let last = self.log.last_index();
        let held = if self.commit < last {
            self.commit as int
        } else {
            last
        };
        (if held < self.log.base {
            self.log.base as int
        } else {
            held
        }) as LogIndex
    }
}

pub struct RaftNode {
    pub id: NodeId,
    pub role: Role,
    pub current_term: Term,
    pub voted_for: Option<NodeId>,
    pub log: RaftLog,
    pub commit_index: LogIndex,
    pub last_applied: LogIndex,
    /// Current set of voting members (includes self). Updated when ConfChange entries are applied.
    pub membership: HashSet<NodeId>,
    /// False for a learner node that has not yet been admitted to the cluster.
    /// Learners receive log entries but do not participate in elections.
    pub is_voter: bool,
    /// True while a ConfChange entry is in the log but not yet applied.
    /// Prevents concurrent membership changes.
    pub pending_conf_change: bool,
    pub config: Config,
    pub election_ticks: u32,
    pub election_timeout: u32,
    pub heartbeat_ticks: u32,
    pub pending_ready: Ready,
}

impl View for RaftNode {
    type V = NodeView;

    open spec fn view(&self) -> NodeView {
        NodeView {
            id: self.id,
            role: self.role@,
            term: self.current_term,
            voted_for: self.voted_for,
            log: self.log@,
            commit: self.commit_index,
            applied: self.last_applied,
            members: self.membership@,
            is_voter: self.is_voter,
            pending_conf_change: self.pending_conf_change,
            election_base: self.config.election_timeout,
            heartbeat_timeout: self.config.heartbeat_timeout,
            max_entries: self.config.max_entries_per_append,
            election_ticks: self.election_ticks,
            election_timeout: self.election_timeout,
            heartbeat_ticks: self.heartbeat_ticks,
            ready: self.pending_ready@,
        }
    }
}

impl NodeView {
    /// A node that has seen nothing.
    pub open spec fn fresh(config: Config, is_voter: bool, timeout: u32) -> NodeView {
        NodeView {
            id: config.id,
            role: RoleView::Follower { leader_id: None },
            term: 0,
            voted_for: None,
            log: LogView::empty(),
            commit: 0,
            applied: 0,
            members: config.peers@.to_set().insert(config.id),
            is_voter,
            pending_conf_change: false,
            election_base: config.election_timeout,
            heartbeat_timeout: config.heartbeat_timeout,
            max_entries: config.max_entries_per_append,
            election_ticks: 0,
            election_timeout: timeout,
            heartbeat_ticks: 0,
            ready: ReadyView::empty(),
        }
    }

    /// The node with durable state loaded. The state machine starts at the snapshot; the
    /// committed entries above it are staged to be applied again.
    pub open spec fn restored(self, state: RestoreView, timeout: u32) -> NodeView {
        NodeView {
            term: state.term,
            voted_for: state.voted_for,
            log: state.log,
            commit: state.resumed_commit(),
            applied: state.log.base,
            ..self
        }.apply_committed(timeout)
    }

    /// The node with a snapshot from the leader in place of its whole log.
    pub open spec fn rebased(self, snapshot: SnapshotView, timeout: u32) -> NodeView {
        self.restored(
            RestoreView {
                term: self.term,
                voted_for: self.voted_for,
                commit: snapshot.last_index,
                log: LogView {
                    base: snapshot.last_index,
                    base_term: snapshot.last_term,
                    entries: Seq::empty(),
                },
            },
            timeout,
        )
    }
}

/// Draws a number below `high` and not below `low`, with `rand::Rng::random_range` on the
/// thread's generator. Nothing more can be said of a random number.
#[verifier::external_body]
fn random_between(low: u32, high: u32) -> (drawn: u32)
    requires
        low < high,
    ensures
        low <= drawn < high,
{
    rand::rng().random_range(low..high)
}

impl RaftNode {
    /// The node is in a state that its operations keep.
    pub open spec fn wf(self) -> bool {
        self.log.wf() && self@.valid()
    }

    pub fn new(config: Config) -> (node: Self)
        requires
            config.usable(),
        ensures
            node.wf(),
            exists|timeout: u32|
                config.may_draw(timeout) && node@ == #[trigger] NodeView::fresh(config, true, timeout),
    {
        Self::new_inner(config, true)
    }

    /// Starts as a non-voting learner. Elections are suppressed until a membership change that
    /// adds this node is applied, at which point it becomes a voter.
    pub fn new_learner(config: Config) -> (node: Self)
        requires
            config.usable(),
        ensures
            node.wf(),
            exists|timeout: u32|
                config.may_draw(timeout) && node@ == #[trigger] NodeView::fresh(config, false, timeout),
    {
        Self::new_inner(config, false)
    }

    fn new_inner(config: Config, is_voter: bool) -> (node: Self)
        requires
            config.usable(),
        ensures
            node.wf(),
            exists|timeout: u32|
                config.may_draw(timeout) && node@ == #[trigger] NodeView::fresh(
                    config,
                    is_voter,
                    timeout,
                ),
    {
        let election_timeout = random_between(config.election_timeout, config.election_timeout * 2);
        let mut membership: HashSet<NodeId> = HashSet::new();
        let mut i: usize = 0;
        while i < config.peers.len()
            invariant
                i <= config.peers@.len(),
                membership@ == config.peers@.take(i as int).to_set(),
                membership@.finite(),
            decreases config.peers@.len() - i,
        {
            assert(config.peers@.take(i + 1) =~= config.peers@.take(i as int).push(
                config.peers@[i as int],
            ));
            proof {
                config.peers@.take(i as int).lemma_push_to_set_commute(config.peers@[i as int]);
            }
            membership.insert(config.peers[i]);
            i += 1;
        }
        assert(config.peers@.take(i as int) =~= config.peers@);
        membership.insert(config.id);
        let node = RaftNode {
            id: config.id,
            role: Role::Follower { leader_id: None },
            current_term: 0,
            voted_for: None,
            log: RaftLog::new(),
            commit_index: 0,
            last_applied: 0,
            membership,
            is_voter,
            pending_conf_change: false,
            config,
            election_ticks: 0,
            election_timeout,
            heartbeat_ticks: 0,
            pending_ready: Ready::default(),
        };
        assert(node@ == NodeView::fresh(config, is_voter, election_timeout));
        node
    }

    pub fn is_leader(&self) -> (leader: bool)
        ensures
            leader == (self@.role is Leader),
    {
        match self.role {
            Role::Leader { .. } => true,
            _ => false,
        }
    }

    pub fn leader_id(&self) -> (leader: Option<NodeId>)
        ensures
            leader == self@.leader(),
    {
        match &self.role {
            Role::Follower { leader_id } => *leader_id,
            Role::Leader { .. } => Some(self.id),
            Role::Candidate { .. } => None,
        }
    }

    /// Restores durable state. Call once after `new`, before any step.
    pub fn restore(&mut self, state: Restore)
        requires
            old(self).wf(),
            old(self)@.role is Follower,
            state.snapshot_index + state.entries@.len() < u64::MAX,
        ensures
            final(self).wf(),
            exists|timeout: u32|
                old(self)@.may_draw(timeout) && final(self)@ == #[trigger] old(self)@.restored(
                    state@,
                    timeout,
                ),
    {
        let timeout = self.draw_timeout();
        self.restore_with(state, timeout);
    }

    /// Restores durable state, given the election timeout to use should a re-applied membership
    /// change reset it.
    pub fn restore_with(&mut self, state: Restore, timeout: u32)
        requires
            old(self).wf(),
            old(self)@.role is Follower,
            old(self)@.may_draw(timeout),
            state.snapshot_index + state.entries@.len() < u64::MAX,
        ensures
            final(self).wf(),
            final(self)@ == old(self)@.restored(state@, timeout),
    {
        self.current_term = state.term;
        self.voted_for = state.voted_for;
        self.log.restore(state.snapshot_index, state.snapshot_term, state.entries);
        let last = self.log.last_index();
        let held = if state.commit < last {
            state.commit
        } else {
            last
        };
        self.commit_index = if held < state.snapshot_index {
            state.snapshot_index
        } else {
            held
        };
        self.last_applied = state.snapshot_index;
        self.apply_committed(timeout);
    }

    fn draw_timeout(&self) -> (timeout: u32)
        requires
            self.wf(),
        ensures
            self@.may_draw(timeout),
    {
        random_between(self.config.election_timeout, self.config.election_timeout * 2)
    }

    /// Advances the state machine by one message. Returns the accumulated output.
    pub fn step(&mut self, msg: Message) -> (ready: Ready)
        requires
            old(self).wf(),
            old(self)@.accepts(msg@),
        ensures
            final(self).wf(),
            exists|timeout: u32, order: Seq<NodeId>|
                old(self)@.may_draw(timeout) && enumerates(order, old(self)@.contacts(msg@))
                    && #[trigger] old(self)@.stepped(msg@, timeout, order, final(self)@, ready@),
    {
        let timeout = self.draw_timeout();
        self.step_with(msg, timeout)
    }

    /// Advances the state machine by one message, given the election timeout to use should the
    /// message reset it.
    pub fn step_with(&mut self, msg: Message, timeout: u32) -> (ready: Ready)
        requires
            old(self).wf(),
            old(self)@.accepts(msg@),
            old(self)@.may_draw(timeout),
        ensures
            final(self).wf(),
            exists|order: Seq<NodeId>|
                enumerates(order, old(self)@.contacts(msg@)) && #[trigger] old(self)@.stepped(
                    msg@,
                    timeout,
                    order,
                    final(self)@,
                    ready@,
                ),
    {
        let ghost message = msg@;
        let order: Ghost<Seq<NodeId>> = match msg {
            Message::Tick => self.tick(timeout),
            Message::Propose { command } => self.propose(command),
            Message::ProposeConfChange {
                op,
                node_id,
                raft_addr,
                http_addr,
            } => self.propose_conf_change_inner(
                ConfChangeCmd { op, node_id, raft_addr, http_addr },
            ),
            Message::RequestVoteResponse { from, msg } => self.handle_request_vote_response(
                from,
                msg,
                timeout,
            ),
            Message::RequestVote { from, msg } => {
                self.handle_request_vote(from, msg, timeout);
                Ghost(Seq::empty())
            },
            Message::AppendEntries { from, msg } => {
                self.handle_append_entries(from, msg, timeout);
                Ghost(Seq::empty())
            },
            Message::AppendEntriesResponse { from, msg } => {
                self.handle_append_entries_response(from, msg, timeout);
                Ghost(Seq::empty())
            },
            Message::InstallSnapshot { from, msg } => {
                self.handle_install_snapshot(from, msg, timeout);
                Ghost(Seq::empty())
            },
            Message::InstallSnapshotResponse { from, msg } => {
                self.handle_install_snapshot_response(from, msg, timeout);
                Ghost(Seq::empty())
            },
        };
        proof {
            model::lemma_enumerates_nothing();
            assert(self@ == old(self)@.handle(message, timeout, order@));
        }
        let ready = self.take_ready();
        assert(old(self)@.stepped(message, timeout, order@, self@, ready@));
        ready
    }

    /// No peer is to be continued behind the end of a log that ends at `last`.
    fn reaches(&self, last: LogIndex) -> (reached: bool)
        requires
            last < u64::MAX,
        ensures
            reached == self@.reaches(last as int),
    {
        let next_index = match &self.role {
            Role::Leader { next_index, .. } => next_index,
            _ => return true,
        };
        let peers = keys_of(next_index);
        let ghost next = self@.role->next;
        let mut i: usize = 0;
        while i < peers.len()
            invariant
                i <= peers@.len(),
                last < u64::MAX,
                next == next_index@,
                self@.role is Leader,
                self@.role->next == next,
                peers@.to_set() == next.dom(),
                forall|j: int| 0 <= j < i ==> next[#[trigger] peers@[j]] <= last + 1,
            decreases peers@.len() - i,
        {
            let peer = peers[i];
            assert(peers@.to_set().contains(peer));
            if let Some(position) = next_index.get(&peer) {
                if *position > last + 1 {
                    assert(next.contains_key(peer));
                    return false;
                }
            }
            i += 1;
        }
        assert forall|p: NodeId| #[trigger] next.contains_key(p) implies next[p] <= last + 1 by {
            assert(peers@.to_set().contains(p));
        }
        true
    }

    /// Whether `step` can take the message: terms and indexes leave room for one more, no peer
    /// that is to be contacted has acknowledged entries which the leader does not have, and no
    /// snapshot goes back behind the one the log starts with.
    pub fn accepts(&self, msg: &Message) -> (accepted: bool)
        requires
            self.wf(),
        ensures
            accepted == self@.accepts(msg@),
    {
        let last = self.log.last_index();
        match msg {
            Message::Tick => if self.is_leader() {
                self.heartbeat_ticks + 1 < self.config.heartbeat_timeout || self.reaches(last)
            } else {
                !self.is_voter || self.election_ticks + 1 < self.election_timeout
                    || self.current_term < u64::MAX
            },
            Message::Propose { .. } => last < u64::MAX - 1 && self.reaches(last + 1),
            Message::ProposeConfChange { .. } => last < u64::MAX - 1 && (!self.is_leader()
                || self.pending_conf_change || self.reaches(last + 1)),
            Message::RequestVote { .. } => true,
            Message::RequestVoteResponse { .. } => last < u64::MAX - 1,
            Message::AppendEntries { msg, .. } => (msg.entries.len() as u64) < u64::MAX
                - msg.prev_log_index,
            Message::AppendEntriesResponse { msg, .. } => !self.is_leader() || msg.term
                != self.current_term || !msg.success || msg.match_index < u64::MAX,
            Message::InstallSnapshot { msg, .. } => msg.snapshot.last_index < u64::MAX && (msg.term
                < self.current_term || msg.snapshot.last_index <= self.commit_index
                || msg.snapshot.last_index >= self.log.snapshot_index()),
            Message::InstallSnapshotResponse { msg, .. } => !self.is_leader() || msg.term
                != self.current_term || !msg.success || msg.last_index < u64::MAX,
        }
    }

    /// Hands over the pending output.
    pub fn take_ready(&mut self) -> (ready: Ready)
        ensures
            ready@ == old(self)@.ready,
            final(self)@ == old(self)@.drained(),
            old(self).wf() ==> final(self).wf(),
    {
        let mut ready = Ready::default();
        core::mem::swap(&mut ready, &mut self.pending_ready);
        ready
    }

    // ── Role transitions ──────────────────────────────────────────────────

    pub(crate) fn become_follower(&mut self, term: Term, leader_id: Option<NodeId>, timeout: u32)
        requires
            old(self).wf(),
            old(self)@.may_draw(timeout),
        ensures
            final(self).wf(),
            final(self)@ == old(self)@.become_follower(term, leader_id, timeout),
    {
        if term > self.current_term {
            self.current_term = term;
            self.voted_for = None;
            self.emit_hard_state();
        }
        self.role = Role::Follower { leader_id };
        self.reset_election_timeout(timeout);
    }

    pub(crate) fn reset_election_timeout(&mut self, timeout: u32)
        ensures
            final(self)@ == old(self)@.reset_election_timeout(timeout),
            final(self).log == old(self).log,
    {
        self.election_ticks = 0;
        self.election_timeout = timeout;
    }

    pub(crate) fn emit_hard_state(&mut self)
        ensures
            final(self)@ == old(self)@.emit_hard_state(),
            final(self).log == old(self).log,
    {
        self.pending_ready.hard_state = Some(
            HardState {
                term: self.current_term,
                voted_for: self.voted_for,
                commit: self.commit_index,
            },
        );
    }

    pub(crate) fn send(&mut self, to: NodeId, message: Message)
        ensures
            final(self)@ == old(self)@.send(to, message@),
            final(self).log == old(self).log,
    {
        self.pending_ready.push_message(to, message);
    }
}

impl NodeView {
    /// The leader as far as the node knows.
    pub open spec fn leader(self) -> Option<NodeId> {
        match self.role {
            RoleView::Follower { leader_id } => leader_id,
            RoleView::Leader { .. } => Some(self.id),
            RoleView::Candidate { .. } => None,
        }
    }
}

} // verus!
