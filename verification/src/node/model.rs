//! The Raft node as a mathematical state machine.
//!
//! Every executable operation of the node is one of the functions below on its view. Two things
//! are arguments because no state determines them: the election timeout that a reset draws, and
//! the order in which a hash table hands out the peers that a broadcast contacts.
use vstd::prelude::*;

use crate::conf_change::{conf_change_bytes, conf_change_decoded};
use crate::log::LogView;
use crate::message::{
    AppendEntriesResponse, AppendEntriesView, ConfChangeOp, ConfChangeView, EntryType, HardState,
    InstallSnapshotResponse, InstallSnapshotView, LogEntryView, LogIndex, MessageView, NodeId,
    RequestVote, RequestVoteResponse, SnapshotView, Term,
};

verus! {

#[verifier::ext_equal]
pub ghost enum RoleView {
    Follower { leader_id: Option<NodeId> },
    Candidate { votes: Set<NodeId> },
    Leader { next: Map<NodeId, LogIndex>, matched: Map<NodeId, LogIndex> },
}

/// What a step asks its caller to do.
#[verifier::ext_equal]
pub ghost struct ReadyView {
    pub hard_state: Option<HardState>,
    pub messages: Seq<(NodeId, MessageView)>,
    pub to_persist: Seq<LogEntryView>,
    pub to_apply: Seq<LogEntryView>,
    pub snapshot_to_send: Seq<NodeId>,
    pub snapshot_to_apply: Option<SnapshotView>,
    pub membership_change: Option<ConfChangeView>,
}

impl ReadyView {
    pub open spec fn empty() -> ReadyView {
        ReadyView {
            hard_state: None,
            messages: Seq::empty(),
            to_persist: Seq::empty(),
            to_apply: Seq::empty(),
            snapshot_to_send: Seq::empty(),
            snapshot_to_apply: None,
            membership_change: None,
        }
    }
}

#[verifier::ext_equal]
pub ghost struct NodeView {
    pub id: NodeId,
    pub role: RoleView,
    pub term: Term,
    pub voted_for: Option<NodeId>,
    pub log: LogView,
    pub commit: LogIndex,
    pub applied: LogIndex,
    pub members: Set<NodeId>,
    pub is_voter: bool,
    pub pending_conf_change: bool,
    pub election_base: u32,
    pub heartbeat_timeout: u32,
    pub max_entries: usize,
    pub election_ticks: u32,
    pub election_timeout: u32,
    pub heartbeat_ticks: u32,
    pub ready: ReadyView,
}

/// `order` lists every element of `set`, each once.
pub open spec fn enumerates(order: Seq<NodeId>, set: Set<NodeId>) -> bool {
    order.no_duplicates() && order.to_set() == set
}

pub proof fn lemma_enumerates_nothing()
    ensures
        enumerates(Seq::empty(), Set::empty()),
{
    assert(Seq::<NodeId>::empty().to_set() =~= Set::empty());
}

impl NodeView {
    // ── Parts shared by several transitions ────────────────────────────────

    pub open spec fn hard_state(self) -> HardState {
        HardState { term: self.term, voted_for: self.voted_for, commit: self.commit }
    }

    pub open spec fn emit_hard_state(self) -> NodeView {
        NodeView {
            ready: ReadyView { hard_state: Some(self.hard_state()), ..self.ready },
            ..self
        }
    }

    pub open spec fn send(self, to: NodeId, message: MessageView) -> NodeView {
        NodeView {
            ready: ReadyView { messages: self.ready.messages.push((to, message)), ..self.ready },
            ..self
        }
    }

    pub open spec fn reset_election_timeout(self, timeout: u32) -> NodeView {
        NodeView { election_ticks: 0, election_timeout: timeout, ..self }
    }

    /// The node with its pending output handed over.
    pub open spec fn drained(self) -> NodeView {
        NodeView { ready: ReadyView::empty(), ..self }
    }

    /// A newer term is adopted with a fresh vote.
    pub open spec fn adopt_term(self, term: Term) -> NodeView {
        if term > self.term {
            NodeView { term, voted_for: None, ..self }.emit_hard_state()
        } else {
            self
        }
    }

    pub open spec fn become_follower(
        self,
        term: Term,
        leader_id: Option<NodeId>,
        timeout: u32,
    ) -> NodeView {
        NodeView {
            role: RoleView::Follower { leader_id },
            ..self.adopt_term(term)
        }.reset_election_timeout(timeout)
    }

    /// A majority of the voting members.
    pub open spec fn quorum(self) -> nat {
        self.members.len() / 2 + 1
    }

    pub open spec fn peers(self) -> Set<NodeId> {
        self.members.remove(self.id)
    }

    pub open spec fn followed(self) -> Set<NodeId> {
        match self.role {
            RoleView::Leader { next, .. } => next.dom(),
            _ => Set::empty(),
        }
    }

    // ── Elections ──────────────────────────────────────────────────────────

    /// The next tick starts an election.
    pub open spec fn election_due(self) -> bool {
        &&& self.role !is Leader
        &&& self.is_voter
        &&& self.election_ticks + 1 >= self.election_timeout
    }

    /// The next tick makes the leader contact its peers.
    pub open spec fn heartbeat_due(self) -> bool {
        self.role is Leader && self.heartbeat_ticks + 1 >= self.heartbeat_timeout
    }

    pub open spec fn vote_request(self) -> MessageView {
        MessageView::RequestVote {
            from: self.id,
            msg: RequestVote {
                term: self.term,
                candidate_id: self.id,
                last_log_index: self.log.last_index() as LogIndex,
                last_log_term: self.log.last_term(),
            },
        }
    }

    pub open spec fn start_election(self, timeout: u32, order: Seq<NodeId>) -> NodeView {
        let candidate = NodeView {
            term: (self.term + 1) as Term,
            voted_for: Some(self.id),
            role: RoleView::Candidate { votes: set![self.id] },
            ..self
        }.emit_hard_state().reset_election_timeout(timeout);
        NodeView {
            ready: ReadyView {
                messages: candidate.ready.messages + order.map_values(
                    |p: NodeId| (p, candidate.vote_request()),
                ),
                ..candidate.ready
            },
            ..candidate
        }
    }

    pub open spec fn tick(self, timeout: u32, order: Seq<NodeId>) -> NodeView {
        if self.heartbeat_due() {
            NodeView { heartbeat_ticks: 0, ..self }.broadcast(order)
        } else if self.role is Leader {
            NodeView { heartbeat_ticks: (self.heartbeat_ticks + 1) as u32, ..self }
        } else if self.election_due() {
            NodeView {
                election_ticks: (self.election_ticks + 1) as u32,
                ..self
            }.start_election(timeout, order)
        } else if self.is_voter {
            NodeView { election_ticks: (self.election_ticks + 1) as u32, ..self }
        } else {
            self
        }
    }

    /// The candidate's log is at least as complete as this node's.
    pub open spec fn up_to_date(self, msg: RequestVote) -> bool {
        ||| msg.last_log_term > self.log.last_term()
        ||| msg.last_log_term == self.log.last_term() && msg.last_log_index
            >= self.log.last_index()
    }

    /// Whether a vote is granted once the term of the request has been adopted. A learner has no
    /// vote to give.
    pub open spec fn grants(self, from: NodeId, msg: RequestVote) -> bool {
        &&& self.is_voter
        &&& msg.term == self.term
        &&& self.up_to_date(msg)
        &&& (self.voted_for is None || self.voted_for == Some(from))
    }

    pub open spec fn vote_for(self, from: NodeId) -> NodeView {
        if self.voted_for == Some(from) {
            self
        } else {
            NodeView { voted_for: Some(from), ..self }.emit_hard_state()
        }
    }

    pub open spec fn handle_request_vote(
        self,
        from: NodeId,
        msg: RequestVote,
        timeout: u32,
    ) -> NodeView {
        let current = if msg.term > self.term {
            self.become_follower(msg.term, None, timeout)
        } else {
            self
        };
        let granted = current.grants(from, msg);
        let voted = if granted {
            current.vote_for(from)
        } else {
            current
        };
        voted.send(
            from,
            MessageView::RequestVoteResponse {
                from: self.id,
                msg: RequestVoteResponse { term: voted.term, vote_granted: granted },
            },
        )
    }

    /// A response that counts: from the current term, to a candidate, granting the vote.
    pub open spec fn counts_vote(self, msg: RequestVoteResponse) -> bool {
        self.role is Candidate && msg.term == self.term && msg.vote_granted
    }

    pub open spec fn votes_with(self, from: NodeId) -> Set<NodeId> {
        match self.role {
            RoleView::Candidate { votes } => votes.insert(from),
            _ => Set::empty(),
        }
    }

    /// The response completes a majority.
    pub open spec fn wins(self, from: NodeId, msg: RequestVoteResponse) -> bool {
        self.counts_vote(msg) && self.votes_with(from).len() >= self.quorum()
    }

    pub open spec fn become_leader(self, order: Seq<NodeId>) -> NodeView {
        let last = self.log.last_index();
        NodeView {
            role: RoleView::Leader {
                next: Map::new(|p: NodeId| self.peers().contains(p), |p: NodeId| (last + 1) as LogIndex),
                matched: Map::new(|p: NodeId| self.peers().contains(p), |p: NodeId| 0 as LogIndex),
            },
            heartbeat_ticks: 0,
            ..self
        }.propose(Seq::empty(), order)
    }

    pub open spec fn handle_request_vote_response(
        self,
        from: NodeId,
        msg: RequestVoteResponse,
        timeout: u32,
        order: Seq<NodeId>,
    ) -> NodeView {
        if msg.term > self.term {
            self.become_follower(msg.term, None, timeout)
        } else if self.counts_vote(msg) {
            let counted = NodeView {
                role: RoleView::Candidate { votes: self.votes_with(from) },
                ..self
            };
            if self.wins(from, msg) {
                counted.become_leader(order)
            } else {
                counted
            }
        } else {
            self
        }
    }

    // ── Replication: the leader's side ─────────────────────────────────────

    /// The AppendEntries that continues a peer's log at `next`.
    pub open spec fn append_message(self, next: LogIndex) -> MessageView {
        let tail = self.log.from(next as int);
        MessageView::AppendEntries {
            from: self.id,
            msg: AppendEntriesView {
                term: self.term,
                leader_id: self.id,
                prev_log_index: (next - 1) as LogIndex,
                prev_log_term: match self.log.term_at(next - 1) {
                    Some(term) => term,
                    None => 0,
                },
                entries: if tail.len() <= self.max_entries {
                    tail
                } else {
                    tail.take(self.max_entries as int)
                },
                leader_commit: self.commit,
            },
        }
    }

    /// The leader contacts every peer it tracks: one whose position has been compacted away is
    /// listed for a snapshot, every other one is sent the entries it lacks.
    pub open spec fn broadcast(self, order: Seq<NodeId>) -> NodeView {
        match self.role {
            RoleView::Leader { next, .. } => NodeView {
                ready: ReadyView {
                    messages: self.ready.messages + order.filter(
                        |p: NodeId| next[p] > self.log.base,
                    ).map_values(|p: NodeId| (p, self.append_message(next[p]))),
                    snapshot_to_send: self.ready.snapshot_to_send + order.filter(
                        |p: NodeId| next[p] <= self.log.base,
                    ),
                    ..self.ready
                },
                ..self
            },
            _ => self,
        }
    }

    /// An entry of the current term goes to the end of the log, to storage and to the peers.
    pub open spec fn append_own(
        self,
        entry_type: EntryType,
        command: Seq<u8>,
        order: Seq<NodeId>,
    ) -> NodeView {
        let entry = LogEntryView {
            index: (self.log.last_index() + 1) as LogIndex,
            term: self.term,
            entry_type,
            command,
        };
        NodeView {
            log: self.log.append(entry),
            ready: ReadyView { to_persist: self.ready.to_persist.push(entry), ..self.ready },
            ..self
        }.broadcast(order)
    }

    pub open spec fn propose(self, command: Seq<u8>, order: Seq<NodeId>) -> NodeView {
        if self.role is Leader {
            self.append_own(EntryType::Normal, command, order)
        } else {
            self
        }
    }

    /// The number of voting members known to hold the log up to `index`. The leader itself
    /// always counts for what its own log holds.
    pub open spec fn acks(self, index: int) -> nat {
        match self.role {
            RoleView::Leader { matched, .. } => holders(matched, self.members, index).len() + (
            if index <= self.log.last_index() {
                1nat
            } else {
                0nat
            }),
            _ => 0,
        }
    }

    /// `index` is the highest position that a majority holds.
    pub open spec fn is_quorum_index(self, index: LogIndex) -> bool {
        &&& self.acks(index as int) >= self.quorum()
        &&& forall|higher: int| higher > index ==> #[trigger] self.acks(higher) < self.quorum()
    }

    pub open spec fn quorum_index(self) -> LogIndex {
        choose|index: LogIndex| self.is_quorum_index(index)
    }

    /// The leader commits what a majority holds, provided that it is of its own term.
    pub open spec fn advance_commit(self, timeout: u32) -> NodeView {
        let index = self.quorum_index();
        if self.role is Leader && index > self.commit && self.log.term_at(index as int) == Some(
            self.term,
        ) {
            self.commit_to(index, timeout)
        } else {
            self
        }
    }

    /// The peer is known to hold the log up to `index`.
    pub open spec fn credit(self, from: NodeId, index: LogIndex) -> NodeView {
        match self.role {
            RoleView::Leader { next, matched } => NodeView {
                role: RoleView::Leader {
                    next: next.insert(from, (index + 1) as LogIndex),
                    matched: matched.insert(from, index),
                },
                ..self
            },
            _ => self,
        }
    }

    /// Where the leader continues with a peer that rejected entries and asked for `hint`. It only
    /// ever moves down, so that a reordered rejection has no effect.
    pub open spec fn backed_off(self, from: NodeId, hint: LogIndex) -> LogIndex {
        match self.role {
            RoleView::Leader { next, .. } => {
                let current = if next.contains_key(from) {
                    next[from]
                } else {
                    1
                };
                let lower = if hint < current {
                    hint
                } else {
                    current
                };
                if lower < 1 {
                    1
                } else {
                    lower
                }
            },
            _ => 0,
        }
    }

    pub open spec fn back_off(self, from: NodeId, hint: LogIndex) -> NodeView {
        match self.role {
            RoleView::Leader { next, matched } => NodeView {
                role: RoleView::Leader {
                    next: next.insert(from, self.backed_off(from, hint)),
                    matched,
                },
                ..self
            },
            _ => self,
        }
    }

    pub open spec fn handle_append_entries_response(
        self,
        from: NodeId,
        msg: AppendEntriesResponse,
        timeout: u32,
    ) -> NodeView {
        if msg.term > self.term {
            self.become_follower(msg.term, None, timeout)
        } else if msg.term < self.term || self.role !is Leader {
            self
        } else if msg.success {
            self.credit(from, msg.match_index).advance_commit(timeout)
        } else {
            self.back_off(from, msg.match_index)
        }
    }

    /// The position a peer has reached by installing a snapshot. A peer that reports none is
    /// taken to have installed the leader's latest.
    pub open spec fn installed_index(self, msg: InstallSnapshotResponse) -> LogIndex {
        if msg.last_index == 0 {
            self.log.base
        } else {
            msg.last_index
        }
    }

    pub open spec fn handle_install_snapshot_response(
        self,
        from: NodeId,
        msg: InstallSnapshotResponse,
        timeout: u32,
    ) -> NodeView {
        if msg.term > self.term {
            self.become_follower(msg.term, None, timeout)
        } else if msg.term < self.term || !msg.success || self.role !is Leader {
            self
        } else {
            self.credit(from, self.installed_index(msg)).advance_commit(timeout)
        }
    }

    // ── Replication: the follower's side ───────────────────────────────────

    /// Where the leader should continue after a rejected AppendEntries: just past a log that is
    /// too short, at the start of the conflicting term otherwise, and never inside the prefix
    /// that is compacted or committed.
    pub open spec fn conflict_hint(self, prev: LogIndex) -> LogIndex {
        let wanted = if prev > self.log.last_index() {
            self.log.last_index() + 1
        } else if prev <= self.log.base {
            self.log.base + 1
        } else {
            self.log.run_start(prev as int)
        };
        if wanted <= self.commit {
            (self.commit + 1) as LogIndex
        } else {
            wanted as LogIndex
        }
    }

    pub open spec fn reply_append(
        self,
        to: NodeId,
        success: bool,
        match_index: LogIndex,
    ) -> NodeView {
        self.send(
            to,
            MessageView::AppendEntriesResponse {
                from: self.id,
                msg: AppendEntriesResponse { term: self.term, success, match_index },
            },
        )
    }

    /// The entries that the log lacks replace whatever conflicts with them; entries that the log
    /// already holds stay, with everything behind them.
    pub open spec fn merge(self, prev: LogIndex, entries: Seq<LogEntryView>) -> NodeView {
        let held = self.log.held(prev as int, entries);
        if held < entries.len() {
            let added = entries.skip(held as int);
            NodeView {
                log: self.log.truncate_and_append(prev + 1 + held, added),
                ready: ReadyView { to_persist: self.ready.to_persist + added, ..self.ready },
                ..self
            }
        } else {
            self
        }
    }

    /// How far the leader's commit index is followed: up to the last entry that the message
    /// vouches for. A message without entries vouches for the log as it is.
    pub open spec fn commit_target(self, msg: AppendEntriesView) -> LogIndex {
        let vouched = if msg.entries.len() == 0 {
            self.log.last_index()
        } else {
            msg.prev_log_index + msg.entries.len()
        };
        (if msg.leader_commit < vouched {
            msg.leader_commit as int
        } else {
            vouched
        }) as LogIndex
    }

    pub open spec fn follow_commit(self, msg: AppendEntriesView, timeout: u32) -> NodeView {
        let target = self.commit_target(msg);
        if target > self.commit {
            self.commit_to(target, timeout)
        } else {
            self
        }
    }

    pub open spec fn handle_append_entries(
        self,
        from: NodeId,
        msg: AppendEntriesView,
        timeout: u32,
    ) -> NodeView {
        if msg.term < self.term {
            self.reply_append(from, false, 0)
        } else {
            let follower = self.become_follower(msg.term, Some(from), timeout);
            if follower.log.term_at(msg.prev_log_index as int) == Some(msg.prev_log_term) {
                follower.merge(msg.prev_log_index, msg.entries).follow_commit(
                    msg,
                    timeout,
                ).reply_append(
                    from,
                    true,
                    (msg.prev_log_index + msg.entries.len()) as LogIndex,
                )
            } else {
                follower.reply_append(from, false, follower.conflict_hint(msg.prev_log_index))
            }
        }
    }

    pub open spec fn reply_install(
        self,
        to: NodeId,
        success: bool,
        last_index: LogIndex,
    ) -> NodeView {
        self.send(
            to,
            MessageView::InstallSnapshotResponse {
                from: self.id,
                msg: InstallSnapshotResponse { term: self.term, success, last_index },
            },
        )
    }

    /// The snapshot takes the place of everything up to its position.
    pub open spec fn install(self, snapshot: SnapshotView) -> NodeView {
        let installed = NodeView {
            log: self.log.compact(snapshot.last_index, snapshot.last_term),
            commit: snapshot.last_index,
            applied: snapshot.last_index,
            ..self
        }.emit_hard_state();
        NodeView {
            ready: ReadyView { snapshot_to_apply: Some(snapshot), ..installed.ready },
            ..installed
        }
    }

    pub open spec fn handle_install_snapshot(
        self,
        from: NodeId,
        msg: InstallSnapshotView,
        timeout: u32,
    ) -> NodeView {
        if msg.term < self.term {
            self.reply_install(from, false, 0)
        } else {
            let follower = self.become_follower(msg.term, Some(from), timeout);
            let covered = if msg.snapshot.last_index <= follower.commit {
                follower
            } else {
                follower.install(msg.snapshot)
            };
            covered.reply_install(from, true, msg.snapshot.last_index)
        }
    }

    // ── Applying committed entries ─────────────────────────────────────────

    pub open spec fn commit_to(self, index: LogIndex, timeout: u32) -> NodeView {
        NodeView { commit: index, ..self }.emit_hard_state().apply_committed(timeout)
    }

    /// The entry above the last applied one is handed to the state machine. A membership change
    /// takes effect here.
    pub open spec fn apply_next(self, timeout: u32) -> NodeView {
        let index = self.applied + 1;
        let advanced = NodeView { applied: index as LogIndex, ..self };
        if self.log.has(index) {
            let entry = self.log.at(index);
            let changed = if entry.entry_type == EntryType::ConfChange && entry.command.len() > 0 {
                advanced.apply_conf_change(entry.command, timeout)
            } else {
                advanced
            };
            NodeView {
                ready: ReadyView { to_apply: changed.ready.to_apply.push(entry), ..changed.ready },
                ..changed
            }
        } else {
            advanced
        }
    }

    pub open spec fn apply_committed(self, timeout: u32) -> NodeView
        decreases self.commit - self.applied,
    {
        if self.applied < self.commit {
            self.apply_next(timeout).apply_committed(timeout)
        } else {
            self
        }
    }

    // ── Membership ─────────────────────────────────────────────────────────

    /// Only the leader takes a membership change, and only one at a time.
    pub open spec fn takes_conf_change(self) -> bool {
        self.role is Leader && !self.pending_conf_change
    }

    /// The leader starts to replicate to the peer unless it already does.
    pub open spec fn track(self, peer: NodeId) -> NodeView {
        match self.role {
            RoleView::Leader { next, matched } => NodeView {
                role: RoleView::Leader {
                    next: if next.contains_key(peer) {
                        next
                    } else {
                        next.insert(peer, (self.log.last_index() + 1) as LogIndex)
                    },
                    matched: if matched.contains_key(peer) {
                        matched
                    } else {
                        matched.insert(peer, 0)
                    },
                },
                ..self
            },
            _ => self,
        }
    }

    pub open spec fn untrack(self, peer: NodeId) -> NodeView {
        match self.role {
            RoleView::Leader { next, matched } => NodeView {
                role: RoleView::Leader { next: next.remove(peer), matched: matched.remove(peer) },
                ..self
            },
            _ => self,
        }
    }

    pub open spec fn propose_conf_change(self, cmd: ConfChangeView, order: Seq<NodeId>) -> NodeView {
        if self.takes_conf_change() {
            let tracking = if cmd.op == ConfChangeOp::Add {
                self.track(cmd.node_id)
            } else {
                self
            };
            NodeView { pending_conf_change: true, ..tracking }.append_own(
                EntryType::ConfChange,
                conf_change_bytes(cmd),
                order,
            )
        } else {
            self
        }
    }

    pub open spec fn add_member(self, node: NodeId) -> NodeView {
        NodeView {
            members: self.members.insert(node),
            is_voter: self.is_voter || node == self.id,
            ..self
        }.track(node)
    }

    /// A node that is removed steps down at once and stops voting.
    pub open spec fn remove_member(self, node: NodeId, timeout: u32) -> NodeView {
        let removed = NodeView { members: self.members.remove(node), ..self }.untrack(node);
        if node == self.id {
            NodeView { is_voter: false, ..removed }.become_follower(self.term, None, timeout)
        } else {
            removed
        }
    }

    pub open spec fn change_membership(self, cmd: ConfChangeView, timeout: u32) -> NodeView {
        let open = NodeView { pending_conf_change: false, ..self };
        let changed = match cmd.op {
            ConfChangeOp::Add => open.add_member(cmd.node_id),
            ConfChangeOp::Remove => open.remove_member(cmd.node_id, timeout),
        };
        NodeView {
            ready: ReadyView { membership_change: Some(cmd), ..changed.ready },
            ..changed
        }
    }

    pub open spec fn apply_conf_change(self, command: Seq<u8>, timeout: u32) -> NodeView {
        match conf_change_decoded(command) {
            Some(cmd) => self.change_membership(cmd, timeout),
            None => self,
        }
    }

    // ── Steps ──────────────────────────────────────────────────────────────

    /// The peers that a message makes this node contact of its own accord.
    pub open spec fn contacts(self, message: MessageView) -> Set<NodeId> {
        match message {
            MessageView::Tick => if self.heartbeat_due() {
                self.followed()
            } else if self.election_due() {
                self.peers()
            } else {
                Set::empty()
            },
            MessageView::Propose { .. } => self.followed(),
            MessageView::ProposeConfChange { cmd } => if !self.takes_conf_change() {
                Set::empty()
            } else if cmd.op == ConfChangeOp::Add {
                self.followed().insert(cmd.node_id)
            } else {
                self.followed()
            },
            MessageView::RequestVoteResponse { from, msg } => if self.wins(from, msg) {
                self.peers()
            } else {
                Set::empty()
            },
            _ => Set::empty(),
        }
    }

    pub open spec fn handle(
        self,
        message: MessageView,
        timeout: u32,
        order: Seq<NodeId>,
    ) -> NodeView {
        match message {
            MessageView::Tick => self.tick(timeout, order),
            MessageView::Propose { command } => self.propose(command, order),
            MessageView::ProposeConfChange { cmd } => self.propose_conf_change(cmd, order),
            MessageView::RequestVote { from, msg } => self.handle_request_vote(from, msg, timeout),
            MessageView::RequestVoteResponse { from, msg } => self.handle_request_vote_response(
                from,
                msg,
                timeout,
                order,
            ),
            MessageView::AppendEntries { from, msg } => self.handle_append_entries(
                from,
                msg,
                timeout,
            ),
            MessageView::AppendEntriesResponse {
                from,
                msg,
            } => self.handle_append_entries_response(from, msg, timeout),
            MessageView::InstallSnapshot { from, msg } => self.handle_install_snapshot(
                from,
                msg,
                timeout,
            ),
            MessageView::InstallSnapshotResponse {
                from,
                msg,
            } => self.handle_install_snapshot_response(from, msg, timeout),
        }
    }

    /// A step handles a message and hands over all output that has come together.
    pub open spec fn stepped(
        self,
        message: MessageView,
        timeout: u32,
        order: Seq<NodeId>,
        after: NodeView,
        ready: ReadyView,
    ) -> bool {
        let handled = self.handle(message, timeout, order);
        after == handled.drained() && ready == handled.ready
    }

    // ── Validity ───────────────────────────────────────────────────────────

    /// What every operation of the node keeps.
    pub open spec fn valid(self) -> bool {
        &&& self.members.finite()
        &&& self.log.last_index() < u64::MAX
        &&& self.log.base <= self.applied < u64::MAX
        &&& self.commit < u64::MAX
        &&& 0 < self.election_base <= u32::MAX / 2
        &&& self.election_base <= self.election_timeout < 2 * self.election_base
        &&& self.election_ticks < self.election_timeout
        &&& self.heartbeat_ticks == 0 || self.heartbeat_ticks < self.heartbeat_timeout
        &&& match self.role {
            RoleView::Follower { .. } => true,
            RoleView::Candidate { votes } => votes.finite(),
            RoleView::Leader { next, matched } => {
                &&& next.dom().finite()
                &&& matched.dom().finite()
                &&& self.peers().subset_of(matched.dom())
            },
        }
    }

    /// A timeout that a reset of this node may draw.
    pub open spec fn may_draw(self, timeout: u32) -> bool {
        self.election_base <= timeout < 2 * self.election_base
    }

    /// No peer is to be continued behind the end of a log that ends at `last`.
    pub open spec fn reaches(self, last: int) -> bool {
        match self.role {
            RoleView::Leader { next, .. } => forall|p: NodeId| #[trigger]
                next.contains_key(p) ==> next[p] <= last + 1,
            _ => true,
        }
    }

    /// There is room for one more entry, and every peer can be sent it.
    pub open spec fn can_propose(self) -> bool {
        &&& self.log.last_index() + 1 < u64::MAX
        &&& self.reaches(self.log.last_index() + 1)
    }

    /// As for any proposal, unless the change is dropped.
    pub open spec fn can_propose_change(self) -> bool {
        &&& self.log.last_index() + 1 < u64::MAX
        &&& self.takes_conf_change() ==> self.reaches(self.log.last_index() + 1)
    }

    /// The messages that a node can take. Terms and indexes have to leave room for one more, a
    /// leader cannot contact a peer that has acknowledged entries which the leader does not have,
    /// and a snapshot that is installed lies within or behind the log.
    pub open spec fn accepts(self, message: MessageView) -> bool {
        match message {
            MessageView::Tick => {
                &&& self.election_due() ==> self.term < u64::MAX
                &&& self.heartbeat_due() ==> self.reaches(self.log.last_index())
            },
            MessageView::Propose { .. } => self.can_propose(),
            MessageView::ProposeConfChange { .. } => self.can_propose_change(),
            MessageView::RequestVote { .. } => true,
            MessageView::RequestVoteResponse { .. } => self.log.last_index() + 1 < u64::MAX,
            MessageView::AppendEntries { msg, .. } => msg.prev_log_index + msg.entries.len()
                < u64::MAX,
            MessageView::AppendEntriesResponse { msg, .. } => self.role is Leader && msg.term
                == self.term && msg.success ==> msg.match_index < u64::MAX,
            MessageView::InstallSnapshot { msg, .. } => {
                &&& msg.snapshot.last_index < u64::MAX
                &&& msg.term >= self.term && msg.snapshot.last_index > self.commit
                    ==> msg.snapshot.last_index >= self.log.base
            },
            MessageView::InstallSnapshotResponse { msg, .. } => self.role is Leader && msg.term
                == self.term && msg.success ==> msg.last_index < u64::MAX,
        }
    }
}

/// The members whose acknowledged position reaches `index`.
pub open spec fn holders(
    matched: Map<NodeId, LogIndex>,
    members: Set<NodeId>,
    index: int,
) -> Set<NodeId> {
    matched.dom().filter(|p: NodeId| members.contains(p) && matched[p] >= index)
}

} // verus!
