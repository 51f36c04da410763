//! What holds of the node whatever messages it is given.
//!
//! The laws speak of the transitions that the contracts of the node are stated with, so they hold
//! of every call of `step` and `restore`.
use vstd::prelude::*;

use crate::log::LogView;
use crate::message::{
    AppendEntriesResponse, AppendEntriesView, ConfChangeOp, ConfChangeView, EntryType,
    InstallSnapshotResponse, LogEntryView, LogIndex, MessageView, NodeId, RequestVote,
    RequestVoteResponse, Term,
};
use crate::node::RestoreView;
use crate::node::model::{holders, NodeView, ReadyView, RoleView};

verus! {

// ── Parts of the proofs ────────────────────────────────────────────────────

impl NodeView {
    /// The commit index names an entry that the log holds, and nothing beyond it was applied.
    pub open spec fn consistent(self) -> bool {
        self.log.base <= self.applied <= self.commit <= self.log.last_index()
    }

    /// Everything committed here is still so in `later`: the commit index has not gone down, and
    /// every committed entry that is not folded into a snapshot is what it was.
    pub open spec fn kept_by(self, later: NodeView) -> bool {
        &&& later.commit >= self.commit
        &&& later.applied >= self.applied
        &&& later.log.base >= self.log.base
        &&& forall|i: int|
            later.log.base < i <= self.commit ==> #[trigger] later.log.at(i) == self.log.at(i)
    }

    /// The message, unless it comes from an earlier term, does not contradict what this node knows
    /// to be committed.
    pub open spec fn agrees_with_committed(self, message: MessageView) -> bool {
        match message {
            MessageView::AppendEntries { msg, .. } => msg.term >= self.term ==> forall|i: int|
                0 <= i < msg.entries.len() && self.log.base < msg.prev_log_index + 1 + i
                    <= self.commit ==> self.log.term_at(msg.prev_log_index + 1 + i) == Some(
                    (#[trigger] msg.entries[i]).term,
                ),
            _ => true,
        }
    }
}

proof fn lemma_membership_frame(s: NodeView, command: Seq<u8>, timeout: u32)
    ensures
        ({
            let h = s.apply_conf_change(command, timeout);
            &&& h == NodeView {
                role: h.role,
                members: h.members,
                is_voter: h.is_voter,
                pending_conf_change: h.pending_conf_change,
                election_ticks: h.election_ticks,
                election_timeout: h.election_timeout,
                ready: ReadyView { membership_change: h.ready.membership_change, ..s.ready },
                ..s
            }
            &&& s.valid() && s.may_draw(timeout) ==> h.valid()
            &&& h.role is Leader ==> s.role is Leader
        }),
{
}

/// Applying leaves alone everything but the membership, the timer and the entries handed out.
pub(crate) proof fn lemma_apply_frame(s: NodeView, timeout: u32)
    ensures
        ({
            let h = s.apply_committed(timeout);
            &&& h == NodeView {
                role: h.role,
                applied: h.applied,
                members: h.members,
                is_voter: h.is_voter,
                pending_conf_change: h.pending_conf_change,
                election_ticks: h.election_ticks,
                election_timeout: h.election_timeout,
                ready: ReadyView {
                    to_apply: h.ready.to_apply,
                    membership_change: h.ready.membership_change,
                    ..s.ready
                },
                ..s
            }
            &&& h.applied == (if s.applied < s.commit {
                s.commit
            } else {
                s.applied
            })
            &&& s.valid() && s.may_draw(timeout) ==> h.valid()
            &&& h.role is Leader ==> s.role is Leader
            &&& s.consistent() ==> h.ready.to_apply == s.ready.to_apply + s.log.entries.subrange(
                s.applied - s.log.base,
                h.applied - s.log.base,
            )
        }),
    decreases s.commit - s.applied,
{
    if s.applied < s.commit {
        let index = s.applied + 1;
        let advanced = NodeView { applied: index as LogIndex, ..s };
        let n = s.apply_next(timeout);
        if s.log.has(index) {
            lemma_membership_frame(advanced, s.log.at(index).command, timeout);
        }
        lemma_apply_frame(n, timeout);
        if s.consistent() {
            let h = n.apply_committed(timeout);
            assert(s.log.entries.subrange(s.applied - s.log.base, h.applied - s.log.base)
                =~= seq![s.log.at(index)] + s.log.entries.subrange(
                n.applied - s.log.base,
                h.applied - s.log.base,
            ));
            assert(h.ready.to_apply =~= s.ready.to_apply + s.log.entries.subrange(
                s.applied - s.log.base,
                h.applied - s.log.base,
            ));
        }
    } else if s.consistent() {
        assert(s.log.entries.subrange(s.applied - s.log.base, s.applied - s.log.base)
            =~= Seq::empty());
        assert(s.ready.to_apply + Seq::<LogEntryView>::empty() =~= s.ready.to_apply);
    }
}

pub(crate) proof fn lemma_commit_frame(s: NodeView, index: LogIndex, timeout: u32)
    ensures
        ({
            let h = s.commit_to(index, timeout);
            &&& h == NodeView {
                role: h.role,
                commit: index,
                applied: h.applied,
                members: h.members,
                is_voter: h.is_voter,
                pending_conf_change: h.pending_conf_change,
                election_ticks: h.election_ticks,
                election_timeout: h.election_timeout,
                ready: ReadyView {
                    hard_state: Some(h.hard_state()),
                    to_apply: h.ready.to_apply,
                    membership_change: h.ready.membership_change,
                    ..s.ready
                },
                ..s
            }
            &&& h.applied == (if s.applied < index {
                index
            } else {
                s.applied
            })
            &&& s.valid() && s.may_draw(timeout) && s.log.base <= index < u64::MAX ==> h.valid()
            &&& h.role is Leader ==> s.role is Leader
            &&& s.log.base <= s.applied <= index <= s.log.last_index() ==> h.ready.to_apply
                == s.ready.to_apply + s.log.entries.subrange(
                s.applied - s.log.base,
                h.applied - s.log.base,
            )
        }),
{
    lemma_apply_frame(NodeView { commit: index, ..s }.emit_hard_state(), timeout);
}

/// The held entries agree in term with the log; the first one beyond does not.
pub proof fn lemma_held_bounded(log: LogView, prev: int, entries: Seq<LogEntryView>)
    ensures
        log.held(prev, entries) <= entries.len(),
        forall|i: int|
            0 <= i < log.held(prev, entries) ==> log.term_at(prev + 1 + i) == Some(
                (#[trigger] entries[i]).term,
            ),
        log.held(prev, entries) < entries.len() ==> log.term_at(
            prev + 1 + log.held(prev, entries),
        ) != Some(entries[log.held(prev, entries) as int].term),
    decreases entries.len(),
{
    if entries.len() > 0 && log.term_at(prev + 1) == Some(entries[0].term) {
        let rest = entries.skip(1);
        lemma_held_bounded(log, prev + 1, rest);
        assert forall|i: int| 0 <= i < log.held(prev, entries) implies log.term_at(prev + 1 + i)
            == Some((#[trigger] entries[i]).term) by {
            if i > 0 {
                assert(rest[i - 1] == entries[i]);
            }
        }
        if log.held(prev, entries) < entries.len() {
            assert(rest[log.held(prev + 1, rest) as int] == entries[log.held(prev, entries) as int]);
        }
    }
}

proof fn lemma_run_start(log: LogView, index: int)
    requires
        log.has(index),
    ensures
        log.base < log.run_start(index) <= index,
    decreases index - log.base,
{
    if log.has(index - 1) && log.at(index - 1).term == log.at(index).term {
        lemma_run_start(log, index - 1);
    }
}

// ── Terms, votes and hard state ────────────────────────────────────────────

impl NodeView {
    /// The clock does not carry the node beyond the last term there is.
    pub open spec fn can_count(self, message: MessageView) -> bool {
        message is Tick ==> self.accepts(message)
    }
}

/// The term never goes down.
pub proof fn law_term_never_decreases(
    s: NodeView,
    message: MessageView,
    timeout: u32,
    order: Seq<NodeId>,
)
    requires
        s.can_count(message),
    ensures
        s.handle(message, timeout, order).term >= s.term,
{
    lemma_hard_state_frame(s, message, timeout, order);
}

/// A node that has voted does not change its vote within the term.
pub proof fn law_one_vote_per_term(
    s: NodeView,
    message: MessageView,
    timeout: u32,
    order: Seq<NodeId>,
)
    requires
        s.can_count(message),
        s.voted_for is Some,
        s.handle(message, timeout, order).term == s.term,
    ensures
        s.handle(message, timeout, order).voted_for == s.voted_for,
{
    lemma_hard_state_frame(s, message, timeout, order);
}

/// A step reports hard state exactly when the term, the vote or the commit index changed, and
/// what it reports is the state after the step. A report that has not been handed over yet stays
/// when there is nothing newer.
pub proof fn law_hard_state_reported(
    s: NodeView,
    message: MessageView,
    timeout: u32,
    order: Seq<NodeId>,
)
    requires
        s.can_count(message),
    ensures
        ({
            let h = s.handle(message, timeout, order);
            h.ready.hard_state == if h.hard_state() == s.hard_state() {
                s.ready.hard_state
            } else {
                Some(h.hard_state())
            }
        }),
{
    lemma_hard_state_frame(s, message, timeout, order);
}

proof fn lemma_hard_state_frame(
    s: NodeView,
    message: MessageView,
    timeout: u32,
    order: Seq<NodeId>,
)
    requires
        s.can_count(message),
    ensures
        ({
            let h = s.handle(message, timeout, order);
            &&& h.term >= s.term
            &&& h.term == s.term && s.voted_for is Some ==> h.voted_for == s.voted_for
            &&& h.ready.hard_state == if h.hard_state() == s.hard_state() {
                s.ready.hard_state
            } else {
                Some(h.hard_state())
            }
        }),
{
    match message {
        MessageView::AppendEntries { from, msg } => {
            if msg.term >= s.term {
                let follower = s.become_follower(msg.term, Some(from), timeout);
                let merged = follower.merge(msg.prev_log_index, msg.entries);
                let index = merged.commit_target(msg);
                lemma_commit_frame(merged, index, timeout);
            }
        },
        MessageView::AppendEntriesResponse { from, msg } => {
            let credited = s.credit(from, msg.match_index);
            lemma_commit_frame(credited, credited.quorum_index(), timeout);
        },
        MessageView::InstallSnapshotResponse { from, msg } => {
            let credited = s.credit(from, s.installed_index(msg));
            lemma_commit_frame(credited, credited.quorum_index(), timeout);
        },
        _ => {},
    }
}

/// The term that an RPC or the answer to one carries.
pub open spec fn carried_term(message: MessageView) -> Option<Term> {
    match message {
        MessageView::RequestVote { msg, .. } => Some(msg.term),
        MessageView::RequestVoteResponse { msg, .. } => Some(msg.term),
        MessageView::AppendEntries { msg, .. } => Some(msg.term),
        MessageView::AppendEntriesResponse { msg, .. } => Some(msg.term),
        MessageView::InstallSnapshot { msg, .. } => Some(msg.term),
        MessageView::InstallSnapshotResponse { msg, .. } => Some(msg.term),
        _ => None,
    }
}

/// An RPC or the answer to one leaves the node in the later of its own term and the one that the
/// message carries. A node that learns of a later term does not lead.
pub proof fn law_term_follows_messages(
    s: NodeView,
    message: MessageView,
    timeout: u32,
    order: Seq<NodeId>,
)
    ensures
        ({
            let h = s.handle(message, timeout, order);
            carried_term(message) matches Some(term) ==> h.term == (if term > s.term {
                term
            } else {
                s.term
            }) && (term > s.term ==> h.role !is Leader)
        }),
{
    match message {
        MessageView::AppendEntries { from, msg } => {
            let follower = s.become_follower(msg.term, Some(from), timeout);
            let merged = follower.merge(msg.prev_log_index, msg.entries);
            lemma_commit_frame(merged, merged.commit_target(msg), timeout);
        },
        MessageView::AppendEntriesResponse { from, msg } => {
            let credited = s.credit(from, msg.match_index);
            lemma_commit_frame(credited, credited.quorum_index(), timeout);
        },
        MessageView::InstallSnapshotResponse { from, msg } => {
            let credited = s.credit(from, s.installed_index(msg));
            lemma_commit_frame(credited, credited.quorum_index(), timeout);
        },
        _ => {},
    }
}

/// A vote is granted only to a candidate whose log is at least as complete, and it is recorded
/// for the term of the request.
pub proof fn law_vote_needs_complete_log(
    s: NodeView,
    from: NodeId,
    msg: RequestVote,
    timeout: u32,
)
    ensures
        ({
            let h = s.handle_request_vote(from, msg, timeout);
            let reply = h.ready.messages.last();
            &&& reply.0 == from
            &&& reply.1 matches MessageView::RequestVoteResponse { msg: answer, .. }
            &&& answer.term == h.term
            &&& answer.vote_granted ==> s.up_to_date(msg) && h.term == msg.term && h.voted_for
                == Some(from)
            &&& !answer.vote_granted && h.term == s.term ==> h.voted_for == s.voted_for
        }),
{
}

/// Any two majorities of the same membership have a member in common.
pub proof fn law_majorities_intersect(s: NodeView, one: Set<NodeId>, other: Set<NodeId>)
    requires
        s.members.finite(),
        one.subset_of(s.members),
        other.subset_of(s.members),
        one.len() >= s.quorum(),
        other.len() >= s.quorum(),
    ensures
        exists|voter: NodeId| one.contains(voter) && other.contains(voter),
{
    if forall|voter: NodeId| !(one.contains(voter) && other.contains(voter)) {
        vstd::set_lib::lemma_len_subset(one, s.members);
        vstd::set_lib::lemma_len_subset(other, s.members);
        assert(one.disjoint(other));
        vstd::set_lib::lemma_set_disjoint_lens(one, other);
        assert(one.union(other).subset_of(s.members));
        vstd::set_lib::lemma_len_subset(one.union(other), s.members);
    }
}

// ── Elections ──────────────────────────────────────────────────────────────

/// The node after `n` ticks in a row, given what a reset would draw.
pub open spec fn ticked(s: NodeView, n: nat, timeout: u32, order: Seq<NodeId>) -> NodeView
    decreases n,
{
    if n == 0 {
        s
    } else {
        ticked(s, (n - 1) as nat, timeout, order).tick(timeout, order)
    }
}

/// A voter that hears nothing stays quiet until its timeout has passed and starts an election on
/// exactly that tick: never before the configured timeout, always before twice the configured
/// timeout.
pub proof fn law_election_fires_on_time(s: NodeView, n: nat, timeout: u32, order: Seq<NodeId>)
    requires
        s.valid(),
        s.role !is Leader,
        s.is_voter,
        s.election_ticks == 0,
        n < s.election_timeout,
    ensures
        ticked(s, n, timeout, order) == (NodeView { election_ticks: n as u32, ..s }),
        n + 1 == s.election_timeout ==> {
            let h = ticked(s, n + 1, timeout, order);
            &&& h.role == (RoleView::Candidate { votes: set![s.id] })
            &&& h.voted_for == Some(s.id)
            &&& s.term < u64::MAX ==> h.term == s.term + 1
        },
        s.election_base <= s.election_timeout <= 2 * s.election_base - 1,
    decreases n,
{
    if n > 0 {
        law_election_fires_on_time(s, (n - 1) as nat, timeout, order);
    }
}

/// A learner takes part in no election of its own: the clock does not move it.
pub proof fn law_learner_starts_no_election(s: NodeView, timeout: u32, order: Seq<NodeId>)
    requires
        s.role !is Leader,
        !s.is_voter,
    ensures
        s.tick(timeout, order) == s,
{
}

/// A learner gives its vote to nobody.
pub proof fn law_learner_grants_no_vote(s: NodeView, from: NodeId, msg: RequestVote, timeout: u32)
    requires
        !s.is_voter,
    ensures
        ({
            let h = s.handle_request_vote(from, msg, timeout);
            &&& h.ready.messages.last() == (
                from,
                MessageView::RequestVoteResponse {
                    from: s.id,
                    msg: RequestVoteResponse { term: h.term, vote_granted: false },
                },
            )
            &&& h.voted_for == (if h.term == s.term {
                s.voted_for
            } else {
                None
            })
        }),
{
}

/// A candidate that collects a majority becomes leader and appends an empty entry of its term,
/// which is persisted and sent to every other member.
pub proof fn law_new_leader_appends_noop(
    s: NodeView,
    from: NodeId,
    msg: RequestVoteResponse,
    timeout: u32,
    order: Seq<NodeId>,
)
    requires
        s.valid(),
        s.accepts(MessageView::RequestVoteResponse { from, msg }),
        s.wins(from, msg),
    ensures
        ({
            let h = s.handle_request_vote_response(from, msg, timeout, order);
            let noop = LogEntryView {
                index: (s.log.last_index() + 1) as LogIndex,
                term: s.term,
                entry_type: EntryType::Normal,
                command: Seq::empty(),
            };
            &&& h.role is Leader
            &&& h.term == s.term
            &&& h.log == s.log.append(noop)
            &&& h.ready.to_persist == s.ready.to_persist.push(noop)
            &&& h.followed() == s.peers()
            &&& h.leader() == Some(s.id)
        }),
{
    let h = s.handle_request_vote_response(from, msg, timeout, order);
    assert(h.followed() =~= s.peers());
}

/// Whoever sends a current snapshot is the leader from then on.
pub proof fn law_snapshot_sender_is_leader(
    s: NodeView,
    from: NodeId,
    msg: crate::message::InstallSnapshotView,
    timeout: u32,
)
    requires
        msg.term >= s.term,
    ensures
        s.handle_install_snapshot(from, msg, timeout).leader() == Some(from),
        s.handle_install_snapshot(from, msg, timeout).term == msg.term,
{
}

// ── The log ────────────────────────────────────────────────────────────────

/// A leader never overwrites or drops an entry: as long as it leads, its log only grows.
pub proof fn law_leader_append_only(
    s: NodeView,
    message: MessageView,
    timeout: u32,
    order: Seq<NodeId>,
)
    requires
        s.valid(),
        s.accepts(message),
        s.role is Leader,
        s.handle(message, timeout, order).role is Leader,
    ensures
        ({
            let h = s.handle(message, timeout, order);
            &&& h.log.base == s.log.base
            &&& h.log.base_term == s.log.base_term
            &&& s.log.entries.is_prefix_of(h.log.entries)
        }),
{
    match message {
        MessageView::AppendEntries { from, msg } => {
            if msg.term >= s.term {
                let follower = s.become_follower(msg.term, Some(from), timeout);
                let merged = follower.merge(msg.prev_log_index, msg.entries);
                let index = merged.commit_target(msg);
                lemma_commit_frame(merged, index, timeout);
            }
        },
        MessageView::AppendEntriesResponse { from, msg } => {
            let credited = s.credit(from, msg.match_index);
            lemma_commit_frame(credited, credited.quorum_index(), timeout);
        },
        MessageView::InstallSnapshotResponse { from, msg } => {
            let credited = s.credit(from, s.installed_index(msg));
            lemma_commit_frame(credited, credited.quorum_index(), timeout);
        },
        _ => {},
    }
}

/// What is committed stays: the commit index never goes down, and every committed entry that is
/// not folded into a snapshot remains what it was. The node stays consistent.
pub proof fn law_committed_entries_stay(
    s: NodeView,
    message: MessageView,
    timeout: u32,
    order: Seq<NodeId>,
)
    requires
        s.valid(),
        s.accepts(message),
        s.consistent(),
        s.agrees_with_committed(message),
    ensures
        ({
            let h = s.handle(message, timeout, order);
            h.consistent() && s.kept_by(h)
        }),
{
    match message {
        MessageView::AppendEntries { from, msg } => {
            lemma_append_keeps_committed(s, from, msg, timeout);
        },
        MessageView::AppendEntriesResponse { from, msg } => {
            let credited = s.credit(from, msg.match_index);
            lemma_commit_frame(credited, credited.quorum_index(), timeout);
            assert(s.kept_by(s.handle(message, timeout, order)));
        },
        MessageView::InstallSnapshotResponse { from, msg } => {
            let credited = s.credit(from, s.installed_index(msg));
            lemma_commit_frame(credited, credited.quorum_index(), timeout);
            assert(s.kept_by(s.handle(message, timeout, order)));
        },
        MessageView::InstallSnapshot { from, msg } => {
            assert(s.kept_by(s.handle(message, timeout, order)));
        },
        MessageView::Propose { command } => {
            lemma_append_own_keeps_committed(s, EntryType::Normal, command, order);
        },
        MessageView::ProposeConfChange { cmd } => {
            let tracking = if cmd.op == ConfChangeOp::Add {
                s.track(cmd.node_id)
            } else {
                s
            };
            lemma_append_own_keeps_committed(
                NodeView { pending_conf_change: true, ..tracking },
                EntryType::ConfChange,
                crate::conf_change::conf_change_bytes(cmd),
                order,
            );
            assert(s.kept_by(s.handle(message, timeout, order)));
        },
        MessageView::RequestVoteResponse { from, msg } => {
            if s.wins(from, msg) {
                let h = s.handle(message, timeout, order);
                law_new_leader_appends_noop(s, from, msg, timeout, order);
                assert(s.kept_by(h));
            }
        },
        MessageView::Tick => {
            assert(s.kept_by(s.handle(message, timeout, order)));
        },
        MessageView::RequestVote { from, msg } => {
            assert(s.kept_by(s.handle(message, timeout, order)));
        },
    }
}

proof fn lemma_append_own_keeps_committed(
    s: NodeView,
    entry_type: EntryType,
    command: Seq<u8>,
    order: Seq<NodeId>,
)
    requires
        s.consistent(),
    ensures
        s.append_own(entry_type, command, order).consistent(),
        s.kept_by(s.append_own(entry_type, command, order)),
{
}

/// A merge that does not contradict the committed prefix keeps it.
proof fn lemma_merge_keeps_committed(
    s: NodeView,
    prev: LogIndex,
    entries: Seq<LogEntryView>,
)
    requires
        s.log.base <= prev <= s.log.last_index(),
        s.log.base <= s.commit <= s.log.last_index(),
        forall|i: int|
            0 <= i < entries.len() && s.log.base < prev + 1 + i <= s.commit ==> s.log.term_at(
                prev + 1 + i,
            ) == Some((#[trigger] entries[i]).term),
    ensures
        s.merge(prev, entries).log.base == s.log.base,
        s.merge(prev, entries).log.last_index() >= s.commit,
        forall|i: int|
            s.log.base < i <= s.commit ==> #[trigger] s.merge(prev, entries).log.at(i) == s.log.at(
                i,
            ),
{
    lemma_held_bounded(s.log, prev as int, entries);
    let held = s.log.held(prev as int, entries);
    if held < entries.len() {
        assert(entries[held as int] == entries[held as int]);
        assert(prev + 1 + held > s.commit);
        if held > 0 {
            assert(s.log.term_at(prev + 1 + (held - 1)) == Some(entries[held - 1].term));
        }
        let merged = s.merge(prev, entries);
        assert forall|i: int| s.log.base < i <= s.commit implies #[trigger] merged.log.at(i)
            == s.log.at(i) by {}
    }
}

proof fn lemma_append_keeps_committed(
    s: NodeView,
    from: NodeId,
    msg: AppendEntriesView,
    timeout: u32,
)
    requires
        s.valid(),
        s.accepts(MessageView::AppendEntries { from, msg }),
        s.consistent(),
        s.agrees_with_committed(MessageView::AppendEntries { from, msg }),
    ensures
        ({
            let h = s.handle_append_entries(from, msg, timeout);
            h.consistent() && s.kept_by(h)
        }),
{
    if msg.term >= s.term && s.log.term_at(msg.prev_log_index as int) == Some(msg.prev_log_term) {
        let follower = s.become_follower(msg.term, Some(from), timeout);
        let merged = follower.merge(msg.prev_log_index, msg.entries);
        lemma_merge_keeps_committed(follower, msg.prev_log_index, msg.entries);
        let index = merged.commit_target(msg);
        lemma_merge_bounded(follower, msg.prev_log_index, msg.entries);
        lemma_commit_frame(merged, index, timeout);
    }
}

proof fn lemma_merge_bounded(s: NodeView, prev: LogIndex, entries: Seq<LogEntryView>)
    requires
        s.log.base <= prev <= s.log.last_index(),
        s.log.last_index() < u64::MAX,
        prev + entries.len() < u64::MAX,
    ensures
        s.merge(prev, entries).log.last_index() < u64::MAX,
        prev + entries.len() <= s.merge(prev, entries).log.last_index(),
{
    lemma_held_bounded(s.log, prev as int, entries);
    let held = s.log.held(prev as int, entries);
    if held > 0 {
        assert(s.log.term_at(prev + 1 + (held - 1)) == Some(entries[held - 1].term));
    }
}

impl NodeView {
    /// Between this state and `later`, exactly the entries between the two applied indexes were
    /// handed out, in log order.
    pub open spec fn hands_out_to(self, later: NodeView) -> bool {
        &&& later.log.base == self.log.base
        &&& self.applied <= later.applied <= later.commit
        &&& later.ready.to_apply == self.ready.to_apply + later.log.entries.subrange(
            self.applied - self.log.base,
            later.applied - self.log.base,
        )
    }
}

/// A committed entry is handed to the state machine exactly once and in log order: what a step
/// hands out is the stretch of the log between the old and the new applied index. Only a snapshot
/// moves the applied index otherwise.
pub proof fn law_entries_applied_in_order(
    s: NodeView,
    message: MessageView,
    timeout: u32,
    order: Seq<NodeId>,
)
    requires
        s.valid(),
        s.accepts(message),
        s.consistent(),
        s.agrees_with_committed(message),
        message !is InstallSnapshot,
    ensures
        s.hands_out_to(s.handle(message, timeout, order)),
{
    let h = s.handle(message, timeout, order);
    match message {
        MessageView::AppendEntries { from, msg } => {
            lemma_append_hands_out(s, from, msg, timeout);
        },
        MessageView::AppendEntriesResponse { from, msg } => {
            lemma_nothing_handed_out(s, s.handle_append_entries_response(from, msg, timeout));
            let credited = s.credit(from, msg.match_index);
            lemma_commit_frame(credited, credited.quorum_index(), timeout);
            assert(s.hands_out_to(h));
        },
        MessageView::InstallSnapshotResponse { from, msg } => {
            lemma_nothing_handed_out(s, s.handle_install_snapshot_response(from, msg, timeout));
            let credited = s.credit(from, s.installed_index(msg));
            lemma_commit_frame(credited, credited.quorum_index(), timeout);
            assert(s.hands_out_to(h));
        },
        MessageView::InstallSnapshot { .. } => {},
        MessageView::Propose { .. } => {
            lemma_nothing_handed_out(s, h);
            assert(s.hands_out_to(h));
        },
        MessageView::ProposeConfChange { .. } => {
            lemma_nothing_handed_out(s, h);
            assert(s.hands_out_to(h));
        },
        MessageView::RequestVoteResponse { .. } => {
            lemma_nothing_handed_out(s, h);
            assert(s.hands_out_to(h));
        },
        MessageView::Tick => {
            lemma_nothing_handed_out(s, h);
            assert(s.hands_out_to(h));
        },
        MessageView::RequestVote { .. } => {
            lemma_nothing_handed_out(s, h);
            assert(s.hands_out_to(h));
        },
    }
}

proof fn lemma_nothing_handed_out(s: NodeView, h: NodeView)
    requires
        s.consistent(),
    ensures
        h.log.base == s.log.base && h.applied == s.applied && h.commit == s.commit
            && h.log.last_index() >= s.log.last_index() && h.ready.to_apply == s.ready.to_apply
            ==> s.hands_out_to(h),
{
    if h.log.base == s.log.base && h.applied == s.applied && h.log.last_index()
        >= s.log.last_index() {
        let here = s.applied - s.log.base;
        assert(h.log.entries.subrange(here, here) =~= Seq::empty());
        assert(s.ready.to_apply + Seq::<LogEntryView>::empty() =~= s.ready.to_apply);
    }
}

proof fn lemma_append_hands_out(s: NodeView, from: NodeId, msg: AppendEntriesView, timeout: u32)
    requires
        s.valid(),
        s.accepts(MessageView::AppendEntries { from, msg }),
        s.consistent(),
        s.agrees_with_committed(MessageView::AppendEntries { from, msg }),
    ensures
        s.hands_out_to(s.handle_append_entries(from, msg, timeout)),
{
    let h = s.handle_append_entries(from, msg, timeout);
    lemma_nothing_handed_out(s, h);
    if msg.term >= s.term && s.log.term_at(msg.prev_log_index as int) == Some(msg.prev_log_term) {
        let follower = s.become_follower(msg.term, Some(from), timeout);
        let merged = follower.merge(msg.prev_log_index, msg.entries);
        lemma_merge_keeps_committed(follower, msg.prev_log_index, msg.entries);
        lemma_merge_bounded(follower, msg.prev_log_index, msg.entries);
        let index = merged.commit_target(msg);
        lemma_commit_frame(merged, index, timeout);
        if index <= s.commit {
            let here = s.applied - s.log.base;
            assert(h.log.entries.subrange(here, here) =~= Seq::empty());
            assert(s.ready.to_apply + Seq::<LogEntryView>::empty() =~= s.ready.to_apply);
        }
    }
}

/// A node applies what it knows to be committed in the very step in which it learns of it: a node
/// that has applied everything committed has done so again after every step.
pub proof fn law_applied_keeps_up_with_commit(
    s: NodeView,
    message: MessageView,
    timeout: u32,
    order: Seq<NodeId>,
)
    requires
        s.applied == s.commit,
    ensures
        s.handle(message, timeout, order).applied == s.handle(message, timeout, order).commit,
{
    match message {
        MessageView::AppendEntries { from, msg } => {
            let follower = s.become_follower(msg.term, Some(from), timeout);
            let merged = follower.merge(msg.prev_log_index, msg.entries);
            lemma_commit_frame(merged, merged.commit_target(msg), timeout);
        },
        MessageView::AppendEntriesResponse { from, msg } => {
            let credited = s.credit(from, msg.match_index);
            lemma_commit_frame(credited, credited.quorum_index(), timeout);
        },
        MessageView::InstallSnapshotResponse { from, msg } => {
            let credited = s.credit(from, s.installed_index(msg));
            lemma_commit_frame(credited, credited.quorum_index(), timeout);
        },
        _ => {},
    }
}

/// A leader moves its commit index only to an entry of its own term that a majority of the
/// voting members holds, itself included.
pub proof fn law_leader_commits_by_majority(
    s: NodeView,
    from: NodeId,
    msg: AppendEntriesResponse,
    timeout: u32,
)
    requires
        s.valid(),
        s.accepts(MessageView::AppendEntriesResponse { from, msg }),
        s.handle_append_entries_response(from, msg, timeout).commit != s.commit,
    ensures
        ({
            let h = s.handle_append_entries_response(from, msg, timeout);
            let credited = s.credit(from, msg.match_index);
            &&& s.role is Leader
            &&& h.commit > s.commit
            &&& s.log.term_at(h.commit as int) == Some(s.term)
            &&& credited.acks(h.commit as int) >= s.quorum()
        }),
{
    let credited = s.credit(from, msg.match_index);
    if s.role is Leader && msg.term == s.term && msg.success {
        lemma_commit_frame(credited, credited.quorum_index(), timeout);
        lemma_quorum_index_exists(credited);
    }
}

/// Every leader has a highest position that a majority holds.
pub proof fn lemma_quorum_index_exists(s: NodeView)
    requires
        s.role is Leader,
        s.members.finite(),
        s.role->matched.dom().finite(),
        s.peers().subset_of(s.role->matched.dom()),
        s.log.last_index() < u64::MAX,
    ensures
        s.is_quorum_index(s.quorum_index()),
{
    let matched = s.role->matched;
    let held = holders(matched, s.members, 0);
    assert(s.peers().subset_of(held));
    vstd::set_lib::lemma_len_subset(s.peers(), held);
    assert(s.acks(0) >= s.quorum());
    // Beyond every acknowledged position, only fewer than a majority can hold anything.
    assert forall|higher: int| higher > u64::MAX implies #[trigger] s.acks(higher) < s.quorum() by {
        assert(holders(matched, s.members, higher) =~= Set::empty());
    }
    lemma_highest_held(s, 0, u64::MAX as int);
}

proof fn lemma_highest_held(s: NodeView, low: int, high: int)
    requires
        0 <= low <= high <= u64::MAX,
        s.acks(low) >= s.quorum(),
        forall|higher: int| higher > high ==> #[trigger] s.acks(higher) < s.quorum(),
    ensures
        exists|index: LogIndex| s.is_quorum_index(index),
    decreases high - low,
{
    if s.acks(high) >= s.quorum() {
        assert(s.is_quorum_index(high as LogIndex));
    } else {
        lemma_highest_held(s, low, high - 1);
    }
}

/// The answer to entries that do not fit never asks the leader to go back into the committed or
/// compacted prefix, and whenever the leader probed beyond that prefix it makes progress: the
/// answer lies at or below the probe.
pub proof fn law_rejection_hint(s: NodeView, from: NodeId, msg: AppendEntriesView, timeout: u32)
    requires
        s.valid(),
        msg.term >= s.term,
        s.log.term_at(msg.prev_log_index as int) != Some(msg.prev_log_term),
    ensures
        ({
            let h = s.handle_append_entries(from, msg, timeout);
            let hint = s.conflict_hint(msg.prev_log_index);
            &&& h.log == s.log
            &&& h.commit == s.commit
            &&& h.ready.messages.last() == (
                from,
                MessageView::AppendEntriesResponse {
                    from: s.id,
                    msg: AppendEntriesResponse {
                        term: msg.term,
                        success: false,
                        match_index: hint,
                    },
                },
            )
            &&& hint > s.commit
            &&& hint > s.log.base
            &&& s.commit <= s.log.last_index() ==> hint <= s.log.last_index() + 1
            &&& msg.prev_log_index > s.commit && msg.prev_log_index > s.log.base ==> hint
                <= msg.prev_log_index
        }),
{
    if s.log.has(msg.prev_log_index as int) {
        lemma_run_start(s.log, msg.prev_log_index as int);
    }
}

/// A rejection only ever moves the position of a peer down, so that a delayed one with a higher
/// hint has no effect; a hint below the position is taken over.
pub proof fn law_backoff_is_monotone(s: NodeView, from: NodeId, hint: LogIndex)
    requires
        s.role matches RoleView::Leader { next, .. } && next.contains_key(from) && next[from] >= 1,
    ensures
        ({
            let before = s.role->next[from];
            let after = s.back_off(from, hint).role->next[from];
            &&& 1 <= after <= before
            &&& 1 <= hint <= before ==> after == hint
            &&& hint >= before ==> after == before
        }),
{
}

/// Entries that a follower already holds are not touched: delivering the same AppendEntries again
/// changes no durable state, writes nothing, applies nothing, and gets the same answer.
pub proof fn law_duplicate_append_is_harmless(
    s: NodeView,
    from: NodeId,
    msg: AppendEntriesView,
    timeout: u32,
    again: u32,
)
    requires
        s.valid(),
        s.may_draw(timeout),
        s.accepts(MessageView::AppendEntries { from, msg }),
        msg.term >= s.term,
        s.log.term_at(msg.prev_log_index as int) == Some(msg.prev_log_term),
    ensures
        ({
            let once = s.handle_append_entries(from, msg, timeout).drained();
            let twice = once.handle_append_entries(from, msg, again);
            &&& twice.term == once.term
            &&& twice.voted_for == once.voted_for
            &&& twice.log == once.log
            &&& twice.commit == once.commit
            &&& twice.applied == once.applied
            &&& twice.members == once.members
            &&& twice.ready.hard_state is None
            &&& twice.ready.to_persist.len() == 0
            &&& twice.ready.to_apply.len() == 0
            &&& twice.ready.messages == seq![
                s.handle_append_entries(from, msg, timeout).ready.messages.last(),
            ]
        }),
{
    let prev = msg.prev_log_index;
    let follower = s.become_follower(msg.term, Some(from), timeout);
    let merged = follower.merge(prev, msg.entries);
    let index = merged.commit_target(msg);
    lemma_merge_bounded(follower, prev, msg.entries);
    lemma_commit_frame(merged, index, timeout);
    lemma_merge_holds(s.log, prev, msg.entries);
    let once = s.handle_append_entries(from, msg, timeout).drained();
    assert(once.log == merged.log);
    let follower_again = once.become_follower(msg.term, Some(from), again);
    assert(follower_again.merge(prev, msg.entries) == follower_again);
    assert(follower_again.commit_target(msg) == index);
}

/// After a merge the log holds every entry of the message.
proof fn lemma_merge_holds(log: LogView, prev: LogIndex, entries: Seq<LogEntryView>)
    requires
        log.base <= prev <= log.last_index(),
    ensures
        ({
            let held = log.held(prev as int, entries);
            let merged = if held < entries.len() {
                log.truncate_and_append(prev + 1 + held, entries.skip(held as int))
            } else {
                log
            };
            &&& merged.held(prev as int, entries) == entries.len()
            &&& merged.term_at(prev as int) == log.term_at(prev as int)
        }),
{
    lemma_held_bounded(log, prev as int, entries);
    let held = log.held(prev as int, entries);
    let merged = if held < entries.len() {
        log.truncate_and_append(prev + 1 + held, entries.skip(held as int))
    } else {
        log
    };
    if held > 0 {
        assert(log.term_at(prev + 1 + (held - 1)) == Some(entries[held - 1].term));
    }
    assert forall|i: int| 0 <= i < entries.len() implies merged.term_at(prev + 1 + i) == Some(
        (#[trigger] entries[i]).term,
    ) by {
        if i < held {
            assert(log.term_at(prev + 1 + i) == Some(entries[i].term));
            assert(merged.at(prev + 1 + i) == log.at(prev + 1 + i));
        } else {
            assert(merged.at(prev + 1 + i) == entries[i]);
        }
    }
    lemma_all_held(merged, prev as int, entries);
}

proof fn lemma_all_held(log: LogView, prev: int, entries: Seq<LogEntryView>)
    requires
        forall|i: int|
            0 <= i < entries.len() ==> log.term_at(prev + 1 + i) == Some(
                (#[trigger] entries[i]).term,
            ),
    ensures
        log.held(prev, entries) == entries.len(),
    decreases entries.len(),
{
    if entries.len() > 0 {
        let rest = entries.skip(1);
        assert(entries[0] == entries[0]);
        assert forall|i: int| 0 <= i < rest.len() implies log.term_at(prev + 1 + 1 + i) == Some(
            (#[trigger] rest[i]).term,
        ) by {
            assert(rest[i] == entries[i + 1]);
        }
        lemma_all_held(log, prev + 1, rest);
    }
}

/// The entries of a message stand at the positions they name.
pub open spec fn well_indexed(message: MessageView) -> bool {
    match message {
        MessageView::AppendEntries { msg, .. } => forall|i: int|
            0 <= i < msg.entries.len() ==> (#[trigger] msg.entries[i]).index == msg.prev_log_index
                + 1 + i,
        _ => true,
    }
}

/// Every entry of the log keeps standing at the position it names.
pub proof fn law_entries_stand_at_their_index(
    s: NodeView,
    message: MessageView,
    timeout: u32,
    order: Seq<NodeId>,
)
    requires
        s.valid(),
        s.accepts(message),
        s.log.indexed(),
        well_indexed(message),
    ensures
        s.handle(message, timeout, order).log.indexed(),
{
    match message {
        MessageView::AppendEntries { from, msg } => {
            if msg.term >= s.term && s.log.term_at(msg.prev_log_index as int) == Some(
                msg.prev_log_term,
            ) {
                let follower = s.become_follower(msg.term, Some(from), timeout);
                let merged = follower.merge(msg.prev_log_index, msg.entries);
                let index = merged.commit_target(msg);
                lemma_held_bounded(s.log, msg.prev_log_index as int, msg.entries);
                let held = s.log.held(msg.prev_log_index as int, msg.entries);
                if held > 0 {
                    assert(s.log.term_at(msg.prev_log_index + 1 + (held - 1)) == Some(
                        msg.entries[held - 1].term,
                    ));
                }
                assert(merged.log.indexed());
                lemma_commit_frame(merged, index, timeout);
            }
        },
        MessageView::AppendEntriesResponse { from, msg } => {
            let credited = s.credit(from, msg.match_index);
            lemma_commit_frame(credited, credited.quorum_index(), timeout);
        },
        MessageView::InstallSnapshotResponse { from, msg } => {
            let credited = s.credit(from, s.installed_index(msg));
            lemma_commit_frame(credited, credited.quorum_index(), timeout);
        },
        _ => {},
    }
}

// ── Restart ────────────────────────────────────────────────────────────────

/// A restarted node resumes with its durable commit index, clamped to what the log holds, stages
/// exactly the committed entries that the snapshot does not cover, and reports no hard state.
pub proof fn law_restart_resumes_commit(s: NodeView, state: RestoreView, timeout: u32)
    requires
        s.valid(),
        s.may_draw(timeout),
        s.role is Follower,
        s.ready == ReadyView::empty(),
        state.log.last_index() < u64::MAX,
    ensures
        ({
            let h = s.restored(state, timeout);
            &&& h.valid()
            &&& h.consistent()
            &&& h.term == state.term
            &&& h.voted_for == state.voted_for
            &&& h.log == state.log
            &&& h.commit == state.resumed_commit()
            &&& state.log.base <= state.commit <= state.log.last_index() ==> h.commit
                == state.commit
            &&& h.applied == h.commit
            &&& h.ready.to_apply == state.log.entries.take(h.commit - state.log.base)
            &&& h.ready.hard_state is None
            &&& h.ready.messages.len() == 0
            &&& h.ready.to_persist.len() == 0
        }),
{
    let loaded = NodeView {
        term: state.term,
        voted_for: state.voted_for,
        log: state.log,
        commit: state.resumed_commit(),
        applied: state.log.base,
        ..s
    };
    lemma_apply_frame(loaded, timeout);
    let h = s.restored(state, timeout);
    assert(h.ready.to_apply =~= state.log.entries.take(h.commit - state.log.base));
}

// ── Membership ─────────────────────────────────────────────────────────────

/// While one membership change is in flight no other is taken, and only a leader takes any.
pub proof fn law_one_membership_change_at_a_time(
    s: NodeView,
    cmd: ConfChangeView,
    order: Seq<NodeId>,
)
    ensures
        s.pending_conf_change || s.role !is Leader ==> s.propose_conf_change(cmd, order) == s,
        s.role is Leader ==> s.propose_conf_change(cmd, order).pending_conf_change,
{
}

/// A node that is replicated to but not yet a member does not count towards any majority:
/// proposing it leaves the majority as it is, and what it acknowledges commits nothing.
pub proof fn law_learner_does_not_count(
    s: NodeView,
    cmd: ConfChangeView,
    order: Seq<NodeId>,
    position: LogIndex,
    index: int,
)
    requires
        s.valid(),
        s.role is Leader,
    ensures
        s.propose_conf_change(cmd, order).members == s.members,
        s.propose_conf_change(cmd, order).quorum() == s.quorum(),
        !s.members.contains(cmd.node_id) ==> s.credit(cmd.node_id, position).acks(index) == s.acks(
            index,
        ),
{
    if !s.members.contains(cmd.node_id) {
        let matched = s.role->matched;
        assert(holders(matched.insert(cmd.node_id, position), s.members, index) =~= holders(
            matched,
            s.members,
            index,
        ));
    }
}

/// A learner becomes a voter when its own addition is applied; a node whose removal is applied
/// stops voting and leading at once.
pub proof fn law_membership_decides_voting(s: NodeView, cmd: ConfChangeView, timeout: u32)
    ensures
        ({
            let h = s.change_membership(cmd, timeout);
            &&& !h.pending_conf_change
            &&& h.ready.membership_change == Some(cmd)
            &&& cmd.op == ConfChangeOp::Add ==> h.members == s.members.insert(cmd.node_id)
                && h.is_voter == (s.is_voter || cmd.node_id == s.id)
            &&& cmd.op == ConfChangeOp::Remove ==> h.members == s.members.remove(cmd.node_id)
                && h.is_voter == (s.is_voter && cmd.node_id != s.id)
            &&& cmd.op == ConfChangeOp::Remove && cmd.node_id == s.id ==> h.role
                == (RoleView::Follower { leader_id: None })
        }),
{
}

} // verus!
