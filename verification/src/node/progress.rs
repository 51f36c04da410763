//! How a node gets on: what peers answer, what becomes committed, what snapshots and membership
//! changes do, and where a node goes on after a restart. Stated by the fields of the node.
use vstd::prelude::*;

use crate::conf_change::{conf_change_bytes, conf_change_decoded};
use crate::config::Config;
use crate::message::{
    AppendEntriesResponse, AppendEntriesView, ConfChangeOp, ConfChangeView, EntryType, HardState,
    InstallSnapshotResponse, InstallSnapshotView, LogEntryView, LogIndex, MessageView, NodeId,
    SnapshotView,
};
use crate::node::RestoreView;
use crate::node::laws::{
    law_hard_state_reported, lemma_apply_frame, lemma_commit_frame, lemma_quorum_index_exists,
};
use crate::node::model::{enumerates, holders, NodeView, ReadyView, RoleView};

verus! {

// ── Committing ─────────────────────────────────────────────────────────────

/// The members that have acknowledged the log up to `index`.
pub open spec fn holding(
    matched: Map<NodeId, LogIndex>,
    members: Set<NodeId>,
    index: int,
) -> Set<NodeId> {
    matched.dom().filter(|p: NodeId| members.contains(p) && matched[p] >= index)
}

/// What a leader may make of an acknowledgement, once it is noted in `matched`: everything up to
/// an entry of its own term that more than half of the members hold, itself included, and the last
/// such.
pub open spec fn commits_by_majority(
    s: NodeView,
    matched: Map<NodeId, LogIndex>,
    h: NodeView,
) -> bool {
    let end = s.log.base + s.log.entries.len();
    &&& h.commit >= s.commit
    &&& h.commit > s.commit ==> {
        &&& h.commit <= end
        &&& s.log.entries[h.commit - s.log.base - 1].term == s.term
        &&& 2 * (holding(matched, s.members, h.commit as int).len() + 1) > s.members.len()
        &&& forall|n: int|
            h.commit < n <= end ==> 2 * (#[trigger] holding(matched, s.members, n).len() + 1)
                <= s.members.len()
    }
    &&& forall|n: int|
        s.commit < n <= end && 2 * (#[trigger] holding(matched, s.members, n).len() + 1)
            > s.members.len() && (forall|i: int|
            n - s.log.base - 1 <= i < s.log.entries.len() ==> (#[trigger] s.log.entries[i]).term
                == s.term) && (forall|p: NodeId| #[trigger]
            matched.contains_key(p) ==> matched[p] <= end) ==> h.commit >= n
}

proof fn lemma_advance(c: NodeView, timeout: u32)
    requires
        c.role is Leader,
        c.members.finite(),
        c.role->matched.dom().finite(),
        c.members.remove(c.id).subset_of(c.role->matched.dom()),
        c.log.base + c.log.entries.len() < u64::MAX,
        c.log.base <= c.commit,
    ensures
        commits_by_majority(c, c.role->matched, c.advance_commit(timeout)),
        c.advance_commit(timeout).commit == c.commit ==> c.advance_commit(timeout) == c,
{
    let matched = c.role->matched;
    let h = c.advance_commit(timeout);
    let end = c.log.base + c.log.entries.len();
    let index = c.quorum_index();
    lemma_quorum_index_exists(c);
    lemma_commit_frame(c, index, timeout);
    assert forall|n: int| #[trigger] holding(matched, c.members, n) == holders(
        matched,
        c.members,
        n,
    ) by {}
    assert forall|n: int| h.commit < n <= end && h.commit > c.commit implies 2 * (
    #[trigger] holding(matched, c.members, n).len() + 1) <= c.members.len() by {
        assert(c.acks(n) < c.quorum());
    }
    assert forall|n: int|
        c.commit < n <= end && 2 * (#[trigger] holding(matched, c.members, n).len() + 1)
            > c.members.len() && (forall|i: int|
            n - c.log.base - 1 <= i < c.log.entries.len() ==> (#[trigger] c.log.entries[i]).term
                == c.term) && (forall|p: NodeId| #[trigger]
            matched.contains_key(p) ==> matched[p] <= end) implies h.commit >= n by {
        assert(c.acks(n) >= c.quorum());
        if index < n {
            assert(c.acks(n) < c.quorum());
        }
        if index > end {
            assert(holders(matched, c.members, index as int) =~= Set::empty());
        }
        assert(c.log.entries[index - c.log.base - 1].term == c.term);
    }
}

/// A leader that a peer acknowledges entries to goes on behind them, and commits what more than
/// half of the members then hold, provided that it is of its own term.
pub proof fn law_acknowledged_entries_are_committed(
    s: NodeView,
    from: NodeId,
    msg: AppendEntriesResponse,
    timeout: u32,
    order: Seq<NodeId>,
)
    requires
        s.role is Leader,
        msg.term == s.term,
        msg.success,
        msg.match_index < u64::MAX,
        s.members.finite(),
        s.role->matched.dom().finite(),
        s.members.remove(s.id).subset_of(s.role->matched.dom()),
        s.log.base + s.log.entries.len() < u64::MAX,
        s.log.base <= s.commit,
    ensures
        ({
            let h = s.handle(MessageView::AppendEntriesResponse { from, msg }, timeout, order);
            let matched = s.role->matched.insert(from, msg.match_index);
            &&& commits_by_majority(s, matched, h)
            &&& h.commit == s.commit ==> h == NodeView {
                role: RoleView::Leader {
                    next: s.role->next.insert(from, (msg.match_index + 1) as LogIndex),
                    matched,
                },
                ..s
            }
            &&& h.log == s.log
            &&& h.term == s.term
            &&& h.ready.messages == s.ready.messages
        }),
{
    let c = s.credit(from, msg.match_index);
    lemma_advance(c, timeout);
    lemma_commit_frame(c, c.quorum_index(), timeout);
}

/// A leader hands out what it commits to be applied: every entry behind the ones that it had
/// committed before, in order, and nothing else.
pub proof fn law_leader_applies_what_it_commits(
    s: NodeView,
    message: MessageView,
    timeout: u32,
    order: Seq<NodeId>,
)
    requires
        s.role is Leader,
        acknowledged(s, message) is Some,
        s.members.finite(),
        s.role->matched.dom().finite(),
        s.members.remove(s.id).subset_of(s.role->matched.dom()),
        s.log.base + s.log.entries.len() < u64::MAX,
        s.log.base <= s.commit <= s.log.base + s.log.entries.len(),
        s.applied == s.commit,
    ensures
        ({
            let h = s.handle(message, timeout, order);
            &&& h.commit >= s.commit
            &&& h.applied == h.commit
            &&& h.ready.to_apply == s.ready.to_apply + s.log.entries.subrange(
                s.commit - s.log.base,
                h.commit - s.log.base,
            )
        }),
{
    let h = s.handle(message, timeout, order);
    let (from, index) = acknowledged(s, message)->0;
    let c = s.credit(from, index);
    lemma_advance(c, timeout);
    lemma_commit_frame(c, c.quorum_index(), timeout);
    assert(h == c.advance_commit(timeout));
    if h == c {
        assert(s.log.entries.subrange(s.commit - s.log.base, s.commit - s.log.base)
            =~= Seq::empty());
        assert(s.ready.to_apply + Seq::<LogEntryView>::empty() =~= s.ready.to_apply);
    } else {
        assert(h.ready.to_apply =~= s.ready.to_apply + s.log.entries.subrange(
            s.commit - s.log.base,
            h.commit - s.log.base,
        ));
    }
}

/// A leader that hears of a snapshot that was installed goes on behind it, or behind its own
/// snapshot if the peer does not say which it was, and commits as for any acknowledgement.
pub proof fn law_installed_snapshot_is_credited(
    s: NodeView,
    from: NodeId,
    msg: InstallSnapshotResponse,
    timeout: u32,
    order: Seq<NodeId>,
)
    requires
        s.role is Leader,
        msg.term == s.term,
        msg.success,
        msg.last_index < u64::MAX,
        s.members.finite(),
        s.role->matched.dom().finite(),
        s.members.remove(s.id).subset_of(s.role->matched.dom()),
        s.log.base + s.log.entries.len() < u64::MAX,
        s.log.base <= s.commit,
    ensures
        ({
            let h = s.handle(MessageView::InstallSnapshotResponse { from, msg }, timeout, order);
            let index = if msg.last_index == 0 {
                s.log.base
            } else {
                msg.last_index
            };
            let matched = s.role->matched.insert(from, index);
            &&& commits_by_majority(s, matched, h)
            &&& h.commit == s.commit ==> h == NodeView {
                role: RoleView::Leader {
                    next: s.role->next.insert(from, (index + 1) as LogIndex),
                    matched,
                },
                ..s
            }
            &&& h.log == s.log
            &&& h.term == s.term
            &&& h.ready.messages == s.ready.messages
        }),
{
    let c = s.credit(from, s.installed_index(msg));
    lemma_advance(c, timeout);
    lemma_commit_frame(c, c.quorum_index(), timeout);
}

/// A leader that a peer rejects entries to goes on with it where the peer says, but not further on
/// than it was, and not before the first entry. Nothing else changes.
pub proof fn law_rejected_entries_are_sent_from_further_back(
    s: NodeView,
    from: NodeId,
    msg: AppendEntriesResponse,
    timeout: u32,
    order: Seq<NodeId>,
)
    requires
        s.role is Leader,
        msg.term == s.term,
        !msg.success,
    ensures
        ({
            let h = s.handle(MessageView::AppendEntriesResponse { from, msg }, timeout, order);
            let known = s.role->next.contains_key(from);
            &&& h == NodeView { role: h.role, ..s }
            &&& h.role matches RoleView::Leader { next, matched }
            &&& matched == s.role->matched
            &&& next == s.role->next.insert(from, next[from])
            &&& next[from] >= 1
            &&& known && msg.match_index >= 1 && s.role->next[from] >= msg.match_index ==> next[from]
                == msg.match_index
            &&& known && s.role->next[from] >= 1 && s.role->next[from] <= msg.match_index
                ==> next[from] == s.role->next[from]
            &&& !known || msg.match_index == 0 || s.role->next[from] == 0 ==> next[from] == 1
        }),
{
}

/// An answer of an earlier term, or one that comes when the node does not lead, changes nothing; an
/// answer of a later term makes the node follow in it. So does a snapshot that was refused.
pub proof fn law_other_answers_change_nothing(
    s: NodeView,
    from: NodeId,
    entries: AppendEntriesResponse,
    snapshot: InstallSnapshotResponse,
    timeout: u32,
    order: Seq<NodeId>,
)
    ensures
        ({
            let h = s.handle(
                MessageView::AppendEntriesResponse { from, msg: entries },
                timeout,
                order,
            );
            &&& entries.term < s.term || entries.term == s.term && s.role !is Leader ==> h == s
            &&& entries.term > s.term ==> follows_in(s, entries.term, timeout, h)
        }),
        ({
            let h = s.handle(
                MessageView::InstallSnapshotResponse { from, msg: snapshot },
                timeout,
                order,
            );
            &&& snapshot.term < s.term || snapshot.term == s.term && (s.role !is Leader
                || !snapshot.success) ==> h == s
            &&& snapshot.term > s.term ==> follows_in(s, snapshot.term, timeout, h)
        }),
{
}

/// The node `h` is the node `s` in a later term, in which it has not voted and knows no leader.
pub open spec fn follows_in(s: NodeView, term: u64, timeout: u32, h: NodeView) -> bool {
    h == NodeView {
        term,
        voted_for: None,
        role: RoleView::Follower { leader_id: None },
        election_ticks: 0,
        election_timeout: timeout,
        ready: ReadyView {
            hard_state: Some(HardState { term, voted_for: None, commit: s.commit }),
            ..s.ready
        },
        ..s
    }
}

// ── Snapshots ──────────────────────────────────────────────────────────────

/// A snapshot of an earlier term is refused. One that covers no more than the node knows to be
/// committed is acknowledged and changes nothing else. Any other takes the place of everything up
/// to its position, is handed out to be installed, and is acknowledged.
pub proof fn law_snapshot_takes_the_place_of_what_it_covers(
    s: NodeView,
    from: NodeId,
    msg: InstallSnapshotView,
    timeout: u32,
    order: Seq<NodeId>,
)
    ensures
        ({
            let h = s.handle(MessageView::InstallSnapshot { from, msg }, timeout, order);
            let last = msg.snapshot.last_index;
            let end = s.log.base + s.log.entries.len();
            let answer = |term: u64, success: bool, index: LogIndex|
                s.ready.messages.push(
                    (
                        from,
                        MessageView::InstallSnapshotResponse {
                            from: s.id,
                            msg: InstallSnapshotResponse { term, success, last_index: index },
                        },
                    ),
                );
            &&& msg.term < s.term ==> h == NodeView {
                ready: ReadyView { messages: answer(s.term, false, 0), ..s.ready },
                ..s
            }
            &&& msg.term >= s.term ==> {
                &&& h.term == msg.term
                &&& h.role == (RoleView::Follower { leader_id: Some(from) })
                &&& h.election_ticks == 0
                &&& h.election_timeout == timeout
                &&& h.members == s.members
                &&& h.ready.messages == answer(msg.term, true, last)
                &&& h.ready.to_apply == s.ready.to_apply
                &&& h.ready.to_persist == s.ready.to_persist
            }
            &&& msg.term >= s.term && last <= s.commit ==> {
                &&& h.log == s.log
                &&& h.commit == s.commit
                &&& h.applied == s.applied
                &&& h.ready.snapshot_to_apply == s.ready.snapshot_to_apply
            }
            &&& msg.term >= s.term && last > s.commit ==> {
                &&& h.commit == last
                &&& h.applied == last
                &&& h.ready.snapshot_to_apply == Some(msg.snapshot)
                &&& h.ready.hard_state == Some(
                    HardState { term: msg.term, voted_for: h.voted_for, commit: last },
                )
                &&& h.log.base == last
                &&& h.log.base_term == msg.snapshot.last_term
                &&& last >= end ==> h.log.entries.len() == 0
                &&& s.log.base <= last < end ==> h.log.entries == s.log.entries.skip(
                    last - s.log.base,
                )
            }
        }),
{
}

// ── Membership ─────────────────────────────────────────────────────────────

/// The membership change that an entry asks for, if any.
pub open spec fn change_in(entry: LogEntryView) -> Option<ConfChangeView> {
    if entry.entry_type == EntryType::ConfChange && entry.command.len() > 0 {
        conf_change_decoded(entry.command)
    } else {
        None
    }
}

/// A set of nodes after the changes in some entries, one after the other.
pub open spec fn changed_by(nodes: Set<NodeId>, entries: Seq<LogEntryView>) -> Set<NodeId>
    decreases entries.len(),
{
    if entries.len() == 0 {
        nodes
    } else {
        let first = match change_in(entries[0]) {
            Some(cmd) => match cmd.op {
                ConfChangeOp::Add => nodes.insert(cmd.node_id),
                ConfChangeOp::Remove => nodes.remove(cmd.node_id),
            },
            None => nodes,
        };
        changed_by(first, entries.skip(1))
    }
}

/// The positions that a leader keeps of its peers, after the changes in some entries. A node that
/// is added begins at `start`, unless the leader has a position of it.
pub open spec fn positions_after(
    positions: Map<NodeId, LogIndex>,
    start: LogIndex,
    entries: Seq<LogEntryView>,
) -> Map<NodeId, LogIndex>
    decreases entries.len(),
{
    if entries.len() == 0 {
        positions
    } else {
        let first = match change_in(entries[0]) {
            Some(cmd) => if cmd.op == ConfChangeOp::Remove {
                positions.remove(cmd.node_id)
            } else if positions.contains_key(cmd.node_id) {
                positions
            } else {
                positions.insert(cmd.node_id, start)
            },
            None => positions,
        };
        positions_after(first, start, entries.skip(1))
    }
}

/// Whether a node votes after the changes in some entries.
pub open spec fn votes_after(votes: bool, id: NodeId, entries: Seq<LogEntryView>) -> bool
    decreases entries.len(),
{
    if entries.len() == 0 {
        votes
    } else {
        let first = match change_in(entries[0]) {
            Some(cmd) => if cmd.node_id == id {
                cmd.op == ConfChangeOp::Add
            } else {
                votes
            },
            None => votes,
        };
        votes_after(first, id, entries.skip(1))
    }
}

/// The last change in some entries, or the one before them.
pub open spec fn latest_change(
    before: Option<ConfChangeView>,
    entries: Seq<LogEntryView>,
) -> Option<ConfChangeView>
    decreases entries.len(),
{
    if entries.len() == 0 {
        before
    } else {
        latest_change(
            if change_in(entries[0]) is Some {
                change_in(entries[0])
            } else {
                before
            },
            entries.skip(1),
        )
    }
}

/// One of the entries changes the membership.
pub open spec fn changes(entries: Seq<LogEntryView>) -> bool {
    exists|i: int| 0 <= i < entries.len() && change_in(#[trigger] entries[i]) is Some
}

/// One of the entries removes the node.
pub open spec fn removes(entries: Seq<LogEntryView>, node: NodeId) -> bool {
    exists|i: int|
        0 <= i < entries.len() && (change_in(#[trigger] entries[i]) matches Some(cmd) && cmd.op
            == ConfChangeOp::Remove && cmd.node_id == node)
}

/// One of the entries adds the node.
pub open spec fn adds(entries: Seq<LogEntryView>, node: NodeId) -> bool {
    exists|i: int|
        0 <= i < entries.len() && (change_in(#[trigger] entries[i]) matches Some(cmd) && cmd.op
            == ConfChangeOp::Add && cmd.node_id == node)
}

/// The node `h` has handed out `entries` since it was `s`, and the changes in them have taken
/// effect. A leader starts to replicate to a node that is added, at the end of its log, and no
/// longer replicates to one that is removed. A node that is itself removed steps down.
pub open spec fn changed_with(s: NodeView, h: NodeView, entries: Seq<LogEntryView>) -> bool {
    let end = s.log.base + s.log.entries.len();
    &&& h.ready.to_apply == s.ready.to_apply + entries
    &&& h.members == changed_by(s.members, entries)
    &&& h.is_voter == votes_after(s.is_voter, s.id, entries)
    &&& h.pending_conf_change == (s.pending_conf_change && !changes(entries))
    &&& h.ready.membership_change == latest_change(s.ready.membership_change, entries)
    &&& removes(entries, s.id) ==> h.role == (RoleView::Follower { leader_id: None })
    &&& !removes(entries, s.id) ==> h.role == match s.role {
        RoleView::Leader { next, matched } => RoleView::Leader {
            next: positions_after(next, (end + 1) as LogIndex, entries),
            matched: positions_after(matched, 0, entries),
        },
        role => role,
    }
}

proof fn lemma_nothing_changed(s: NodeView)
    ensures
        changed_with(s, s, Seq::empty()),
{
    assert(s.ready.to_apply + Seq::<LogEntryView>::empty() =~= s.ready.to_apply);
}

proof fn lemma_parts(entry: LogEntryView, rest: Seq<LogEntryView>, node: NodeId)
    ensures
        (seq![entry] + rest).skip(1) == rest,
        changes(seq![entry] + rest) == (change_in(entry) is Some || changes(rest)),
        removes(seq![entry] + rest, node) == ((change_in(entry) matches Some(cmd) && cmd.op
            == ConfChangeOp::Remove && cmd.node_id == node) || removes(rest, node)),
        adds(seq![entry] + rest, node) == ((change_in(entry) matches Some(cmd) && cmd.op
            == ConfChangeOp::Add && cmd.node_id == node) || adds(rest, node)),
{
    let all = seq![entry] + rest;
    assert(all.skip(1) =~= rest);
    assert(all[0] == entry);
    assert forall|i: int| 0 <= i < rest.len() implies #[trigger] rest[i] == all[i + 1] by {}
    assert forall|i: int| 1 <= i < all.len() implies #[trigger] all[i] == rest[i - 1] by {}
}

/// Applying what is committed hands out a run of entries, and the changes in them take effect.
proof fn lemma_changed(s: NodeView, timeout: u32) -> (entries: Seq<LogEntryView>)
    ensures
        changed_with(s, s.apply_committed(timeout), entries),
    decreases s.commit - s.applied,
{
    if s.applied < s.commit {
        let m = s.apply_next(timeout);
        let rest = lemma_changed(m, timeout);
        let h = m.apply_committed(timeout);
        if s.log.has(s.applied + 1) {
            let entry = s.log.at(s.applied + 1);
            let entries = seq![entry] + rest;
            lemma_parts(entry, rest, s.id);
            assert(s.ready.to_apply.push(entry) + rest =~= s.ready.to_apply + entries);
            assert(entries[0] == entry);
            entries
        } else {
            rest
        }
    } else {
        lemma_nothing_changed(s);
        Seq::empty()
    }
}

proof fn lemma_positions_domain(
    positions: Map<NodeId, LogIndex>,
    start: LogIndex,
    entries: Seq<LogEntryView>,
)
    ensures
        positions_after(positions, start, entries).dom() == changed_by(positions.dom(), entries),
    decreases entries.len(),
{
    if entries.len() > 0 {
        match change_in(entries[0]) {
            Some(cmd) => if cmd.op == ConfChangeOp::Remove {
                lemma_positions_domain(positions.remove(cmd.node_id), start, entries.skip(1));
            } else if positions.contains_key(cmd.node_id) {
                assert(positions.dom().insert(cmd.node_id) =~= positions.dom());
                lemma_positions_domain(positions, start, entries.skip(1));
            } else {
                lemma_positions_domain(
                    positions.insert(cmd.node_id, start),
                    start,
                    entries.skip(1),
                );
            },
            None => lemma_positions_domain(positions, start, entries.skip(1)),
        }
    }
}

/// What a step hands out to be applied, behind what was waiting before.
pub open spec fn handed_out(s: NodeView, h: NodeView) -> Seq<LogEntryView> {
    h.ready.to_apply.skip(s.ready.to_apply.len() as int)
}

proof fn lemma_committed_changes(s: NodeView, index: LogIndex, timeout: u32)
    ensures
        changed_with(
            s,
            s.commit_to(index, timeout),
            handed_out(s, s.commit_to(index, timeout)),
        ),
{
    let moved = NodeView { commit: index, ..s }.emit_hard_state();
    let entries = lemma_changed(moved, timeout);
    assert((s.ready.to_apply + entries).skip(s.ready.to_apply.len() as int) =~= entries);
}

/// The membership of `h` is that of `s` after the changes that it has handed out since.
pub open spec fn membership_follows(s: NodeView, h: NodeView) -> bool {
    let entries = handed_out(s, h);
    &&& h.ready.to_apply == s.ready.to_apply + entries
    &&& h.members == changed_by(s.members, entries)
    &&& h.is_voter == votes_after(s.is_voter, s.id, entries)
    &&& h.ready.membership_change == latest_change(s.ready.membership_change, entries)
}

proof fn lemma_membership_kept(s: NodeView, h: NodeView)
    requires
        h.ready.to_apply == s.ready.to_apply,
        h.members == s.members,
        h.is_voter == s.is_voter,
        h.ready.membership_change == s.ready.membership_change,
    ensures
        membership_follows(s, h),
        handed_out(s, h) == Seq::<LogEntryView>::empty(),
        !changes(handed_out(s, h)),
{
    assert(handed_out(s, h) =~= Seq::empty());
    assert(s.ready.to_apply + Seq::<LogEntryView>::empty() =~= s.ready.to_apply);
}

proof fn lemma_append_entries_changes(
    s: NodeView,
    from: NodeId,
    msg: AppendEntriesView,
    timeout: u32,
)
    ensures
        ({
            let h = s.handle_append_entries(from, msg, timeout);
            &&& membership_follows(s, h)
            &&& h.pending_conf_change == (s.pending_conf_change && !changes(handed_out(s, h)))
            &&& h.role !is Leader || msg.term < s.term && h.role == s.role
        }),
{
    let h = s.handle_append_entries(from, msg, timeout);
    let follower = s.become_follower(msg.term, Some(from), timeout);
    let merged = follower.merge(msg.prev_log_index, msg.entries);
    let target = merged.commit_target(msg);
    if msg.term >= s.term && follower.log.term_at(msg.prev_log_index as int) == Some(
        msg.prev_log_term,
    ) && target > merged.commit {
        let moved = merged.commit_to(target, timeout);
        lemma_committed_changes(merged, target, timeout);
        assert(h.ready.to_apply == moved.ready.to_apply);
        assert(handed_out(s, h) == handed_out(merged, moved));
    } else {
        lemma_membership_kept(s, h);
    }
}

proof fn lemma_acknowledgement_changes(
    s: NodeView,
    from: NodeId,
    index: LogIndex,
    timeout: u32,
)
    requires
        s.role is Leader,
    ensures
        ({
            let c = s.credit(from, index);
            let h = c.advance_commit(timeout);
            &&& membership_follows(s, h)
            &&& changed_with(c, h, handed_out(s, h))
        }),
{
    let c = s.credit(from, index);
    let h = c.advance_commit(timeout);
    lemma_nothing_changed(c);
    if h == c {
        lemma_membership_kept(s, h);
    } else {
        lemma_committed_changes(c, c.quorum_index(), timeout);
    }
}

/// The members of a node, and whether it votes, follow from the membership changes that it has
/// handed out as applied, and so does what it reports of them. A change that was proposed is
/// pending until one is applied.
pub proof fn law_membership_follows_the_applied_changes(
    s: NodeView,
    message: MessageView,
    timeout: u32,
    order: Seq<NodeId>,
)
    ensures
        ({
            let h = s.handle(message, timeout, order);
            let entries = handed_out(s, h);
            &&& h.ready.to_apply == s.ready.to_apply + entries
            &&& h.members == changed_by(s.members, entries)
            &&& h.is_voter == votes_after(s.is_voter, s.id, entries)
            &&& h.ready.membership_change == latest_change(s.ready.membership_change, entries)
            &&& h.pending_conf_change == (if message is ProposeConfChange && s.role is Leader {
                true
            } else {
                s.pending_conf_change && !changes(entries)
            })
        }),
{
    let h = s.handle(message, timeout, order);
    match message {
        MessageView::AppendEntries { from, msg } => {
            lemma_append_entries_changes(s, from, msg, timeout);
        },
        MessageView::AppendEntriesResponse { from, msg } => if s.role is Leader && msg.term
            == s.term && msg.success {
            lemma_acknowledgement_changes(s, from, msg.match_index, timeout);
        } else {
            lemma_membership_kept(s, h);
        },
        MessageView::InstallSnapshotResponse { from, msg } => if s.role is Leader && msg.term
            == s.term && msg.success {
            lemma_acknowledgement_changes(s, from, s.installed_index(msg), timeout);
        } else {
            lemma_membership_kept(s, h);
        },
        _ => {
            lemma_membership_kept(s, h);
        },
    }
}

/// The position that a successful answer acknowledges, if the message is one to this leader.
pub open spec fn acknowledged(s: NodeView, message: MessageView) -> Option<(NodeId, LogIndex)> {
    match message {
        MessageView::AppendEntriesResponse { from, msg } => if msg.success && msg.term == s.term {
            Some((from, msg.match_index))
        } else {
            None
        },
        MessageView::InstallSnapshotResponse { from, msg } => if msg.success && msg.term
            == s.term {
            Some(
                (
                    from,
                    if msg.last_index == 0 {
                        s.log.base
                    } else {
                        msg.last_index
                    },
                ),
            )
        } else {
            None
        },
        _ => None,
    }
}

/// A leader that applies entries on an acknowledgement starts to replicate to the nodes that they
/// add, at the end of its log, and stops replicating to those that they remove. If they remove the
/// leader itself, it steps down.
pub proof fn law_leader_replicates_to_the_membership(
    s: NodeView,
    message: MessageView,
    timeout: u32,
    order: Seq<NodeId>,
)
    requires
        s.role is Leader,
        acknowledged(s, message) is Some,
    ensures
        ({
            let h = s.handle(message, timeout, order);
            let (from, index) = acknowledged(s, message)->0;
            let end = s.log.base + s.log.entries.len();
            let entries = handed_out(s, h);
            let next = s.role->next.insert(from, (index + 1) as LogIndex);
            let matched = s.role->matched.insert(from, index);
            &&& removes(entries, s.id) ==> h.role == (RoleView::Follower { leader_id: None })
            &&& !removes(entries, s.id) ==> {
                &&& h.role == (RoleView::Leader {
                    next: positions_after(next, (end + 1) as LogIndex, entries),
                    matched: positions_after(matched, 0, entries),
                })
                &&& h.role->next.dom() == changed_by(next.dom(), entries)
                &&& h.role->matched.dom() == changed_by(matched.dom(), entries)
            }
        }),
{
    let h = s.handle(message, timeout, order);
    let (from, index) = acknowledged(s, message)->0;
    let end = s.log.base + s.log.entries.len();
    let entries = handed_out(s, h);
    lemma_acknowledgement_changes(s, from, index, timeout);
    lemma_positions_domain(
        s.role->next.insert(from, (index + 1) as LogIndex),
        (end + 1) as LogIndex,
        entries,
    );
    lemma_positions_domain(s.role->matched.insert(from, index), 0, entries);
}

/// Once a leader has applied the removal of another node, the peers that it replicates to, and
/// those whose acknowledgements it keeps, are the earlier ones without that node. Their positions
/// are as they were.
pub proof fn law_removed_peer_is_dropped(
    s: NodeView,
    message: MessageView,
    timeout: u32,
    order: Seq<NodeId>,
    removal: LogEntryView,
    peer: NodeId,
)
    requires
        s.role is Leader,
        acknowledged(s, message) is Some,
        handed_out(s, s.handle(message, timeout, order)) == seq![removal],
        removal.entry_type == EntryType::ConfChange,
        removal.command.len() > 0,
        conf_change_decoded(removal.command) matches Some(cmd) && cmd.op == ConfChangeOp::Remove
            && cmd.node_id == peer,
        peer != s.id,
    ensures
        ({
            let h = s.handle(message, timeout, order);
            let (from, index) = acknowledged(s, message)->0;
            &&& h.members == s.members.remove(peer)
            &&& h.role == (RoleView::Leader {
                next: s.role->next.insert(from, (index + 1) as LogIndex).remove(peer),
                matched: s.role->matched.insert(from, index).remove(peer),
            })
        }),
{
    law_leader_replicates_to_the_membership(s, message, timeout, order);
    law_membership_follows_the_applied_changes(s, message, timeout, order);
    let entries = seq![removal];
    assert(entries[0] == removal);
    assert(entries.skip(1) =~= Seq::empty());
    reveal_with_fuel(changed_by, 2);
    reveal_with_fuel(positions_after, 2);
}

/// Once a leader has applied the addition of a node, that node is a member, and the leader
/// replicates to it: from where it was with it, or from the end of its log.
pub proof fn law_added_peer_is_replicated_to(
    s: NodeView,
    message: MessageView,
    timeout: u32,
    order: Seq<NodeId>,
    addition: LogEntryView,
    peer: NodeId,
)
    requires
        s.role is Leader,
        acknowledged(s, message) is Some,
        handed_out(s, s.handle(message, timeout, order)) == seq![addition],
        addition.entry_type == EntryType::ConfChange,
        addition.command.len() > 0,
        conf_change_decoded(addition.command) matches Some(cmd) && cmd.op == ConfChangeOp::Add
            && cmd.node_id == peer,
        s.log.base + s.log.entries.len() < u64::MAX,
    ensures
        ({
            let h = s.handle(message, timeout, order);
            let (from, index) = acknowledged(s, message)->0;
            let next = s.role->next.insert(from, (index + 1) as LogIndex);
            let matched = s.role->matched.insert(from, index);
            &&& h.members == s.members.insert(peer)
            &&& h.role is Leader
            &&& h.role->next == (if next.contains_key(peer) {
                next
            } else {
                next.insert(peer, (s.log.base + s.log.entries.len() + 1) as LogIndex)
            })
            &&& h.role->matched == (if matched.contains_key(peer) {
                matched
            } else {
                matched.insert(peer, 0)
            })
        }),
{
    law_leader_replicates_to_the_membership(s, message, timeout, order);
    law_membership_follows_the_applied_changes(s, message, timeout, order);
    let entries = seq![addition];
    assert(entries[0] == addition);
    assert(entries.skip(1) =~= Seq::empty());
    reveal_with_fuel(changed_by, 2);
    reveal_with_fuel(positions_after, 2);
}

/// A leader that no longer knows a node neither sends it anything nor asks for a snapshot for it.
pub open spec fn has_forgotten(s: NodeView, node: NodeId) -> bool {
    &&& !s.members.contains(node)
    &&& s.role matches RoleView::Leader { next, .. } ==> !next.contains_key(node)
}

/// The node that sends the message, if it is an RPC or an answer.
pub open spec fn sender(message: MessageView) -> Option<NodeId> {
    match message {
        MessageView::RequestVote { from, .. } => Some(from),
        MessageView::RequestVoteResponse { from, .. } => Some(from),
        MessageView::AppendEntries { from, .. } => Some(from),
        MessageView::AppendEntriesResponse { from, .. } => Some(from),
        MessageView::InstallSnapshot { from, .. } => Some(from),
        MessageView::InstallSnapshotResponse { from, .. } => Some(from),
        _ => None,
    }
}

proof fn lemma_still_unchanged(nodes: Set<NodeId>, entries: Seq<LogEntryView>, node: NodeId)
    requires
        !nodes.contains(node),
        !adds(entries, node),
    ensures
        !changed_by(nodes, entries).contains(node),
    decreases entries.len(),
{
    if entries.len() > 0 {
        let rest = entries.skip(1);
        assert(entries =~= seq![entries[0]] + rest);
        lemma_parts(entries[0], rest, node);
        match change_in(entries[0]) {
            Some(cmd) => match cmd.op {
                ConfChangeOp::Add => lemma_still_unchanged(
                    nodes.insert(cmd.node_id),
                    rest,
                    node,
                ),
                ConfChangeOp::Remove => lemma_still_unchanged(
                    nodes.remove(cmd.node_id),
                    rest,
                    node,
                ),
            },
            None => lemma_still_unchanged(nodes, rest, node),
        }
    }
}

proof fn lemma_broadcast_reaches_the_listed(s: NodeView, order: Seq<NodeId>, node: NodeId)
    requires
        !order.contains(node),
    ensures
        ({
            let h = s.broadcast(order);
            &&& forall|i: int|
                s.ready.messages.len() <= i < h.ready.messages.len()
                    ==> (#[trigger] h.ready.messages[i]).0 != node
            &&& forall|i: int|
                s.ready.snapshot_to_send.len() <= i < h.ready.snapshot_to_send.len()
                    ==> #[trigger] h.ready.snapshot_to_send[i] != node
        }),
{
    if s.role is Leader {
        let h = s.broadcast(order);
        let next = s.role->next;
        let ahead = |p: NodeId| next[p] > s.log.base;
        let behind = |p: NodeId| next[p] <= s.log.base;
        if order.filter(ahead).contains(node) {
            order.lemma_filter_contains_rev(ahead, node);
        }
        if order.filter(behind).contains(node) {
            order.lemma_filter_contains_rev(behind, node);
        }
        let sent = order.filter(ahead).map_values(|p: NodeId| (p, s.append_message(next[p])));
        let listed = order.filter(behind);
        assert forall|i: int|
            s.ready.messages.len() <= i < h.ready.messages.len() implies (
        #[trigger] h.ready.messages[i]).0 != node by {
            assert(h.ready.messages[i] == sent[i - s.ready.messages.len()]);
            assert(order.filter(ahead).contains(
                order.filter(ahead)[i - s.ready.messages.len()],
            ));
        }
        assert forall|i: int|
            s.ready.snapshot_to_send.len() <= i < h.ready.snapshot_to_send.len() implies
        #[trigger] h.ready.snapshot_to_send[i] != node by {
            assert(h.ready.snapshot_to_send[i] == listed[i - s.ready.snapshot_to_send.len()]);
            assert(listed.contains(listed[i - s.ready.snapshot_to_send.len()]));
        }
    }
}

proof fn lemma_append_own_leaves_alone(
    s: NodeView,
    entry_type: EntryType,
    command: Seq<u8>,
    order: Seq<NodeId>,
    node: NodeId,
)
    requires
        !order.contains(node),
    ensures
        ({
            let h = s.append_own(entry_type, command, order);
            &&& h.role == s.role
            &&& h.members == s.members
            &&& forall|i: int|
                s.ready.messages.len() <= i < h.ready.messages.len()
                    ==> (#[trigger] h.ready.messages[i]).0 != node
            &&& forall|i: int|
                s.ready.snapshot_to_send.len() <= i < h.ready.snapshot_to_send.len()
                    ==> #[trigger] h.ready.snapshot_to_send[i] != node
        }),
{
    let entry = LogEntryView {
        index: (s.log.last_index() + 1) as LogIndex,
        term: s.term,
        entry_type,
        command,
    };
    let longer = NodeView {
        log: s.log.append(entry),
        ready: ReadyView { to_persist: s.ready.to_persist.push(entry), ..s.ready },
        ..s
    };
    lemma_broadcast_reaches_the_listed(longer, order, node);
}

proof fn lemma_append_entries_answers(
    s: NodeView,
    from: NodeId,
    msg: AppendEntriesView,
    timeout: u32,
)
    ensures
        ({
            let h = s.handle_append_entries(from, msg, timeout);
            &&& h.ready.messages == s.ready.messages.push((from, h.ready.messages.last().1))
            &&& h.ready.snapshot_to_send == s.ready.snapshot_to_send
        }),
{
    let merged = s.become_follower(msg.term, Some(from), timeout).merge(
        msg.prev_log_index,
        msg.entries,
    );
    lemma_commit_frame(merged, merged.commit_target(msg), timeout);
}

proof fn lemma_acknowledgement_leaves_alone(
    s: NodeView,
    from: NodeId,
    index: LogIndex,
    timeout: u32,
    node: NodeId,
)
    requires
        s.role is Leader,
        from != node,
        has_forgotten(s, node),
        !adds(handed_out(s, s.credit(from, index).advance_commit(timeout)), node),
    ensures
        ({
            let h = s.credit(from, index).advance_commit(timeout);
            &&& has_forgotten(h, node)
            &&& h.ready.messages == s.ready.messages
            &&& h.ready.snapshot_to_send == s.ready.snapshot_to_send
        }),
{
    let c = s.credit(from, index);
    let h = c.advance_commit(timeout);
    let entries = handed_out(s, h);
    let next = s.role->next.insert(from, (index + 1) as LogIndex);
    lemma_acknowledgement_changes(s, from, index, timeout);
    lemma_commit_frame(c, c.quorum_index(), timeout);
    lemma_still_unchanged(s.members, entries, node);
    lemma_still_unchanged(next.dom(), entries, node);
    lemma_positions_domain(
        next,
        (s.log.base + s.log.entries.len() + 1) as LogIndex,
        entries,
    );
}

/// A node that a node has forgotten is left alone: it is sent nothing but the answer to what it
/// sends itself, no snapshot is asked for it, and it stays forgotten, until a change adds it again
/// or it acknowledges entries itself.
pub proof fn law_removed_node_is_left_alone(
    s: NodeView,
    message: MessageView,
    timeout: u32,
    order: Seq<NodeId>,
    node: NodeId,
)
    requires
        node != s.id,
        has_forgotten(s, node),
        sender(message) != Some(node),
        message matches MessageView::ProposeConfChange { cmd } ==> cmd.node_id != node,
        enumerates(order, s.contacts(message)),
        !adds(handed_out(s, s.handle(message, timeout, order)), node),
    ensures
        ({
            let h = s.handle(message, timeout, order);
            &&& has_forgotten(h, node)
            &&& forall|i: int|
                s.ready.messages.len() <= i < h.ready.messages.len()
                    ==> (#[trigger] h.ready.messages[i]).0 != node
            &&& forall|i: int|
                s.ready.snapshot_to_send.len() <= i < h.ready.snapshot_to_send.len()
                    ==> #[trigger] h.ready.snapshot_to_send[i] != node
        }),
{
    let h = s.handle(message, timeout, order);
    let entries = handed_out(s, h);
    law_membership_follows_the_applied_changes(s, message, timeout, order);
    lemma_still_unchanged(s.members, entries, node);
    assert(order.to_set().contains(node) == order.contains(node));
    match message {
        MessageView::Tick => {
            lemma_broadcast_reaches_the_listed(
                NodeView { heartbeat_ticks: 0, ..s },
                order,
                node,
            );
            if s.role !is Leader && s.election_due() {
                assert forall|i: int|
                    s.ready.messages.len() <= i < h.ready.messages.len() implies (
                #[trigger] h.ready.messages[i]).0 != node by {
                    assert(order.contains(order[i - s.ready.messages.len()]));
                }
            }
        },
        MessageView::Propose { command } => {
            lemma_append_own_leaves_alone(s, EntryType::Normal, command, order, node);
        },
        MessageView::ProposeConfChange { cmd } => if s.takes_conf_change() {
            let tracking = NodeView {
                pending_conf_change: true,
                ..if cmd.op == ConfChangeOp::Add {
                    s.track(cmd.node_id)
                } else {
                    s
                }
            };
            lemma_append_own_leaves_alone(
                tracking,
                EntryType::ConfChange,
                conf_change_bytes(cmd),
                order,
                node,
            );
        },
        MessageView::RequestVoteResponse { from, msg } => if s.wins(from, msg) {
            let last = s.log.last_index();
            let leader = NodeView {
                role: RoleView::Leader {
                    next: Map::new(
                        |p: NodeId| s.peers().contains(p),
                        |p: NodeId| (last + 1) as LogIndex,
                    ),
                    matched: Map::new(
                        |p: NodeId| s.peers().contains(p),
                        |p: NodeId| 0 as LogIndex,
                    ),
                },
                heartbeat_ticks: 0,
                ..s
            };
            lemma_append_own_leaves_alone(leader, EntryType::Normal, Seq::empty(), order, node);
        },
        MessageView::AppendEntries { from, msg } => {
            lemma_append_entries_changes(s, from, msg, timeout);
            lemma_append_entries_answers(s, from, msg, timeout);
        },
        MessageView::AppendEntriesResponse { from, msg } => if s.role is Leader && msg.term
            == s.term && msg.success {
            lemma_acknowledgement_leaves_alone(s, from, msg.match_index, timeout, node);
        },
        MessageView::InstallSnapshotResponse { from, msg } => if s.role is Leader && msg.term
            == s.term && msg.success {
            lemma_acknowledgement_leaves_alone(s, from, s.installed_index(msg), timeout, node);
        },
        _ => {},
    }
}

/// As long as nothing brings a removed node back, it is left alone for good: in no step of a run is
/// it sent anything, and in none is a snapshot asked for it.
pub proof fn law_removed_node_is_left_alone_for_good(
    states: Seq<NodeView>,
    messages: Seq<MessageView>,
    timeouts: Seq<u32>,
    orders: Seq<Seq<NodeId>>,
    node: NodeId,
    n: int,
)
    requires
        0 <= n <= messages.len(),
        states.len() == messages.len() + 1,
        timeouts.len() == messages.len(),
        orders.len() == messages.len(),
        node != states[0].id,
        has_forgotten(states[0], node),
        forall|i: int|
            #![trigger messages[i]]
            0 <= i < messages.len() ==> {
                let h = states[i].handle(messages[i], timeouts[i], orders[i]);
                &&& states[i].ready.messages.len() == 0
                &&& states[i].ready.snapshot_to_send.len() == 0
                &&& enumerates(orders[i], states[i].contacts(messages[i]))
                &&& sender(messages[i]) != Some(node)
                &&& messages[i] matches MessageView::ProposeConfChange { cmd } ==> cmd.node_id
                    != node
                &&& !adds(handed_out(states[i], h), node)
                &&& states[i + 1] == h.drained()
            },
    ensures
        has_forgotten(states[n], node),
        states[n].id == states[0].id,
        n < messages.len() ==> {
            let output = states[n].handle(messages[n], timeouts[n], orders[n]).ready;
            &&& forall|k: int|
                0 <= k < output.messages.len() ==> (#[trigger] output.messages[k]).0 != node
            &&& !output.snapshot_to_send.contains(node)
        },
    decreases n,
{
    if n > 0 {
        law_removed_node_is_left_alone_for_good(
            states,
            messages,
            timeouts,
            orders,
            node,
            n - 1,
        );
        let s = states[n - 1];
        let message = messages[n - 1];
        law_removed_node_is_left_alone(s, message, timeouts[n - 1], orders[n - 1], node);
        lemma_id_stays(s, message, timeouts[n - 1], orders[n - 1]);
        assert(states[n] == s.handle(message, timeouts[n - 1], orders[n - 1]).drained());
    }
    if n < messages.len() {
        law_removed_node_is_left_alone(states[n], messages[n], timeouts[n], orders[n], node);
    }
}

proof fn lemma_id_stays(s: NodeView, message: MessageView, timeout: u32, order: Seq<NodeId>)
    ensures
        s.handle(message, timeout, order).id == s.id,
{
    match message {
        MessageView::AppendEntries { from, msg } => {
            let merged = s.become_follower(msg.term, Some(from), timeout).merge(
                msg.prev_log_index,
                msg.entries,
            );
            lemma_commit_frame(merged, merged.commit_target(msg), timeout);
        },
        MessageView::AppendEntriesResponse { from, msg } => {
            let c = s.credit(from, msg.match_index);
            lemma_commit_frame(c, c.quorum_index(), timeout);
        },
        MessageView::InstallSnapshotResponse { from, msg } => {
            let c = s.credit(from, s.installed_index(msg));
            lemma_commit_frame(c, c.quorum_index(), timeout);
        },
        _ => {},
    }
}

/// Whenever a step changes the term, the vote or the commit index, all three are handed out to be
/// made durable; otherwise nothing new is.
pub proof fn law_hard_state_is_handed_out_whole(
    s: NodeView,
    message: MessageView,
    timeout: u32,
    order: Seq<NodeId>,
)
    requires
        message is Tick ==> s.term < u64::MAX,
    ensures
        ({
            let h = s.handle(message, timeout, order);
            let changed = h.term != s.term || h.voted_for != s.voted_for || h.commit != s.commit;
            &&& changed ==> h.ready.hard_state == Some(
                HardState { term: h.term, voted_for: h.voted_for, commit: h.commit },
            )
            &&& !changed ==> h.ready.hard_state == s.ready.hard_state
        }),
{
    if !(message is Tick && s.role is Leader) {
        law_hard_state_reported(s, message, timeout, order);
    }
}

// ── Starting, and starting again ───────────────────────────────────────────

/// A new node follows nobody in term zero, has voted for nobody and has an empty log. Its members
/// are the configured peers and itself, and its timers are the configured ones.
pub proof fn law_new_node_has_seen_nothing(config: Config, is_voter: bool, timeout: u32)
    ensures
        ({
            let s = NodeView::fresh(config, is_voter, timeout);
            &&& s.id == config.id
            &&& s.role == (RoleView::Follower { leader_id: None })
            &&& s.term == 0
            &&& s.voted_for is None
            &&& s.log.base == 0
            &&& s.log.base_term == 0
            &&& s.log.entries.len() == 0
            &&& s.commit == 0
            &&& s.applied == 0
            &&& s.is_voter == is_voter
            &&& !s.pending_conf_change
            &&& s.election_base == config.election_timeout
            &&& s.heartbeat_timeout == config.heartbeat_timeout
            &&& s.max_entries == config.max_entries_per_append
            &&& s.election_ticks == 0
            &&& s.election_timeout == timeout
            &&& s.heartbeat_ticks == 0
            &&& s.ready.hard_state is None
            &&& s.ready.messages.len() == 0
            &&& s.ready.to_persist.len() == 0
            &&& s.ready.to_apply.len() == 0
            &&& s.ready.snapshot_to_send.len() == 0
            &&& s.ready.snapshot_to_apply is None
            &&& s.ready.membership_change is None
            &&& s.members.contains(config.id)
            &&& forall|i: int|
                0 <= i < config.peers@.len() ==> s.members.contains(#[trigger] config.peers@[i])
            &&& forall|node: NodeId| #[trigger]
                s.members.contains(node) ==> node == config.id || config.peers@.contains(node)
        }),
{
    let s = NodeView::fresh(config, is_voter, timeout);
    assert forall|i: int| 0 <= i < config.peers@.len() implies s.members.contains(
        #[trigger] config.peers@[i],
    ) by {
        assert(config.peers@.to_set().contains(config.peers@[i]));
    }
}

/// A leader names itself, a follower names the leader that it follows, and a candidate nobody.
pub proof fn law_known_leader(s: NodeView, leader: NodeId)
    ensures
        s.leader() == Some(leader) <==> (s.role is Leader && leader == s.id) || s.role == (
        RoleView::Follower { leader_id: Some(leader) }),
        s.role is Candidate ==> s.leader() is None,
{
}

/// A node that starts again has the durable term, vote and log. It resumes at the durable commit
/// index, but at the snapshot if that is further on, and at the end of its log if that is not as
/// far. It hands out what is committed behind the snapshot, and the membership changes in it take
/// effect.
pub proof fn law_restart_goes_on_from_durable_state(
    s: NodeView,
    state: RestoreView,
    timeout: u32,
)
    requires
        state.log.base + state.log.entries.len() <= u64::MAX,
        s.ready.to_apply.len() == 0,
    ensures
        ({
            let h = s.restored(state, timeout);
            let end = state.log.base + state.log.entries.len();
            let staged = state.log.entries.take(h.commit - state.log.base);
            &&& h.id == s.id
            &&& h.term == state.term
            &&& h.voted_for == state.voted_for
            &&& h.log == state.log
            &&& state.commit <= state.log.base ==> h.commit == state.log.base
            &&& state.log.base <= state.commit <= end ==> h.commit == state.commit
            &&& state.commit >= end ==> h.commit == end
            &&& h.applied == h.commit
            &&& h.ready.to_apply == staged
            &&& h.members == changed_by(s.members, staged)
            &&& h.is_voter == votes_after(s.is_voter, s.id, staged)
            &&& h.ready.membership_change == latest_change(s.ready.membership_change, staged)
            &&& h.ready.messages == s.ready.messages
            &&& h.ready.to_persist == s.ready.to_persist
            &&& h.ready.hard_state == s.ready.hard_state
            &&& h.ready.snapshot_to_send == s.ready.snapshot_to_send
            &&& h.ready.snapshot_to_apply == s.ready.snapshot_to_apply
        }),
{
    let loaded = NodeView {
        term: state.term,
        voted_for: state.voted_for,
        log: state.log,
        commit: state.resumed_commit(),
        applied: state.log.base,
        ..s
    };
    let h = s.restored(state, timeout);
    let staged = state.log.entries.take(h.commit - state.log.base);
    lemma_apply_frame(loaded, timeout);
    let entries = lemma_changed(loaded, timeout);
    assert(h.ready.to_apply =~= entries);
    assert(h.ready.to_apply =~= staged);
}

/// A node that takes a snapshot in place of its whole log has applied exactly what the snapshot
/// covers. Its term, its vote and its members stay.
pub proof fn law_snapshot_replaces_the_log(s: NodeView, snapshot: SnapshotView, timeout: u32)
    requires
        s.ready.to_apply.len() == 0,
    ensures
        ({
            let h = s.rebased(snapshot, timeout);
            &&& h.term == s.term
            &&& h.voted_for == s.voted_for
            &&& h.log.base == snapshot.last_index
            &&& h.log.base_term == snapshot.last_term
            &&& h.log.entries.len() == 0
            &&& h.commit == snapshot.last_index
            &&& h.applied == snapshot.last_index
            &&& h.members == s.members
            &&& h.is_voter == s.is_voter
            &&& h.role == s.role
            &&& h.ready == s.ready
        }),
{
}

// ── What a node can take ───────────────────────────────────────────────────

/// Every message can be taken but for those that leave no room for one more term or index, those
/// that make a leader contact a peer that claims more entries than the leader has, and snapshots
/// that go back behind the one that the log starts with.
pub proof fn law_messages_that_can_be_taken(s: NodeView, message: MessageView)
    ensures
        ({
            let end = s.log.base + s.log.entries.len();
            let no_peer_behind = |last: int|
                s.role matches RoleView::Leader { next, .. } ==> forall|p: NodeId| #[trigger]
                    next.contains_key(p) ==> next[p] <= last + 1;
            s.accepts(message) == match message {
                MessageView::Tick => {
                    &&& s.role !is Leader && s.is_voter && s.election_ticks + 1
                        >= s.election_timeout ==> s.term < u64::MAX
                    &&& s.heartbeat_ticks + 1 >= s.heartbeat_timeout ==> no_peer_behind(end)
                },
                MessageView::Propose { .. } => end + 1 < u64::MAX && no_peer_behind(end + 1),
                MessageView::ProposeConfChange { .. } => end + 1 < u64::MAX && (
                s.pending_conf_change || no_peer_behind(end + 1)),
                MessageView::RequestVote { .. } => true,
                MessageView::RequestVoteResponse { .. } => end + 1 < u64::MAX,
                MessageView::AppendEntries { msg, .. } => msg.prev_log_index + msg.entries.len()
                    < u64::MAX,
                MessageView::AppendEntriesResponse { msg, .. } => msg.match_index < u64::MAX
                    || s.role !is Leader || msg.term != s.term || !msg.success,
                MessageView::InstallSnapshot { msg, .. } => msg.snapshot.last_index < u64::MAX && (
                msg.term < s.term || msg.snapshot.last_index <= s.commit
                    || msg.snapshot.last_index >= s.log.base),
                MessageView::InstallSnapshotResponse { msg, .. } => msg.last_index < u64::MAX
                    || s.role !is Leader || msg.term != s.term || !msg.success,
            }
        }),
{
}

/// A node is valid as long as its timers run within their bounds, its indexes leave room for one
/// more, and a leader keeps the account of all other members.
pub proof fn law_nodes_that_are_valid(s: NodeView)
    requires
        s.members.finite(),
        s.log.base + s.log.entries.len() < u64::MAX,
        s.log.base <= s.applied < u64::MAX,
        s.commit < u64::MAX,
        0 < s.election_base,
        2 * s.election_base <= u32::MAX,
        s.election_base <= s.election_timeout < 2 * s.election_base,
        s.election_ticks < s.election_timeout,
        s.heartbeat_ticks == 0 || s.heartbeat_ticks < s.heartbeat_timeout,
        s.role matches RoleView::Candidate { votes } ==> votes.finite(),
        s.role matches RoleView::Leader { next, matched } ==> next.dom().finite()
            && matched.dom().finite() && forall|p: NodeId| #[trigger]
            s.members.contains(p) && p != s.id ==> matched.contains_key(p),
    ensures
        s.valid(),
{
    if s.role is Leader {
        assert forall|p: NodeId| s.peers().contains(p) implies #[trigger]
        s.role->matched.dom().contains(p) by {
            assert(s.members.contains(p));
        }
    }
}

} // verus!
