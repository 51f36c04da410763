//! What each message does to a node, field by field.
//!
//! Nothing here goes through the names of the transitions: a term at an index is looked up in the
//! entries, a majority is counted, and a message is written out.
use vstd::prelude::*;

use crate::conf_change::conf_change_bytes;
use crate::log::LogView;
use crate::message::{
    AppendEntriesResponse, AppendEntriesView, ConfChangeOp, ConfChangeView, EntryType, LogEntryView,
    LogIndex, MessageView, NodeId, RequestVote, RequestVoteResponse, Term,
};
use crate::node::laws::{lemma_commit_frame, lemma_held_bounded};
use crate::node::model::{enumerates, NodeView, ReadyView, RoleView};

verus! {

/// A step hands over everything that has come together, and leaves the node with nothing pending.
pub proof fn law_step_hands_over_its_output(
    s: NodeView,
    message: MessageView,
    timeout: u32,
    order: Seq<NodeId>,
    after: NodeView,
    ready: ReadyView,
)
    requires
        s.stepped(message, timeout, order, after, ready),
    ensures
        ready == s.handle(message, timeout, order).ready,
        after == (NodeView {
            ready: ReadyView {
                hard_state: None,
                messages: Seq::empty(),
                to_persist: Seq::empty(),
                to_apply: Seq::empty(),
                snapshot_to_send: Seq::empty(),
                snapshot_to_apply: None,
                membership_change: None,
            },
            ..s.handle(message, timeout, order)
        }),
{
}

/// Whatever timeout is drawn, it is at least the configured one and less than twice that.
pub proof fn law_drawn_timeouts_are_in_range(s: NodeView, timeout: u32)
    ensures
        s.may_draw(timeout) <==> s.election_base <= timeout && timeout < 2 * s.election_base,
{
}

// ── Entries from the leader ────────────────────────────────────────────────

/// A follower whose log matches at the position before the entries follows the commit index of the
/// leader, as far as the message vouches for its log, and applies what it learns to be committed.
pub proof fn law_follower_follows_the_commit_index(
    s: NodeView,
    from: NodeId,
    msg: AppendEntriesView,
    timeout: u32,
    order: Seq<NodeId>,
)
    requires
        msg.term >= s.term,
        s.log.base + s.log.entries.len() < u64::MAX,
        msg.prev_log_index + msg.entries.len() < u64::MAX,
        s.log.base <= msg.prev_log_index <= s.log.base + s.log.entries.len(),
        msg.prev_log_term == (if msg.prev_log_index == s.log.base {
            s.log.base_term
        } else {
            s.log.entries[msg.prev_log_index - s.log.base - 1].term
        }),
    ensures
        ({
            let h = s.handle(MessageView::AppendEntries { from, msg }, timeout, order);
            let vouched = if msg.entries.len() == 0 {
                s.log.base + s.log.entries.len()
            } else {
                msg.prev_log_index + msg.entries.len()
            };
            let told = if msg.leader_commit < vouched {
                msg.leader_commit as int
            } else {
                vouched
            };
            &&& h.commit == (if told > s.commit {
                told
            } else {
                s.commit as int
            })
            &&& h.applied == (if told > s.commit && told > s.applied {
                told
            } else {
                s.applied as int
            })
            &&& h.ready.hard_state == (if told > s.commit || msg.term > s.term {
                Some(h.hard_state())
            } else {
                s.ready.hard_state
            })
            &&& told <= s.commit ==> h.ready.to_apply == s.ready.to_apply
            &&& told > s.commit && s.log.base <= s.applied <= s.commit ==> h.ready.to_apply
                == s.ready.to_apply + h.log.entries.subrange(
                s.applied - s.log.base,
                told - s.log.base,
            )
        }),
{
    let follower = s.become_follower(msg.term, Some(from), timeout);
    let merged = follower.merge(msg.prev_log_index, msg.entries);
    lemma_held_bounded(s.log, msg.prev_log_index as int, msg.entries);
    let held = s.log.held(msg.prev_log_index as int, msg.entries);
    if held > 0 {
        assert(s.log.term_at(msg.prev_log_index + 1 + (held - 1)) == Some(
            msg.entries[held - 1].term,
        ));
    }
    assert(merged.log.base == s.log.base);
    assert(msg.prev_log_index + msg.entries.len() <= merged.log.last_index());
    lemma_commit_frame(merged, merged.commit_target(msg), timeout);
}

/// Entries that fit are taken over: what the log holds in common with them stays, and from the
/// first difference on the log is what the leader sent. What is new is persisted, and the leader
/// is told how far the log now agrees with its own.
pub proof fn law_follower_takes_over_entries(
    s: NodeView,
    from: NodeId,
    msg: AppendEntriesView,
    timeout: u32,
    order: Seq<NodeId>,
    common: int,
)
    requires
        msg.term >= s.term,
        s.log.base + s.log.entries.len() < u64::MAX,
        msg.prev_log_index + msg.entries.len() < u64::MAX,
        s.log.base <= msg.prev_log_index <= s.log.base + s.log.entries.len(),
        msg.prev_log_term == (if msg.prev_log_index == s.log.base {
            s.log.base_term
        } else {
            s.log.entries[msg.prev_log_index - s.log.base - 1].term
        }),
        0 <= common <= msg.entries.len(),
        msg.prev_log_index - s.log.base + common <= s.log.entries.len(),
        forall|i: int|
            0 <= i < common ==> (#[trigger] msg.entries[i]).term == s.log.entries[msg.prev_log_index
                - s.log.base + i].term,
        common < msg.entries.len() ==> msg.prev_log_index - s.log.base + common
            == s.log.entries.len() || msg.entries[common].term != s.log.entries[msg.prev_log_index
            - s.log.base + common].term,
    ensures
        ({
            let h = s.handle(MessageView::AppendEntries { from, msg }, timeout, order);
            &&& h.log == (LogView {
                base: s.log.base,
                base_term: s.log.base_term,
                entries: if common < msg.entries.len() {
                    s.log.entries.take(msg.prev_log_index - s.log.base + common)
                        + msg.entries.skip(common)
                } else {
                    s.log.entries
                },
            })
            &&& h.ready.to_persist == s.ready.to_persist + msg.entries.skip(common)
            &&& h.term == msg.term
            &&& h.role is Follower
            &&& h.commit == s.commit ==> h.role == (RoleView::Follower { leader_id: Some(from) })
            &&& h.ready.messages == s.ready.messages.push(
                (
                    from,
                    MessageView::AppendEntriesResponse {
                        from: s.id,
                        msg: AppendEntriesResponse {
                            term: msg.term,
                            success: true,
                            match_index: (msg.prev_log_index + msg.entries.len()) as LogIndex,
                        },
                    },
                ),
            )
            &&& h.election_ticks == 0
            &&& h.election_timeout == timeout
        }),
{
    let prev = msg.prev_log_index as int;
    let follower = s.become_follower(msg.term, Some(from), timeout);
    let merged = follower.merge(msg.prev_log_index, msg.entries);
    lemma_held_bounded(s.log, prev, msg.entries);
    let held = s.log.held(prev, msg.entries);
    if held > 0 {
        assert(s.log.term_at(prev + 1 + (held - 1)) == Some(msg.entries[held - 1].term));
    }
    if held < common {
        assert(msg.entries[held as int].term == s.log.entries[prev - s.log.base + held].term);
        assert(s.log.term_at(prev + 1 + held) == Some(msg.entries[held as int].term));
    }
    if common < held {
        assert(s.log.term_at(prev + 1 + common) == Some(msg.entries[common].term));
    }
    assert(held == common);
    if common == msg.entries.len() {
        assert(msg.entries.skip(common) =~= Seq::empty());
        assert(s.ready.to_persist + msg.entries.skip(common) =~= s.ready.to_persist);
    } else {
        assert(s.log.entries.take(s.log.entries.len() as int) =~= s.log.entries);
    }
    lemma_follower_stays(merged, merged.commit_target(msg), timeout);
    lemma_commit_frame(merged, merged.commit_target(msg), timeout);
}

/// Applying does not make a leader or a candidate of a follower, and does not move its timer
/// unless it draws.
proof fn lemma_follower_stays(s: NodeView, index: LogIndex, timeout: u32)
    requires
        s.role is Follower,
        s.election_ticks == 0,
        s.election_timeout == timeout,
    ensures
        s.commit_to(index, timeout).role is Follower,
        s.commit_to(index, timeout).election_ticks == 0,
        s.commit_to(index, timeout).election_timeout == timeout,
{
    lemma_applying_follower(NodeView { commit: index, ..s }.emit_hard_state(), timeout);
}

proof fn lemma_applying_follower(s: NodeView, timeout: u32)
    requires
        s.role is Follower,
        s.election_ticks == 0,
        s.election_timeout == timeout,
    ensures
        s.apply_committed(timeout).role is Follower,
        s.apply_committed(timeout).election_ticks == 0,
        s.apply_committed(timeout).election_timeout == timeout,
    decreases s.commit - s.applied,
{
    if s.applied < s.commit {
        lemma_applying_follower(s.apply_next(timeout), timeout);
    }
}

/// Entries of an earlier term change nothing and are refused with the term that the node is in.
pub proof fn law_stale_entries_are_refused(
    s: NodeView,
    from: NodeId,
    msg: AppendEntriesView,
    timeout: u32,
    order: Seq<NodeId>,
)
    requires
        msg.term < s.term,
    ensures
        s.handle(MessageView::AppendEntries { from, msg }, timeout, order) == (NodeView {
            ready: ReadyView {
                messages: s.ready.messages.push(
                    (
                        from,
                        MessageView::AppendEntriesResponse {
                            from: s.id,
                            msg: AppendEntriesResponse {
                                term: s.term,
                                success: false,
                                match_index: 0,
                            },
                        },
                    ),
                ),
                ..s.ready
            },
            ..s
        }),
{
}

/// Entries that do not fit are rejected. The answer names where to go on: behind the end of a log
/// that is too short, behind the snapshot if the position is covered, or else at the first entry
/// of the term that stands at the position, but never inside what is committed or compacted.
pub proof fn law_entries_that_do_not_fit_are_rejected(
    s: NodeView,
    from: NodeId,
    msg: AppendEntriesView,
    timeout: u32,
    order: Seq<NodeId>,
)
    requires
        msg.term >= s.term,
        s.log.base + s.log.entries.len() < u64::MAX,
        s.commit < u64::MAX,
        msg.prev_log_index < s.log.base || msg.prev_log_index > s.log.base + s.log.entries.len()
            || msg.prev_log_term != (if msg.prev_log_index == s.log.base {
            s.log.base_term
        } else {
            s.log.entries[msg.prev_log_index - s.log.base - 1].term
        }),
    ensures
        ({
            let h = s.handle(MessageView::AppendEntries { from, msg }, timeout, order);
            let end = s.log.base + s.log.entries.len();
            let at = |i: int| s.log.entries[i - s.log.base - 1].term;
            &&& h.log == s.log
            &&& h.commit == s.commit
            &&& h.applied == s.applied
            &&& h.members == s.members
            &&& h.term == msg.term
            &&& h.role == (RoleView::Follower { leader_id: Some(from) })
            &&& h.ready.to_persist == s.ready.to_persist
            &&& h.ready.to_apply == s.ready.to_apply
            &&& h.ready.messages.len() == s.ready.messages.len() + 1
            &&& h.ready.messages.drop_last() == s.ready.messages
            &&& h.ready.messages.last().0 == from
            &&& h.ready.messages.last().1 matches MessageView::AppendEntriesResponse {
                from: me,
                msg: answer,
            }
            &&& me == s.id
            &&& answer.term == msg.term
            &&& !answer.success
            &&& answer.match_index > s.commit
            &&& answer.match_index > s.log.base
            &&& msg.prev_log_index > end ==> answer.match_index == (if end < s.commit {
                s.commit + 1
            } else {
                end + 1
            })
            &&& msg.prev_log_index <= s.log.base ==> answer.match_index == (if s.log.base
                < s.commit {
                s.commit + 1
            } else {
                s.log.base + 1
            })
            &&& s.log.base < msg.prev_log_index <= end ==> {
                &&& answer.match_index <= msg.prev_log_index || answer.match_index == s.commit + 1
                &&& forall|i: int|
                    answer.match_index <= i <= msg.prev_log_index ==> #[trigger] at(i) == at(
                        msg.prev_log_index as int,
                    )
                &&& answer.match_index == s.commit + 1 || answer.match_index == s.log.base + 1
                    || at(answer.match_index - 1) != at(msg.prev_log_index as int)
            }
        }),
{
    let h = s.handle(MessageView::AppendEntries { from, msg }, timeout, order);
    assert(h.ready.messages.drop_last() =~= s.ready.messages);
    if s.log.base < msg.prev_log_index <= s.log.base + s.log.entries.len() {
        lemma_run(s.log, msg.prev_log_index as int);
        let at = |i: int| s.log.entries[i - s.log.base - 1].term;
        let start = s.log.run_start(msg.prev_log_index as int);
        assert forall|i: int| start <= i <= msg.prev_log_index implies #[trigger] at(i) == at(
            msg.prev_log_index as int,
        ) by {
            assert(s.log.at(i).term == s.log.at(msg.prev_log_index as int).term);
        }
    }
}

/// The run of equal terms that ends at an index.
proof fn lemma_run(log: LogView, index: int)
    requires
        log.base < index <= log.base + log.entries.len(),
    ensures
        ({
            let start = log.run_start(index);
            &&& log.base < start <= index
            &&& forall|i: int|
                start <= i <= index ==> (#[trigger] log.at(i)).term == log.at(index).term
            &&& start == log.base + 1 || log.entries[start - 1 - log.base - 1].term
                != log.entries[index - log.base - 1].term
        }),
    decreases index - log.base,
{
    if log.has(index - 1) && log.at(index - 1).term == log.at(index).term {
        lemma_run(log, index - 1);
    }
}

// ── Votes ──────────────────────────────────────────────────────────────────

/// A vote is granted exactly if the node votes, the request is not of an earlier term, the log of
/// the candidate ends in a later term or in the same term and not before this one's, and the node
/// has not voted for another candidate in that term. The candidate is told either way.
pub proof fn law_vote_is_granted_exactly_when_due(
    s: NodeView,
    from: NodeId,
    msg: RequestVote,
    timeout: u32,
    order: Seq<NodeId>,
)
    ensures
        ({
            let h = s.handle(MessageView::RequestVote { from, msg }, timeout, order);
            let last = s.log.base + s.log.entries.len();
            let last_term = if s.log.entries.len() == 0 {
                s.log.base_term
            } else {
                s.log.entries[s.log.entries.len() - 1].term
            };
            let complete = msg.last_log_term > last_term || msg.last_log_term == last_term
                && msg.last_log_index >= last;
            let free = msg.term > s.term || s.voted_for is None || s.voted_for == Some(from);
            let granted = s.is_voter && msg.term >= s.term && complete && free;
            &&& h.ready.messages == s.ready.messages.push(
                (
                    from,
                    MessageView::RequestVoteResponse {
                        from: s.id,
                        msg: RequestVoteResponse {
                            term: if msg.term > s.term {
                                msg.term
                            } else {
                                s.term
                            },
                            vote_granted: granted,
                        },
                    },
                ),
            )
            &&& h.term == (if msg.term > s.term {
                msg.term
            } else {
                s.term
            })
            &&& h.voted_for == (if granted {
                Some(from)
            } else if msg.term > s.term {
                None
            } else {
                s.voted_for
            })
            &&& h.role == (if msg.term > s.term {
                RoleView::Follower { leader_id: None }
            } else {
                s.role
            })
            &&& h.log == s.log
            &&& h.commit == s.commit
            &&& h.applied == s.applied
            &&& h.members == s.members
        }),
{
}

/// A majority of the voting members is enough, and less is not: a candidate leads once the votes
/// that it has, with the one that comes in, are more than half of the members.
pub proof fn law_majority_of_votes_elects(
    s: NodeView,
    from: NodeId,
    msg: RequestVoteResponse,
    timeout: u32,
    order: Seq<NodeId>,
    votes: Set<NodeId>,
)
    requires
        s.role == (RoleView::Candidate { votes }),
        msg.term == s.term,
        msg.vote_granted,
    ensures
        ({
            let h = s.handle(MessageView::RequestVoteResponse { from, msg }, timeout, order);
            &&& h.term == s.term
            &&& 2 * votes.insert(from).len() > s.members.len() <==> h.role is Leader
            &&& 2 * votes.insert(from).len() <= s.members.len() ==> h == (NodeView {
                role: RoleView::Candidate { votes: votes.insert(from) },
                ..s
            })
        }),
{
}

/// A vote that is refused, that is of another term, or that nobody asked for any more does not
/// count. A later term is adopted, and the node follows in it.
pub proof fn law_other_vote_answers_do_not_count(
    s: NodeView,
    from: NodeId,
    msg: RequestVoteResponse,
    timeout: u32,
    order: Seq<NodeId>,
)
    requires
        s.role !is Candidate || msg.term != s.term || !msg.vote_granted,
    ensures
        ({
            let h = s.handle(MessageView::RequestVoteResponse { from, msg }, timeout, order);
            &&& msg.term <= s.term ==> h == s
            &&& msg.term > s.term ==> {
                &&& h.term == msg.term
                &&& h.voted_for is None
                &&& h.role == (RoleView::Follower { leader_id: None })
                &&& h.log == s.log
                &&& h.commit == s.commit
                &&& h.members == s.members
                &&& h.ready.messages == s.ready.messages
            }
        }),
{
}

// ── What a leader sends ────────────────────────────────────────────────────

/// What a leader sends to a peer that it goes on with at `next`: everything from there on that it
/// has, but no more than a message may hold, with the position and term in front of it.
pub open spec fn goes_on_at(h: NodeView, next: LogIndex, message: MessageView) -> bool {
    let skipped = next - h.log.base - 1;
    &&& message matches MessageView::AppendEntries { from, msg }
    &&& from == h.id
    &&& msg.leader_id == h.id
    &&& msg.term == h.term
    &&& msg.leader_commit == h.commit
    &&& msg.prev_log_index == next - 1
    &&& msg.prev_log_term == (if skipped == 0 {
        h.log.base_term
    } else {
        h.log.entries[skipped - 1].term
    })
    &&& msg.entries.len() == (if h.log.entries.len() - skipped <= h.max_entries {
        h.log.entries.len() - skipped
    } else {
        h.max_entries as int
    })
    &&& forall|i: int|
        0 <= i < msg.entries.len() ==> #[trigger] msg.entries[i] == h.log.entries[skipped + i]
}

/// Every peer that the leader replicates to is contacted once: with the entries that it lacks, or,
/// if those are compacted away, by a snapshot. Nobody else is.
pub open spec fn contacts_every_peer(
    h: NodeView,
    messages: Seq<(NodeId, MessageView)>,
    lagging: Seq<NodeId>,
) -> bool {
    &&& h.role matches RoleView::Leader { next, .. }
    &&& forall|i: int|
        0 <= i < messages.len() ==> {
            let (peer, message) = #[trigger] messages[i];
            next.contains_key(peer) && next[peer] > h.log.base && goes_on_at(
                h,
                next[peer],
                message,
            )
        }
    &&& forall|i: int|
        0 <= i < lagging.len() ==> next.contains_key(#[trigger] lagging[i]) && next[lagging[i]]
            <= h.log.base
    &&& forall|peer: NodeId| #[trigger]
        next.contains_key(peer) && next[peer] > h.log.base ==> exists|i: int|
            0 <= i < messages.len() && (#[trigger] messages[i]).0 == peer
    &&& forall|peer: NodeId| #[trigger]
        next.contains_key(peer) && next[peer] <= h.log.base ==> lagging.contains(peer)
    &&& forall|i: int, j: int|
        0 <= i < j < messages.len() ==> (#[trigger] messages[i]).0 != (#[trigger] messages[j]).0
    &&& lagging.no_duplicates()
}

/// The filter of a sequence without duplicates has none.
proof fn lemma_filter_distinct(order: Seq<NodeId>, pred: spec_fn(NodeId) -> bool)
    requires
        order.no_duplicates(),
    ensures
        order.filter(pred).no_duplicates(),
        forall|p: NodeId| #[trigger]
            order.filter(pred).contains(p) <==> order.contains(p) && pred(p),
    decreases order.len(),
{
    reveal(Seq::filter);
    if order.len() > 0 {
        let rest = order.drop_last();
        let last = order.last();
        lemma_filter_distinct(rest, pred);
        let kept = rest.filter(pred);
        assert(!rest.contains(last));
        assert forall|p: NodeId| #[trigger]
            order.filter(pred).contains(p) <==> order.contains(p) && pred(p) by {
            if order.contains(p) && p != last {
                let i = choose|i: int| 0 <= i < order.len() && order[i] == p;
                assert(rest[i] == p);
            }
            if rest.contains(p) {
                let i = choose|i: int| 0 <= i < rest.len() && rest[i] == p;
                assert(order[i] == p);
            }
            if kept.contains(p) && pred(last) {
                let i = choose|i: int| 0 <= i < kept.len() && kept[i] == p;
                assert(order.filter(pred)[i] == p);
            }
            if pred(last) {
                assert(order.filter(pred)[kept.len() as int] == last);
            }
            assert(order[order.len() - 1] == last);
        }
        if kept.contains(last) {
            assert(rest.contains(last));
        }
        assert(order.filter(pred) =~= if pred(last) {
            kept.push(last)
        } else {
            kept
        });
    }
}

/// A broadcast contacts every peer, and changes nothing but the output.
pub(crate) proof fn lemma_broadcast(s: NodeView, order: Seq<NodeId>)
    requires
        s.role is Leader,
        enumerates(order, s.role->next.dom()),
        s.log.base + s.log.entries.len() < u64::MAX,
        forall|p: NodeId| #[trigger]
            s.role->next.contains_key(p) ==> s.role->next[p] <= s.log.base + s.log.entries.len()
                + 1,
    ensures
        ({
            let h = s.broadcast(order);
            let old = s.ready.messages.len() as int;
            let lagged = s.ready.snapshot_to_send.len() as int;
            &&& h == NodeView {
                ready: ReadyView {
                    messages: h.ready.messages,
                    snapshot_to_send: h.ready.snapshot_to_send,
                    ..s.ready
                },
                ..s
            }
            &&& h.ready.messages.len() >= old
            &&& h.ready.messages.take(old) == s.ready.messages
            &&& h.ready.snapshot_to_send.len() >= lagged
            &&& h.ready.snapshot_to_send.take(lagged) == s.ready.snapshot_to_send
            &&& contacts_every_peer(
                h,
                h.ready.messages.skip(old),
                h.ready.snapshot_to_send.skip(lagged),
            )
        }),
{
    let next = s.role->next;
    let h = s.broadcast(order);
    let old = s.ready.messages.len() as int;
    let lagged = s.ready.snapshot_to_send.len() as int;
    let near = |p: NodeId| next[p] > s.log.base;
    let far = |p: NodeId| next[p] <= s.log.base;
    lemma_filter_distinct(order, near);
    lemma_filter_distinct(order, far);
    let told = order.filter(near);
    let messages = h.ready.messages.skip(old);
    let lagging = h.ready.snapshot_to_send.skip(lagged);
    assert(messages =~= told.map_values(|p: NodeId| (p, s.append_message(next[p]))));
    assert(lagging =~= order.filter(far));
    assert(h.ready.messages.take(old) =~= s.ready.messages);
    assert(h.ready.snapshot_to_send.take(lagged) =~= s.ready.snapshot_to_send);
    assert forall|p: NodeId| order.contains(p) <==> next.contains_key(p) by {
        assert(order.to_set().contains(p) <==> order.contains(p));
        assert(order.to_set().contains(p) <==> next.dom().contains(p));
    }
    assert forall|i: int| 0 <= i < messages.len() implies {
        let (peer, message) = #[trigger] messages[i];
        next.contains_key(peer) && next[peer] > h.log.base && goes_on_at(h, next[peer], message)
    } by {
        let p = told[i];
        assert(told.contains(p));
        assert(messages[i] == (p, s.append_message(next[p])));
    }
    assert forall|i: int| 0 <= i < lagging.len() implies next.contains_key(#[trigger] lagging[i])
        && next[lagging[i]] <= h.log.base by {
        assert(lagging.contains(lagging[i]));
    }
    assert forall|peer: NodeId| #[trigger]
        next.contains_key(peer) && next[peer] > h.log.base implies exists|i: int|
        0 <= i < messages.len() && (#[trigger] messages[i]).0 == peer by {
        assert(told.contains(peer));
        let i = choose|i: int| 0 <= i < told.len() && told[i] == peer;
        assert(messages[i].0 == peer);
    }
    assert forall|i: int, j: int| 0 <= i < j < messages.len() implies (#[trigger] messages[i]).0
        != (#[trigger] messages[j]).0 by {
        assert(told[i] != told[j]);
    }
}

// ── The clock ──────────────────────────────────────────────────────────────

/// A leader counts ticks, and when as many have passed as its heartbeat takes, it contacts every
/// peer that it replicates to and starts to count anew.
pub proof fn law_leader_sends_heartbeats(s: NodeView, timeout: u32, order: Seq<NodeId>)
    requires
        s.role is Leader,
        s.heartbeat_ticks < u32::MAX,
        enumerates(order, s.contacts(MessageView::Tick)),
        s.log.base + s.log.entries.len() < u64::MAX,
        s.heartbeat_ticks + 1 >= s.heartbeat_timeout ==> forall|p: NodeId| #[trigger]
            s.role->next.contains_key(p) ==> s.role->next[p] <= s.log.base + s.log.entries.len()
                + 1,
    ensures
        ({
            let h = s.handle(MessageView::Tick, timeout, order);
            let old = s.ready.messages.len() as int;
            let lagged = s.ready.snapshot_to_send.len() as int;
            if s.heartbeat_ticks + 1 < s.heartbeat_timeout {
                h == NodeView { heartbeat_ticks: (s.heartbeat_ticks + 1) as u32, ..s }
            } else {
                &&& h == NodeView {
                    heartbeat_ticks: 0,
                    ready: ReadyView {
                        messages: h.ready.messages,
                        snapshot_to_send: h.ready.snapshot_to_send,
                        ..s.ready
                    },
                    ..s
                }
                &&& h.ready.messages.take(old) == s.ready.messages
                &&& h.ready.snapshot_to_send.take(lagged) == s.ready.snapshot_to_send
                &&& contacts_every_peer(
                    h,
                    h.ready.messages.skip(old),
                    h.ready.snapshot_to_send.skip(lagged),
                )
            }
        }),
{
    if s.heartbeat_ticks + 1 >= s.heartbeat_timeout {
        lemma_broadcast(NodeView { heartbeat_ticks: 0, ..s }, order);
    }
}

/// A voter that does not lead counts ticks, and when as many have passed as its election takes, it
/// stands for election in the next term: it votes for itself and asks every other member for its
/// vote, once, with the position and term of its last entry.
pub proof fn law_voter_stands_for_election(s: NodeView, timeout: u32, order: Seq<NodeId>)
    requires
        s.role !is Leader,
        s.is_voter,
        s.election_ticks < u32::MAX,
        s.term < u64::MAX,
        s.log.base + s.log.entries.len() < u64::MAX,
        enumerates(order, s.contacts(MessageView::Tick)),
    ensures
        ({
            let h = s.handle(MessageView::Tick, timeout, order);
            let old = s.ready.messages.len() as int;
            let asked = h.ready.messages.skip(old);
            let request = MessageView::RequestVote {
                from: s.id,
                msg: RequestVote {
                    term: (s.term + 1) as Term,
                    candidate_id: s.id,
                    last_log_index: (s.log.base + s.log.entries.len()) as LogIndex,
                    last_log_term: if s.log.entries.len() == 0 {
                        s.log.base_term
                    } else {
                        s.log.entries[s.log.entries.len() - 1].term
                    },
                },
            };
            if s.election_ticks + 1 < s.election_timeout {
                h == NodeView { election_ticks: (s.election_ticks + 1) as u32, ..s }
            } else {
                &&& h == NodeView {
                    term: (s.term + 1) as Term,
                    voted_for: Some(s.id),
                    role: RoleView::Candidate { votes: Set::empty().insert(s.id) },
                    election_ticks: 0,
                    election_timeout: timeout,
                    ready: ReadyView {
                        hard_state: Some(
                            crate::message::HardState {
                                term: (s.term + 1) as Term,
                                voted_for: Some(s.id),
                                commit: s.commit,
                            },
                        ),
                        messages: h.ready.messages,
                        ..s.ready
                    },
                    ..s
                }
                &&& h.ready.messages.take(old) == s.ready.messages
                &&& forall|i: int|
                    0 <= i < asked.len() ==> (#[trigger] asked[i]).1 == request && asked[i].0
                        != s.id && s.members.contains(asked[i].0)
                &&& forall|p: NodeId| #[trigger]
                    s.members.contains(p) && p != s.id ==> asked.contains((p, request))
                &&& asked.no_duplicates()
            }
        }),
{
    let h = s.handle(MessageView::Tick, timeout, order);
    if s.election_ticks + 1 >= s.election_timeout {
        let old = s.ready.messages.len() as int;
        let asked = h.ready.messages.skip(old);
        let candidate = NodeView { ready: ReadyView { messages: s.ready.messages, ..h.ready }, ..h };
        let request = candidate.vote_request();
        assert(asked =~= order.map_values(|p: NodeId| (p, request)));
        assert(h.ready.messages.take(old) =~= s.ready.messages);
        assert forall|p: NodeId| order.contains(p) <==> s.members.contains(p) && p != s.id by {
            assert(order.to_set().contains(p) <==> order.contains(p));
            assert(order.to_set().contains(p) <==> s.members.remove(s.id).contains(p));
        }
        assert forall|i: int| 0 <= i < asked.len() implies (#[trigger] asked[i]).1 == request
            && asked[i].0 != s.id && s.members.contains(asked[i].0) by {
            assert(order.contains(order[i]));
        }
        assert forall|p: NodeId| #[trigger]
            s.members.contains(p) && p != s.id implies asked.contains((p, request)) by {
            assert(order.contains(p));
            let i = choose|i: int| 0 <= i < order.len() && order[i] == p;
            assert(asked[i] == (p, request));
        }
        assert forall|i: int, j: int|
            0 <= i < asked.len() && 0 <= j < asked.len() && i != j implies asked[i] != asked[j] by {
            assert(order[i] != order[j]);
        }
    }
}

// ── Leading ────────────────────────────────────────────────────────────────

/// The entry that a leader writes behind its log.
pub open spec fn written(s: NodeView, entry_type: EntryType, command: Seq<u8>) -> LogEntryView {
    LogEntryView {
        index: (s.log.base + s.log.entries.len() + 1) as LogIndex,
        term: s.term,
        entry_type,
        command,
    }
}

/// The node `h` is the node `s`, but that it has written the entry, has it persisted and has
/// contacted every peer.
pub open spec fn has_written(s: NodeView, h: NodeView, entry: LogEntryView) -> bool {
    let old = s.ready.messages.len() as int;
    let lagged = s.ready.snapshot_to_send.len() as int;
    &&& h == NodeView {
        log: LogView {
            base: s.log.base,
            base_term: s.log.base_term,
            entries: s.log.entries.push(entry),
        },
        ready: ReadyView {
            to_persist: s.ready.to_persist.push(entry),
            messages: h.ready.messages,
            snapshot_to_send: h.ready.snapshot_to_send,
            ..s.ready
        },
        ..s
    }
    &&& h.ready.messages.take(old) == s.ready.messages
    &&& h.ready.snapshot_to_send.take(lagged) == s.ready.snapshot_to_send
    &&& contacts_every_peer(h, h.ready.messages.skip(old), h.ready.snapshot_to_send.skip(lagged))
}

proof fn lemma_written(
    s: NodeView,
    entry_type: EntryType,
    command: Seq<u8>,
    order: Seq<NodeId>,
)
    requires
        s.role is Leader,
        enumerates(order, s.role->next.dom()),
        s.log.base + s.log.entries.len() + 1 < u64::MAX,
        forall|p: NodeId| #[trigger]
            s.role->next.contains_key(p) ==> s.role->next[p] <= s.log.base + s.log.entries.len()
                + 2,
    ensures
        has_written(
            s,
            s.append_own(entry_type, command, order),
            written(s, entry_type, command),
        ),
{
    let entry = written(s, entry_type, command);
    lemma_broadcast(
        NodeView {
            log: s.log.append(entry),
            ready: ReadyView { to_persist: s.ready.to_persist.push(entry), ..s.ready },
            ..s
        },
        order,
    );
}

/// A leader writes what is proposed behind its log, in its own term, has it persisted and sends it
/// to every peer. Nobody else takes a proposal.
pub proof fn law_leader_takes_proposals(
    s: NodeView,
    command: Seq<u8>,
    timeout: u32,
    order: Seq<NodeId>,
)
    requires
        s.log.base + s.log.entries.len() + 1 < u64::MAX,
        enumerates(order, s.contacts(MessageView::Propose { command })),
        s.role is Leader ==> forall|p: NodeId| #[trigger]
            s.role->next.contains_key(p) ==> s.role->next[p] <= s.log.base + s.log.entries.len()
                + 2,
    ensures
        ({
            let h = s.handle(MessageView::Propose { command }, timeout, order);
            &&& s.role !is Leader ==> h == s
            &&& s.role is Leader ==> has_written(s, h, written(s, EntryType::Normal, command))
        }),
{
    if s.role is Leader {
        lemma_written(s, EntryType::Normal, command, order);
    }
}

/// A candidate that is elected leads the term that it stood for: it goes on with every other
/// member behind the end of its log, takes for granted of none that it holds anything, and writes
/// an empty entry at once.
pub proof fn law_elected_leader_starts_to_replicate(
    s: NodeView,
    from: NodeId,
    msg: RequestVoteResponse,
    timeout: u32,
    order: Seq<NodeId>,
    votes: Set<NodeId>,
)
    requires
        s.role == (RoleView::Candidate { votes }),
        msg.term == s.term,
        msg.vote_granted,
        2 * votes.insert(from).len() > s.members.len(),
        s.log.base + s.log.entries.len() + 1 < u64::MAX,
        enumerates(order, s.contacts(MessageView::RequestVoteResponse { from, msg })),
    ensures
        ({
            let h = s.handle(MessageView::RequestVoteResponse { from, msg }, timeout, order);
            &&& h.role matches RoleView::Leader { next, matched }
            &&& forall|p: NodeId| #[trigger]
                next.contains_key(p) <==> s.members.contains(p) && p != s.id
            &&& forall|p: NodeId| #[trigger]
                matched.contains_key(p) <==> s.members.contains(p) && p != s.id
            &&& forall|p: NodeId| #[trigger]
                next.contains_key(p) ==> next[p] == s.log.base + s.log.entries.len() + 1
            &&& forall|p: NodeId| #[trigger] matched.contains_key(p) ==> matched[p] == 0
            &&& has_written(
                NodeView { role: h.role, heartbeat_ticks: 0, ..s },
                h,
                written(s, EntryType::Normal, Seq::empty()),
            )
        }),
{
    let h = s.handle(MessageView::RequestVoteResponse { from, msg }, timeout, order);
    let leader = NodeView { role: h.role, heartbeat_ticks: 0, ..s };
    assert(leader.role->next.dom() =~= s.members.remove(s.id));
    lemma_written(leader, EntryType::Normal, Seq::empty(), order);
    assert(h == leader.append_own(EntryType::Normal, Seq::empty(), order));
}

/// A leader that has no membership change in flight takes one: it is written behind the log like
/// any entry, but as a membership change. A node that is to be added is replicated to at once,
/// from the end of the log on, unless it is already. The members stay until the change is applied.
/// Otherwise the change is dropped.
pub proof fn law_leader_takes_one_membership_change(
    s: NodeView,
    cmd: ConfChangeView,
    timeout: u32,
    order: Seq<NodeId>,
)
    requires
        s.log.base + s.log.entries.len() + 1 < u64::MAX,
        enumerates(order, s.contacts(MessageView::ProposeConfChange { cmd })),
        s.role is Leader ==> forall|p: NodeId| #[trigger]
            s.role->next.contains_key(p) ==> s.role->next[p] <= s.log.base + s.log.entries.len()
                + 2,
    ensures
        ({
            let h = s.handle(MessageView::ProposeConfChange { cmd }, timeout, order);
            &&& s.role !is Leader || s.pending_conf_change ==> h == s
            &&& s.role is Leader && !s.pending_conf_change ==> {
                &&& h.role matches RoleView::Leader { next, matched }
                &&& next == (if cmd.op == ConfChangeOp::Add && !s.role->next.contains_key(
                    cmd.node_id,
                ) {
                    s.role->next.insert(
                        cmd.node_id,
                        (s.log.base + s.log.entries.len() + 1) as LogIndex,
                    )
                } else {
                    s.role->next
                })
                &&& matched == (if cmd.op == ConfChangeOp::Add && !s.role->matched.contains_key(
                    cmd.node_id,
                ) {
                    s.role->matched.insert(cmd.node_id, 0)
                } else {
                    s.role->matched
                })
                &&& has_written(
                    NodeView { role: h.role, pending_conf_change: true, ..s },
                    h,
                    written(s, EntryType::ConfChange, conf_change_bytes(cmd)),
                )
            }
        }),
{
    if s.role is Leader && !s.pending_conf_change {
        let h = s.handle(MessageView::ProposeConfChange { cmd }, timeout, order);
        let leader = NodeView { role: h.role, pending_conf_change: true, ..s };
        assert(leader.role->next.dom() =~= if cmd.op == ConfChangeOp::Add {
            s.role->next.dom().insert(cmd.node_id)
        } else {
            s.role->next.dom()
        });
        lemma_written(leader, EntryType::ConfChange, conf_change_bytes(cmd), order);
        assert(h == leader.append_own(EntryType::ConfChange, conf_change_bytes(cmd), order));
    }
}

} // verus!
