//! Replication keeps the invariant.
use vstd::prelude::*;

use crate::cluster::Cluster;
use crate::cluster::following::{following_recorded, lemma_committed_is_led, lemma_follow};
use crate::cluster::growth::{
    lemma_grows_on, lemma_own_quorum, lemma_quorum_extends, lemma_shows, lemma_touch, with_node,
};
use crate::cluster::history::{
    agree, decided, ackers, inv, message_inv, node_inv, settled_prefix, term_inv, term_of, History,
};
use crate::cluster::parts::{
    kept, lemma_become_follower, lemma_commit, lemma_finish, lemma_idle, lemma_move_on, lemma_reply,
    lemma_settled_less,
};
use crate::cluster::writing::lemma_ack_within;
use crate::log::LogView;
use crate::message::{
    AppendEntriesResponse, AppendEntriesView, InstallSnapshotResponse, LogEntryView, LogIndex,
    MessageView, NodeId, Term,
};
use crate::node::{NodeView, ReadyView};

verus! {

// ── Entries ─────────────────────────────────────────────────────────────────

/// The whole log of a follower after it merged the entries of a message.
pub open spec fn merged_log(
    full: Seq<LogEntryView>,
    log: Seq<LogEntryView>,
    msg: AppendEntriesView,
    held: nat,
) -> Seq<LogEntryView> {
    if held < msg.entries.len() {
        log.take(msg.prev_log_index + msg.entries.len())
    } else {
        full
    }
}

/// Where the two logs have an entry of the same term, they agree up to there.
pub open spec fn matching(one: Seq<LogEntryView>, other: Seq<LogEntryView>) -> bool {
    forall|i: int| #[trigger]
        same_term(one, other, i) ==> agree(one, other, i)
}

pub open spec fn same_term(one: Seq<LogEntryView>, other: Seq<LogEntryView>, i: int) -> bool {
    &&& 0 <= i <= one.len()
    &&& i <= other.len()
    &&& i > 0 ==> one[i - 1].term == other[i - 1].term
}

pub(crate) proof fn lemma_matching(h: History, one: Seq<LogEntryView>, other: Seq<LogEntryView>)
    requires
        h.traced(one),
        h.traced(other),
    ensures
        matching(one, other),
{
    assert forall|i: int| #[trigger] same_term(one, other, i) implies agree(one, other, i) by {
        if i > 0 {
            let t = one[i - 1].term;
            assert(agree(one, h.written[t], i));
            assert(agree(other, h.written[other[i - 1].term], i));
        }
    }
}

pub(crate) proof fn lemma_settled_same(
    c: Cluster,
    h: History,
    log: Seq<LogEntryView>,
    log2: Seq<LogEntryView>,
    k: int,
    t: Term,
)
    requires
        settled_prefix(c, h, log, k, t),
        agree(log, log2, k),
    ensures
        settled_prefix(c, h, log2, k, t),
{
    if k != 0 {
        let (u, n) = choose|u: Term, n: int|
            #[trigger] decided(c, h, u, n) && u <= t && k <= n && agree(log, h.written[u], k);
        assert(agree(log2, h.written[u], k));
    }
}

/// The entries of a message are a stretch of the log.
pub open spec fn excerpt(msg: AppendEntriesView, log: Seq<LogEntryView>) -> bool {
    &&& msg.prev_log_index + msg.entries.len() <= log.len() < u64::MAX
    &&& msg.prev_log_term == term_of(log, msg.prev_log_index as int)
    &&& forall|j: int|
        0 <= j < msg.entries.len() ==> #[trigger] msg.entries[j] == log[msg.prev_log_index + j]
}

/// How far a log agrees with the leader's when the entries of a message are merged.
pub(crate) proof fn lemma_held_agrees(
    view: LogView,
    full: Seq<LogEntryView>,
    log: Seq<LogEntryView>,
    msg: AppendEntriesView,
)
    requires
        view.shows(full),
        matching(full, log),
        excerpt(msg, log),
        view.term_at(msg.prev_log_index as int) == Some(msg.prev_log_term),
    ensures
        ({
            let prev = msg.prev_log_index as int;
            let held = view.held(prev, msg.entries);
            &&& view.base <= prev <= full.len()
            &&& held <= msg.entries.len()
            &&& agree(full, log, prev + held)
            &&& held < msg.entries.len() ==> forall|i: int| #[trigger]
                agree(full, log, i) ==> i <= prev + held
        }),
{
    let prev = msg.prev_log_index as int;
    lemma_shows(view, full);
    crate::node::laws::lemma_held_bounded(view, prev, msg.entries);
    let held = view.held(prev, msg.entries);
    let at = prev + held;
    assert(view.base <= prev <= full.len());
    if held > 0 {
        assert(view.term_at(prev + 1 + (held - 1)) == Some(msg.entries[held - 1].term));
        assert(msg.entries[held - 1] == log[prev + (held - 1)]);
        assert(term_of(full, at) == full[at - 1].term);
    }
    assert(same_term(full, log, at));
    if held < msg.entries.len() {
        assert(msg.entries[held as int] == log[at]);
        assert forall|i: int| #[trigger] agree(full, log, i) implies i <= at by {
            if i > at {
                assert(full[at] == log[at]);
                assert(view.term_at(at + 1) == Some(term_of(full, at + 1)));
            }
        }
    }
}

/// What the merged log shows.
pub(crate) proof fn lemma_merged_shows(
    s: NodeView,
    full: Seq<LogEntryView>,
    log: Seq<LogEntryView>,
    msg: AppendEntriesView,
)
    requires
        s.log.shows(full),
        matching(full, log),
        excerpt(msg, log),
        s.log.term_at(msg.prev_log_index as int) == Some(msg.prev_log_term),
    ensures
        ({
            let held = s.log.held(msg.prev_log_index as int, msg.entries);
            let full2 = merged_log(full, log, msg, held);
            let acked = msg.prev_log_index + msg.entries.len();
            &&& s.merge(msg.prev_log_index, msg.entries).log.shows(full2)
            &&& agree(full2, log, acked)
            &&& full2 == full || agree(full2, log, full2.len() as int) && forall|i: int| #[trigger]
                agree(full, log, i) ==> i <= full2.len()
            &&& forall|i: int| #[trigger] agree(full, log, i) ==> agree(full, full2, i)
        }),
{
    let prev = msg.prev_log_index as int;
    let view = s.log;
    lemma_held_agrees(view, full, log, msg);
    let held = view.held(prev, msg.entries);
    let full2 = merged_log(full, log, msg, held);
    let at = prev + held;
    if held < msg.entries.len() {
        let merged = s.merge(msg.prev_log_index, msg.entries).log;
        let added = msg.entries.skip(held as int);
        let base = view.base as int;
        assert(merged == view.truncate_and_append(at + 1, added));
        assert forall|j: int| 0 <= j < merged.entries.len() implies merged.entries[j] == full2[base
            + j] by {
            if base + j < at {
                assert(merged.entries[j] == view.entries[j]);
                assert(view.entries[j] == full[base + j]);
                assert(full[base + j] == log[base + j]);
            } else {
                let k = base + j - prev;
                assert(merged.entries[j] == added[base + j - at]);
                assert(added[base + j - at] == msg.entries[k]);
            }
        }
        assert(merged.entries =~= full2.skip(base));
        if base > 0 {
            assert(full[base - 1] == log[base - 1]);
        }
    }
}

/// Merging the entries of a message: the log becomes or stays one that agrees with the leader's
/// up to the end of the message.
pub(crate) proof fn lemma_merge(c: Cluster, h: History, n: NodeId, msg: AppendEntriesView) -> (full2: Seq<
    LogEntryView,
>)
    requires
        inv(c, h),
        c.nodes.contains_key(n),
        h.leader.contains_key(msg.term),
        excerpt(msg, h.written[msg.term]),
        c.nodes[n].term == msg.term,
        c.nodes[n].role is Follower,
        c.nodes[n].log.term_at(msg.prev_log_index as int) == Some(msg.prev_log_term),
    ensures
        ({
            let s = c.nodes[n].merge(msg.prev_log_index, msg.entries);
            let acked = (msg.prev_log_index + msg.entries.len()) as nat;
            let h2 = following_recorded(h, n, msg.term, full2, acked);
            &&& kept(c, h, with_node(c, n, s), h2)
            &&& agree(full2, h.written[msg.term], acked as int)
            &&& s.commit == c.nodes[n].commit
            &&& s.term == msg.term
            &&& s.ready == (ReadyView { to_persist: s.ready.to_persist, ..c.nodes[n].ready })
            &&& s.log.shows(full2)
        }),
{
    let before = c.nodes[n];
    let t = msg.term;
    let full = h.full[n];
    let log = h.written[t];
    let acked = (msg.prev_log_index + msg.entries.len()) as nat;
    assert(node_inv(c, h, n, before));
    assert(h.leader.dom().contains(t));
    assert(h.written.contains_key(t));
    assert(term_inv(c, h, t));
    lemma_matching(h, full, log);
    lemma_merged_shows(before, full, log, msg);
    let held = before.log.held(msg.prev_log_index as int, msg.entries);
    let full2 = merged_log(full, log, msg, held);
    let s = before.merge(msg.prev_log_index, msg.entries);
    lemma_committed_is_led(c, h, full, before.commit as int, before.term, t);
    assert(agree(full, log, before.commit as int));
    lemma_settled_same(c, h, full, full2, before.commit as int, t);
    lemma_follow(c, h, n, full2, acked, s);
    full2
}

/// A follower follows the commit index of a message that it has merged.
pub(crate) proof fn lemma_follow_commit(
    c: Cluster,
    h: History,
    n: NodeId,
    from: NodeId,
    msg: AppendEntriesView,
    timeout: u32,
)
    requires
        inv(c, h),
        c.nodes.contains_key(n),
        c.nodes[n].term == msg.term,
        c.nodes[n].role is Follower,
        message_inv(c, h, n, MessageView::AppendEntries { from, msg }),
        agree(h.full[n], h.written[msg.term], msg.prev_log_index + msg.entries.len()),
    ensures
        ({
            let s = c.nodes[n].follow_commit(msg, timeout);
            &&& kept(c, h, with_node(c, n, s), h)
            &&& s.ready.messages == c.nodes[n].ready.messages
            &&& s.ready.snapshot_to_apply == c.nodes[n].ready.snapshot_to_apply
            &&& s.term == msg.term
            &&& s.id == n
            &&& s.role !is Leader
        }),
{
    let t = msg.term;
    let s = c.nodes[n];
    let log = h.written[t];
    let full = h.full[n];
    assert(node_inv(c, h, n, s));
    lemma_shows(s.log, full);
    let target = s.commit_target(msg);
    if target > s.commit {
        lemma_settled_less(c, h, log, msg.leader_commit as int, t, target as int, t);
        assert(agree(log, full, target as int));
        lemma_settled_same(c, h, log, full, target as int, t);
        lemma_commit(c, h, n, target, timeout);
    } else {
        lemma_touch(c, h, n, s);
    }
}

/// Entries that fit are merged, followed and acknowledged.
pub(crate) proof fn lemma_entries_taken(
    c: Cluster,
    h: History,
    n: NodeId,
    from: NodeId,
    msg: AppendEntriesView,
    timeout: u32,
) -> (h2: History)
    requires
        inv(c, h),
        c.nodes.contains_key(n),
        c.nodes.contains_key(from),
        message_inv(c, h, n, MessageView::AppendEntries { from, msg }),
        c.nodes[n].term == msg.term,
        c.nodes[n].role is Follower,
        c.nodes[n].ready.messages.len() == 0,
        c.nodes[n].log.term_at(msg.prev_log_index as int) == Some(msg.prev_log_term),
    ensures
        ({
            let handled = c.nodes[n].merge(msg.prev_log_index, msg.entries).follow_commit(
                msg,
                timeout,
            ).reply_append(from, true, (msg.prev_log_index + msg.entries.len()) as LogIndex);
            &&& kept(
                c,
                h,
                Cluster {
                    nodes: c.nodes.insert(n, handled.drained()),
                    sent: c.sent.union(handled.ready.messages.to_set()),
                    ..c
                },
                h2,
            )
            &&& handled.ready.snapshot_to_apply == c.nodes[n].ready.snapshot_to_apply
        }),
{
    let t = msg.term;
    let follower = c.nodes[n];
    let acked = (msg.prev_log_index + msg.entries.len()) as nat;
    let message = MessageView::AppendEntries { from, msg };
    assert(h.leader.dom().contains(t));
    assert(h.written.contains_key(t));
    assert(term_inv(c, h, t));
    let full2 = lemma_merge(c, h, n, msg);
    let merged = follower.merge(msg.prev_log_index, msg.entries);
    let h2 = following_recorded(h, n, t, full2, acked);
    let c1 = with_node(c, n, merged);
    crate::cluster::growth::lemma_message_grows(c, h, c1, h2, n, message);
    assert(c1.nodes[n] == merged);
    assert(c1.nodes.contains_key(n));
    lemma_follow_commit(c1, h2, n, from, msg, timeout);
    let followed = merged.follow_commit(msg, timeout);
    let c2 = with_node(c1, n, followed);
    lemma_grows_on(c, h, c1, h2, c2, h2);
    let reply = MessageView::AppendEntriesResponse {
        from: n,
        msg: AppendEntriesResponse { term: t, success: true, match_index: acked as LogIndex },
    };
    assert(c2.nodes.contains_key(from) && c2.nodes.contains_key(n));
    assert(h2.ack(n, t) >= acked);
    assert(message_inv(c2, h2, from, reply));
    lemma_reply(c1, h2, n, followed, from, reply);
    let handled = followed.send(from, reply);
    assert(handled == followed.reply_append(from, true, acked as LogIndex));
    assert(c1.nodes.insert(n, handled.drained()) =~= c.nodes.insert(n, handled.drained()));
    lemma_grows_on(
        c,
        h,
        c2,
        h2,
        Cluster {
            nodes: c.nodes.insert(n, handled.drained()),
            sent: c.sent.union(handled.ready.messages.to_set()),
            ..c
        },
        h2,
    );
    h2
}

pub(crate) proof fn lemma_append_entries(
    c: Cluster,
    h: History,
    n: NodeId,
    from: NodeId,
    msg: AppendEntriesView,
    timeout: u32,
    order: Seq<NodeId>,
) -> (h2: History)
    requires
        inv(c, h),
        c.can_deliver(n, MessageView::AppendEntries { from, msg }, timeout, order),
        c.nodes[n].ready == ReadyView::empty(),
    ensures
        kept(c, h, c.delivered(n, MessageView::AppendEntries { from, msg }, timeout, order), h2),
{
    let message = MessageView::AppendEntries { from, msg };
    let after = c.delivered(n, message, timeout, order);
    let s = c.nodes[n];
    let t = msg.term;
    assert(c.sent.contains((n, message)));
    assert(message_inv(c, h, n, message));
    assert(node_inv(c, h, n, s));
    assert(h.leader.dom().contains(t));
    assert(h.written.contains_key(t));
    assert(term_inv(c, h, t));
    if t < s.term {
        lemma_touch(c, h, n, s);
        let reply = MessageView::AppendEntriesResponse {
            from: n,
            msg: AppendEntriesResponse { term: s.term, success: false, match_index: 0 },
        };
        lemma_reply(c, h, n, s, from, reply);
        lemma_grows_on(c, h, with_node(c, n, s), h, after, h);
        h
    } else {
        let follower = s.become_follower(t, Some(from), timeout);
        let c1 = with_node(c, n, follower);
        lemma_become_follower(c, h, n, t, Some(from), timeout);
        crate::cluster::growth::lemma_message_grows(c, h, c1, h, n, message);
        assert(c1.nodes[n] == follower);
        if follower.log.term_at(msg.prev_log_index as int) == Some(msg.prev_log_term) {
            let h2 = lemma_entries_taken(c1, h, n, from, msg, timeout);
            let handled = s.handle(message, timeout, order);
            assert(c1.nodes.insert(n, handled.drained()) =~= c.nodes.insert(n, handled.drained()));
            lemma_grows_on(c, h, c1, h, after, h2);
            h2
        } else {
            let hint = follower.conflict_hint(msg.prev_log_index);
            let reply = MessageView::AppendEntriesResponse {
                from: n,
                msg: AppendEntriesResponse { term: t, success: false, match_index: hint },
            };
            assert(message_inv(c1, h, from, reply)) by {
                assert(c1.nodes.contains_key(from));
                assert(c1.nodes.contains_key(n));
            }
            lemma_reply(c, h, n, follower, from, reply);
            lemma_grows_on(c, h, c1, h, after, h);
            h
        }
    }
}

// ── Acknowledgements ────────────────────────────────────────────────────────

/// A leader credits a peer with what it acknowledged, and commits what a majority holds.
pub(crate) proof fn lemma_credited(
    c: Cluster,
    h: History,
    n: NodeId,
    from: NodeId,
    index: LogIndex,
    timeout: u32,
)
    requires
        inv(c, h),
        c.nodes.contains_key(n),
        c.nodes[n].role is Leader,
        c.nodes[n].ready == ReadyView::empty(),
        c.nodes.contains_key(from),
        from != n,
        index <= h.ack(from, c.nodes[n].term),
    ensures
        ({
            let handled = c.nodes[n].credit(from, index).advance_commit(timeout);
            &&& kept(
                c,
                h,
                Cluster {
                    nodes: c.nodes.insert(n, handled.drained()),
                    sent: c.sent.union(handled.ready.messages.to_set()),
                    ..c
                },
                h,
            )
            &&& handled.ready.snapshot_to_apply is None
        }),
{
    let s = c.nodes[n];
    let t = s.term;
    let full = h.full[n];
    assert(node_inv(c, h, n, s));
    lemma_shows(s.log, full);
    lemma_ack_within(c, h, from, t);
    let credited = s.credit(from, index);
    let matched = credited.role->matched;
    assert(node_inv(c, h, n, credited));
    lemma_touch(c, h, n, credited);
    let c1 = with_node(c, n, credited);
    assert(c1.nodes.dom() =~= c.nodes.dom());
    assert(c1.nodes[n] == credited);
    let handled = credited.advance_commit(timeout);
    let target = credited.quorum_index();
    let c2 = with_node(c1, n, handled);
    if target > credited.commit && credited.log.term_at(target as int) == Some(t) {
        assert(credited.members.finite());
        vstd::set_lib::lemma_len_subset(matched.dom(), c.nodes.dom());
        crate::node::laws::lemma_quorum_index_exists(credited);
        assert(h.leader.dom().contains(t));
        assert(h.written.contains_key(t));
        assert(term_inv(c, h, t));
        assert(decided(c1, h, t, target as int)) by {
            let held = crate::node::model::holders(matched, credited.members, target as int);
            let all = ackers(c1, h, t, target as int);
            assert(h.own(t, target as int));
            assert(held.insert(n).subset_of(all)) by {
                assert forall|p: NodeId| held.insert(n).contains(p) implies all.contains(p) by {
                    if p != n {
                        assert(matched.contains_key(p));
                    }
                }
            }
            assert(!held.contains(n)) by {
                assert(matched.contains_key(n) ==> matched[n] == 0);
            }
            vstd::set_lib::lemma_len_subset(held, held.insert(n));
            assert(held.insert(n).len() == held.len() + 1);
            lemma_own_quorum(c1, credited, held.insert(n));
            lemma_quorum_extends(c1, held.insert(n), all);
        }
        assert(settled_prefix(c1, h, full, target as int, t)) by {
            assert(agree(full, h.written[t], target as int));
        }
        lemma_commit(c1, h, n, target, timeout);
    } else {
        assert(handled == credited);
        lemma_touch(c1, h, n, handled);
    }
    assert(handled.ready.messages.len() == 0);
    lemma_finish(c1, h, n, handled, handled.ready.messages);
    assert(c1.nodes.insert(n, handled.drained()) =~= c.nodes.insert(n, handled.drained()));
    let after = Cluster {
        nodes: c.nodes.insert(n, handled.drained()),
        sent: c.sent.union(handled.ready.messages.to_set()),
        ..c
    };
    lemma_grows_on(c, h, c1, h, c2, h);
    lemma_grows_on(c, h, c2, h, after, h);
}

pub(crate) proof fn lemma_append_entries_response(
    c: Cluster,
    h: History,
    n: NodeId,
    from: NodeId,
    msg: AppendEntriesResponse,
    timeout: u32,
    order: Seq<NodeId>,
)
    requires
        inv(c, h),
        c.can_deliver(n, MessageView::AppendEntriesResponse { from, msg }, timeout, order),
        c.nodes[n].ready == ReadyView::empty(),
    ensures
        kept(
            c,
            h,
            c.delivered(n, MessageView::AppendEntriesResponse { from, msg }, timeout, order),
            h,
        ),
{
    let message = MessageView::AppendEntriesResponse { from, msg };
    let s = c.nodes[n];
    let handled = s.handle(message, timeout, order);
    assert(c.sent.contains((n, message)));
    assert(message_inv(c, h, n, message));
    assert(node_inv(c, h, n, s));
    if msg.term > s.term {
        lemma_move_on(c, h, n, msg.term, None, timeout);
    } else if msg.term < s.term || s.role !is Leader {
        assert(handled.ready.messages.len() == 0);
        lemma_idle(c, h, n, handled, handled.ready.messages);
    } else if msg.success {
        lemma_credited(c, h, n, from, msg.match_index, timeout);
    } else {
        let next = s.role->next;
        let next2 = handled.role->next;
        assert forall|p: NodeId| #[trigger] next2.contains_key(p) implies next2[p]
            <= h.full[n].len() + 1 by {
            if p != from {
                assert(next.contains_key(p));
            }
        }
        assert(node_inv(c, h, n, handled));
        assert(handled.ready.messages.len() == 0);
        lemma_idle(c, h, n, handled, handled.ready.messages);
    }
}

pub(crate) proof fn lemma_install_snapshot_response(
    c: Cluster,
    h: History,
    n: NodeId,
    from: NodeId,
    msg: InstallSnapshotResponse,
    timeout: u32,
    order: Seq<NodeId>,
)
    requires
        inv(c, h),
        c.can_deliver(n, MessageView::InstallSnapshotResponse { from, msg }, timeout, order),
        c.nodes[n].ready == ReadyView::empty(),
    ensures
        kept(
            c,
            h,
            c.delivered(n, MessageView::InstallSnapshotResponse { from, msg }, timeout, order),
            h,
        ),
{
    let message = MessageView::InstallSnapshotResponse { from, msg };
    let s = c.nodes[n];
    let handled = s.handle(message, timeout, order);
    assert(c.sent.contains((n, message)));
    assert(message_inv(c, h, n, message));
    assert(node_inv(c, h, n, s));
    if msg.term > s.term {
        lemma_move_on(c, h, n, msg.term, None, timeout);
    } else if msg.term < s.term || !msg.success || s.role !is Leader {
        assert(handled.ready.messages.len() == 0);
        lemma_idle(c, h, n, handled, handled.ready.messages);
    } else {
        lemma_credited(c, h, n, from, msg.last_index, timeout);
    }
}

} // verus!
