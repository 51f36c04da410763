//! What the steps of the nodes consist of, and that each part keeps the invariant.
use vstd::prelude::*;

use crate::cluster::Cluster;
use crate::cluster::delivery::quiet;
use crate::cluster::growth::{
    grows, lemma_grows_on, lemma_send, lemma_shows, lemma_touch, with_node,
};
use crate::cluster::history::{
    agree, concerns_one, decided, inv, membership_inv, message_inv, node_inv, role_inv,
    settled_prefix, term_inv, term_of, History,
};
use crate::cluster::writing::{leads, lemma_write, may_write, writing_recorded};
use crate::conf_change::conf_change_decoded;
use crate::message::{EntryType, LogEntryView, LogIndex, MessageView, NodeId, Term};
use crate::node::{enumerates, NodeView, ReadyView};

verus! {

pub(crate) proof fn lemma_settled_less(
    c: Cluster,
    h: History,
    log: Seq<LogEntryView>,
    k: int,
    t: Term,
    less: int,
    later: Term,
)
    requires
        settled_prefix(c, h, log, k, t),
        0 <= less <= k,
        t <= later,
    ensures
        settled_prefix(c, h, log, less, later),
{
    if less != 0 {
        let (u, n) = choose|u: Term, n: int|
            #[trigger] decided(c, h, u, n) && u <= t && k <= n && agree(log, h.written[u], k);
        assert(agree(log, h.written[u], less));
    }
}

/// A step ends: the output leaves the node and the messages go out.
pub(crate) proof fn lemma_finish(
    c: Cluster,
    h: History,
    n: NodeId,
    s: NodeView,
    messages: Seq<(NodeId, MessageView)>,
)
    requires
        c.nodes.contains_key(n),
        inv(with_node(c, n, s), h),
        forall|m: (NodeId, MessageView)| #[trigger]
            messages.contains(m) ==> message_inv(with_node(c, n, s), h, m.0, m.1),
    ensures
        ({
            let after = Cluster {
                nodes: c.nodes.insert(n, s.drained()),
                sent: c.sent.union(messages.to_set()),
                ..c
            };
            inv(after, h) && grows(with_node(c, n, s), h, after, h)
        }),
{
    let c1 = with_node(c, n, s);
    let c2 = Cluster { sent: c1.sent.union(messages.to_set()), ..c1 };
    lemma_send(c1, h, n, messages.to_set());
    let quiet = s.drained();
    assert(c2.nodes.contains_key(n));
    assert(c2.nodes[n] == s);
    assert(node_inv(c2, h, n, c2.nodes[n]));
    assert(node_inv(c2, h, n, quiet));
    lemma_touch(c2, h, n, quiet);
    let c3 = with_node(c2, n, quiet);
    assert(c3.nodes =~= c.nodes.insert(n, quiet));
    lemma_grows_on(c1, h, c2, h, c3, h);
}

/// A step that has kept the invariant ends.
pub(crate) proof fn lemma_finish_kept(
    c: Cluster,
    h: History,
    h2: History,
    n: NodeId,
    s: NodeView,
    messages: Seq<(NodeId, MessageView)>,
)
    requires
        c.nodes.contains_key(n),
        kept(c, h, with_node(c, n, s), h2),
        forall|m: (NodeId, MessageView)| #[trigger]
            messages.contains(m) ==> message_inv(with_node(c, n, s), h2, m.0, m.1),
    ensures
        kept(
            c,
            h,
            Cluster {
                nodes: c.nodes.insert(n, s.drained()),
                sent: c.sent.union(messages.to_set()),
                ..c
            },
            h2,
        ),
{
    lemma_finish(c, h2, n, s, messages);
    lemma_grows_on(
        c,
        h,
        with_node(c, n, s),
        h2,
        Cluster {
            nodes: c.nodes.insert(n, s.drained()),
            sent: c.sent.union(messages.to_set()),
            ..c
        },
        h2,
    );
}

/// A node steps down, and moves on if the term is later than its own.
pub(crate) proof fn lemma_become_follower(
    c: Cluster,
    h: History,
    n: NodeId,
    t: Term,
    leader_id: Option<NodeId>,
    timeout: u32,
)
    requires
        inv(c, h),
        c.nodes.contains_key(n),
        t >= c.nodes[n].term,
    ensures
        ({
            let c2 = with_node(c, n, c.nodes[n].become_follower(t, leader_id, timeout));
            inv(c2, h) && grows(c, h, c2, h)
        }),
{
    let before = c.nodes[n];
    let s = before.become_follower(t, leader_id, timeout);
    assert(node_inv(c, h, n, before));
    lemma_settled_less(
        c,
        h,
        h.full[n],
        before.commit as int,
        before.term,
        before.commit as int,
        t,
    );
    if h.leader.contains_key(t) {
        assert(h.leader.dom().contains(t));
        assert(h.written.contains_key(t));
        assert(term_inv(c, h, t));
    }
    assert(node_inv(c, h, n, s));
    lemma_touch(c, h, n, s);
}

/// An entry that a node applies changes its membership at most as the cluster allows.
proof fn lemma_apply_next(c: Cluster, h: History, n: NodeId, s: NodeView, timeout: u32)
    requires
        c.configured(),
        c.nodes.contains_key(n),
        node_inv(c, h, n, s),
        s.role !is Candidate,
        s.applied < s.commit,
    ensures
        ({
            let a = s.apply_next(timeout);
            &&& node_inv(c, h, n, a)
            &&& a.role !is Candidate
            &&& a.role is Leader ==> s.role is Leader
            &&& a.ready.messages == s.ready.messages
            &&& a.ready.snapshot_to_apply == s.ready.snapshot_to_apply
            &&& a.term == s.term
            &&& a.voted_for == s.voted_for
            &&& a.commit == s.commit
            &&& a.applied == s.applied + 1
        }),
{
    let full = h.full[n];
    lemma_shows(s.log, full);
    let entry = s.log.at(s.applied + 1);
    assert(s.log.has(s.applied + 1));
    assert(entry == full[s.applied as int]);
    let a = s.apply_next(timeout);
    if entry.entry_type == EntryType::ConfChange {
        assert(concerns_one(c, entry.command));
        if let Some(cmd) = conf_change_decoded(entry.command) {
            let node = cmd.node_id;
            assert(c.nodes.dom().contains(node));
            assert(c.voters.insert(node) =~= c.voters || c.voters.insert(node) =~= c.changed());
            assert(c.changed().insert(node) =~= c.voters || c.changed().insert(node)
                =~= c.changed());
            assert(c.voters.remove(node) =~= c.voters || c.voters.remove(node) =~= c.changed());
            assert(c.changed().remove(node) =~= c.voters || c.changed().remove(node)
                =~= c.changed());
        }
        assert(membership_inv(c, a));
        assert(role_inv(c, h, n, a));
    }
    assert(node_inv(c, h, n, a));
}

/// Applying what is committed keeps a node in order, and sends nothing.
pub(crate) proof fn lemma_apply(c: Cluster, h: History, n: NodeId, s: NodeView, timeout: u32)
    requires
        c.configured(),
        c.nodes.contains_key(n),
        node_inv(c, h, n, s),
        s.role !is Candidate,
    ensures
        ({
            let a = s.apply_committed(timeout);
            &&& node_inv(c, h, n, a)
            &&& a.role is Leader ==> s.role is Leader
            &&& a.ready.messages == s.ready.messages
            &&& a.ready.snapshot_to_apply == s.ready.snapshot_to_apply
            &&& a.term == s.term
            &&& a.voted_for == s.voted_for
            &&& a.commit == s.commit
        }),
    decreases s.commit - s.applied,
{
    if s.applied < s.commit {
        lemma_apply_next(c, h, n, s, timeout);
        lemma_apply(c, h, n, s.apply_next(timeout), timeout);
    }
}

/// A node learns that more of its log is committed.
pub(crate) proof fn lemma_commit(c: Cluster, h: History, n: NodeId, index: LogIndex, timeout: u32)
    requires
        inv(c, h),
        c.nodes.contains_key(n),
        c.nodes[n].role !is Candidate,
        index > c.nodes[n].commit,
        settled_prefix(c, h, h.full[n], index as int, c.nodes[n].term),
    ensures
        ({
            let s = c.nodes[n].commit_to(index, timeout);
            &&& inv(with_node(c, n, s), h)
            &&& grows(c, h, with_node(c, n, s), h)
            &&& s.ready.messages == c.nodes[n].ready.messages
            &&& s.ready.snapshot_to_apply == c.nodes[n].ready.snapshot_to_apply
            &&& s.term == c.nodes[n].term
            &&& s.id == c.nodes[n].id
            &&& s.role is Leader ==> c.nodes[n].role is Leader
        }),
{
    let before = c.nodes[n];
    assert(node_inv(c, h, n, before));
    let told = NodeView { commit: index, ..before }.emit_hard_state();
    assert(node_inv(c, h, n, told));
    lemma_apply(c, h, n, told, timeout);
    let s = before.commit_to(index, timeout);
    assert(node_inv(c, h, n, s));
    lemma_touch(c, h, n, s);
}

/// What a leader sends to its peers is allowed.
pub(crate) proof fn lemma_broadcast(c: Cluster, h: History, n: NodeId, s: NodeView, order: Seq<NodeId>)
    requires
        inv(c, h),
        c.nodes.contains_key(n),
        node_inv(c, h, n, s),
        s.role is Leader,
        s.ready.messages.len() == 0,
        forall|p: NodeId| #[trigger] order.contains(p) ==> s.role->next.contains_key(p),
    ensures
        forall|m: (NodeId, MessageView)| #[trigger]
            s.broadcast(order).ready.messages.contains(m) ==> message_inv(c, h, m.0, m.1),
{
    let next = s.role->next;
    let full = h.full[n];
    let told = order.filter(|p: NodeId| next[p] > s.log.base);
    let all = s.broadcast(order).ready.messages;
    assert(all =~= told.map_values(|p: NodeId| (p, s.append_message(next[p]))));
    lemma_shows(s.log, full);
    assert forall|m: (NodeId, MessageView)| #[trigger] all.contains(m) implies message_inv(
        c,
        h,
        m.0,
        m.1,
    ) by {
        let j = choose|j: int| 0 <= j < all.len() && all[j] == m;
        let p = told[j];
        assert(m == (p, s.append_message(next[p])));
        assert(told.contains(p));
        order.lemma_filter_contains_rev(|p: NodeId| next[p] > s.log.base, p);
        order.lemma_filter_pred(|p: NodeId| next[p] > s.log.base, j);
        assert(next.contains_key(p));
        assert(next.dom().contains(p));
        let prev = next[p] - 1;
        let tail = s.log.from(next[p] as int);
        assert(s.log.term_at(prev) == Some(term_of(full, prev)));
        assert(tail.len() == full.len() - prev);
        assert forall|j: int| 0 <= j < tail.len() implies #[trigger] tail[j] == full[prev + j] by {}
    }
}

pub open spec fn kept(c: Cluster, h: History, c2: Cluster, h2: History) -> bool {
    inv(c2, h2) && grows(c, h, c2, h2)
}

pub(crate) proof fn lemma_listed(order: Seq<NodeId>, set: Set<NodeId>)
    requires
        enumerates(order, set),
    ensures
        forall|p: NodeId| #[trigger] order.contains(p) ==> set.contains(p),
{
    assert forall|p: NodeId| #[trigger] order.contains(p) implies set.contains(p) by {
        assert(order.to_set().contains(p));
    }
}

/// A step that changes nothing but timers, and sends what it may.
pub(crate) proof fn lemma_idle(
    c: Cluster,
    h: History,
    n: NodeId,
    s: NodeView,
    messages: Seq<(NodeId, MessageView)>,
)
    requires
        inv(c, h),
        c.nodes.contains_key(n),
        s.term == c.nodes[n].term,
        s.voted_for == c.nodes[n].voted_for,
        s.role is Leader ==> c.nodes[n].role is Leader,
        node_inv(c, h, n, s),
        forall|m: (NodeId, MessageView)| #[trigger]
            messages.contains(m) ==> message_inv(c, h, m.0, m.1),
    ensures
        kept(
            c,
            h,
            Cluster {
                nodes: c.nodes.insert(n, s.drained()),
                sent: c.sent.union(messages.to_set()),
                ..c
            },
            h,
        ),
{
    lemma_touch(c, h, n, s);
    let c1 = with_node(c, n, s);
    assert forall|m: (NodeId, MessageView)| #[trigger] messages.contains(m) implies message_inv(
        c1,
        h,
        m.0,
        m.1,
    ) by {
        crate::cluster::growth::lemma_message_grows(c, h, c1, h, m.0, m.1);
    }
    lemma_finish(c, h, n, s, messages);
    lemma_grows_on(
        c,
        h,
        c1,
        h,
        Cluster {
            nodes: c.nodes.insert(n, s.drained()),
            sent: c.sent.union(messages.to_set()),
            ..c
        },
        h,
    );
}

/// A leader, new or not, writes an entry and sends it to its peers.
pub(crate) proof fn lemma_append_own(
    c: Cluster,
    h: History,
    n: NodeId,
    leader: NodeView,
    entry_type: EntryType,
    command: Seq<u8>,
    order: Seq<NodeId>,
) -> (h2: History)
    requires
        inv(c, h),
        c.nodes.contains_key(n),
        may_write(c, h, n),
        leader == (NodeView {
            role: leader.role,
            pending_conf_change: leader.pending_conf_change,
            heartbeat_ticks: leader.heartbeat_ticks,
            ready: leader.ready,
            ..c.nodes[n]
        }),
        leader.ready.messages.len() == 0,
        h.full[n].len() + 1 < u64::MAX,
        leads(c, h, n, leader, h.full[n].len() + 1),
        leader.is_voter,
        entry_type == EntryType::ConfChange ==> concerns_one(c, command),
        forall|p: NodeId| #[trigger] order.contains(p) ==> leader.role->next.contains_key(p),
    ensures
        ({
            let handled = leader.append_own(entry_type, command, order);
            kept(
                c,
                h,
                Cluster {
                    nodes: c.nodes.insert(n, handled.drained()),
                    sent: c.sent.union(handled.ready.messages.to_set()),
                    ..c
                },
                h2,
            )
        }),
{
    let before = c.nodes[n];
    let full = h.full[n];
    assert(node_inv(c, h, n, before));
    lemma_shows(before.log, full);
    let entry = LogEntryView {
        index: (leader.log.last_index() + 1) as LogIndex,
        term: leader.term,
        entry_type,
        command,
    };
    let appended = NodeView {
        log: leader.log.append(entry),
        ready: ReadyView { to_persist: leader.ready.to_persist.push(entry), ..leader.ready },
        ..leader
    };
    let handled = appended.broadcast(order);
    assert(handled == leader.append_own(entry_type, command, order));
    assert(handled.log.entries =~= full.push(entry).skip(handled.log.base as int));
    assert(handled.log.shows(full.push(entry)));
    lemma_write(c, h, n, entry, handled);
    let h2 = writing_recorded(h, n, leader.term, entry);
    let c1 = with_node(c, n, handled);
    assert(c1.nodes.contains_key(n));
    assert(node_inv(c1, h2, n, c1.nodes[n]));
    assert(node_inv(c1, h2, n, appended));
    lemma_broadcast(c1, h2, n, appended, order);
    lemma_finish(c, h2, n, handled, handled.ready.messages);
    lemma_grows_on(
        c,
        h,
        c1,
        h2,
        Cluster {
            nodes: c.nodes.insert(n, handled.drained()),
            sent: c.sent.union(handled.ready.messages.to_set()),
            ..c
        },
        h2,
    );
    h2
}


/// A node that moves on to a later term, and does nothing else.
pub(crate) proof fn lemma_move_on(
    c: Cluster,
    h: History,
    n: NodeId,
    t: Term,
    leader_id: Option<NodeId>,
    timeout: u32,
)
    requires
        inv(c, h),
        c.nodes.contains_key(n),
        c.nodes[n].ready.messages.len() == 0,
        t >= c.nodes[n].term,
    ensures
        ({
            let handled = c.nodes[n].become_follower(t, leader_id, timeout);
            kept(
                c,
                h,
                Cluster {
                    nodes: c.nodes.insert(n, handled.drained()),
                    sent: c.sent.union(handled.ready.messages.to_set()),
                    ..c
                },
                h,
            )
        }),
{
    let handled = c.nodes[n].become_follower(t, leader_id, timeout);
    lemma_become_follower(c, h, n, t, leader_id, timeout);
    assert(handled.ready.messages.len() == 0);
    lemma_finish(c, h, n, handled, handled.ready.messages);
    lemma_grows_on(
        c,
        h,
        with_node(c, n, handled),
        h,
        Cluster {
            nodes: c.nodes.insert(n, handled.drained()),
            sent: c.sent.union(handled.ready.messages.to_set()),
            ..c
        },
        h,
    );
}

/// A step that ends with a single reply.
pub(crate) proof fn lemma_reply(
    c: Cluster,
    h: History,
    n: NodeId,
    s: NodeView,
    to: NodeId,
    reply: MessageView,
)
    requires
        c.nodes.contains_key(n),
        inv(with_node(c, n, s), h),
        s.ready.messages.len() == 0,
        message_inv(with_node(c, n, s), h, to, reply),
    ensures
        ({
            let handled = s.send(to, reply);
            let after = Cluster {
                nodes: c.nodes.insert(n, handled.drained()),
                sent: c.sent.union(handled.ready.messages.to_set()),
                ..c
            };
            inv(after, h) && grows(with_node(c, n, s), h, after, h)
        }),
{
    let handled = s.send(to, reply);
    let messages = handled.ready.messages;
    assert(messages =~= seq![(to, reply)]);
    assert(handled.drained() == s.drained());
    assert forall|m: (NodeId, MessageView)| #[trigger] messages.contains(m) implies message_inv(
        with_node(c, n, s),
        h,
        m.0,
        m.1,
    ) by {}
    lemma_finish(c, h, n, s, messages);
}

} // verus!
