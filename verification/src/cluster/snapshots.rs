//! Installing snapshots keeps the invariant.
use vstd::prelude::*;

use crate::cluster::Cluster;
use crate::cluster::following::{following_recorded, lemma_committed_is_led, lemma_follow};
use crate::cluster::growth::{lemma_grows_on, lemma_shows, lemma_touch, with_node};
use crate::cluster::history::{agree, inv, message_inv, node_inv, term_inv, term_of, History};
use crate::cluster::parts::{kept, lemma_become_follower, lemma_finish_kept, lemma_reply};
use crate::cluster::replication::lemma_settled_same;
use crate::log::LogView;
use crate::message::{InstallSnapshotResponse, InstallSnapshotView, MessageView, NodeId};
use crate::node::{NodeView, ReadyView};

verus! {

/// A follower takes a snapshot in and answers.
pub open spec fn snapshot_answered(
    follower: NodeView,
    from: NodeId,
    msg: InstallSnapshotView,
) -> NodeView {
    (if msg.snapshot.last_index <= follower.commit {
        follower
    } else {
        follower.install(msg.snapshot)
    }).reply_install(from, true, msg.snapshot.last_index)
}

/// The node after a snapshot was taken in.
pub open spec fn snapshot_settled(follower: NodeView, msg: InstallSnapshotView) -> NodeView {
    if msg.snapshot.last_index <= follower.commit {
        follower.drained()
    } else {
        NodeView {
            log: LogView {
                base: msg.snapshot.last_index,
                base_term: msg.snapshot.last_term,
                entries: Seq::empty(),
            },
            commit: msg.snapshot.last_index,
            applied: msg.snapshot.last_index,
            ..follower.drained()
        }
    }
}

pub(crate) proof fn lemma_snapshot_settled(
    follower: NodeView,
    from: NodeId,
    msg: InstallSnapshotView,
    timeout: u32,
)
    requires
        follower.ready.snapshot_to_apply is None,
        follower.ready.messages.len() == 0,
    ensures
        snapshot_answered(follower, from, msg).settled(timeout) == snapshot_settled(follower, msg),
        snapshot_answered(follower, from, msg).ready.messages == seq![
            (
                from,
                MessageView::InstallSnapshotResponse {
                    from: follower.id,
                    msg: InstallSnapshotResponse {
                        term: follower.term,
                        success: true,
                        last_index: msg.snapshot.last_index,
                    },
                },
            ),
        ],
{
    let handled = snapshot_answered(follower, from, msg);
    assert(handled.ready.messages =~= seq![handled.ready.messages.last()]);
}

/// The snapshot replaces the log, or is covered by what is committed already.
pub(crate) proof fn lemma_snapshot_followed(
    c: Cluster,
    h: History,
    n: NodeId,
    from: NodeId,
    msg: InstallSnapshotView,
) -> (h2: History)
    requires
        inv(c, h),
        c.nodes.contains_key(n),
        message_inv(c, h, n, MessageView::InstallSnapshot { from, msg }),
        c.nodes[n].term == msg.term,
        c.nodes[n].role is Follower,
        !c.nodes[n].forgets(MessageView::InstallSnapshot { from, msg }),
    ensures
        kept(c, h, with_node(c, n, snapshot_settled(c.nodes[n], msg)), h2),
        h2.ack(n, msg.term) >= msg.snapshot.last_index,
        h2.leader == h.leader,
{
    let follower = c.nodes[n];
    let t = msg.term;
    let last = msg.snapshot.last_index;
    let full = h.full[n];
    let log = h.written[t];
    assert(node_inv(c, h, n, follower));
    assert(h.leader.dom().contains(t));
    assert(h.written.contains_key(t));
    assert(term_inv(c, h, t));
    lemma_shows(follower.log, full);
    lemma_committed_is_led(c, h, full, follower.commit as int, t, t);
    let settled = snapshot_settled(follower, msg);
    if last <= follower.commit {
        lemma_follow(c, h, n, full, last as nat, settled);
        following_recorded(h, n, t, full, last as nat)
    } else {
        let full2 = log.take(last as int);
        assert(settled.log.entries =~= full2.skip(last as int));
        assert forall|i: int| #[trigger] agree(full, log, i) implies i <= full2.len() by {
            if i > last {
                assert(full[last - 1] == log[last - 1]);
                assert(follower.log.term_at(last as int) == Some(term_of(full, last as int)));
            }
        }
        assert(agree(log, full2, last as int));
        lemma_settled_same(c, h, log, full2, last as int, t);
        lemma_follow(c, h, n, full2, last as nat, settled);
        following_recorded(h, n, t, full2, last as nat)
    }
}

/// What a follower answers to a snapshot is allowed.
proof fn lemma_snapshot_reply(
    c: Cluster,
    h: History,
    n: NodeId,
    from: NodeId,
    msg: InstallSnapshotView,
    follower: NodeView,
)
    requires
        c.nodes.contains_key(n),
        c.nodes.contains_key(from),
        c.nodes[n].role !is Leader,
        h.leader.contains_key(msg.term),
        h.leader[msg.term] == from,
        0 < msg.snapshot.last_index <= h.ack(n, msg.term),
        follower.id == n,
        follower.term == msg.term,
        follower.ready.messages.len() == 0,
    ensures
        forall|m: (NodeId, MessageView)| #[trigger]
            snapshot_answered(follower, from, msg).ready.messages.contains(m) ==> message_inv(
                c,
                h,
                m.0,
                m.1,
            ),
{
    let messages = snapshot_answered(follower, from, msg).ready.messages;
    assert forall|m: (NodeId, MessageView)| #[trigger] messages.contains(m) implies message_inv(
        c,
        h,
        m.0,
        m.1,
    ) by {
        assert(messages.len() == 1);
        assert(m == messages[0]);
    }
}

pub(crate) proof fn lemma_snapshot_taken(
    c: Cluster,
    h: History,
    n: NodeId,
    from: NodeId,
    msg: InstallSnapshotView,
    timeout: u32,
) -> (h2: History)
    requires
        inv(c, h),
        c.nodes.contains_key(n),
        c.nodes.contains_key(from),
        message_inv(c, h, n, MessageView::InstallSnapshot { from, msg }),
        c.nodes[n].id == n,
        c.nodes[n].term == msg.term,
        c.nodes[n].role is Follower,
        c.nodes[n].ready.messages.len() == 0,
        c.nodes[n].ready.snapshot_to_apply is None,
        !c.nodes[n].forgets(MessageView::InstallSnapshot { from, msg }),
    ensures
        ({
            let handled = snapshot_answered(c.nodes[n], from, msg);
            kept(
                c,
                h,
                Cluster {
                    nodes: c.nodes.insert(n, handled.settled(timeout)),
                    sent: c.sent.union(handled.ready.messages.to_set()),
                    ..c
                },
                h2,
            )
        }),
{
    let follower = c.nodes[n];
    lemma_snapshot_settled(follower, from, msg, timeout);
    let settled = snapshot_settled(follower, msg);
    let messages = snapshot_answered(follower, from, msg).ready.messages;
    let h2 = lemma_snapshot_followed(c, h, n, from, msg);
    let c1 = with_node(c, n, settled);
    assert(c1.nodes.contains_key(from) && c1.nodes.contains_key(n));
    lemma_snapshot_reply(c1, h2, n, from, msg, follower);
    assert(settled.drained() == settled);
    lemma_finish_kept(c, h, h2, n, settled, messages);
    h2
}

pub(crate) proof fn lemma_handle_snapshot(
    s: NodeView,
    from: NodeId,
    msg: InstallSnapshotView,
    timeout: u32,
    order: Seq<NodeId>,
)
    ensures
        s.handle(MessageView::InstallSnapshot { from, msg }, timeout, order) == (if msg.term
            < s.term {
            s.reply_install(from, false, 0)
        } else {
            snapshot_answered(s.become_follower(msg.term, Some(from), timeout), from, msg)
        }),
{
}

/// A snapshot of an earlier term is refused.
pub(crate) proof fn lemma_snapshot_refused(
    c: Cluster,
    h: History,
    n: NodeId,
    from: NodeId,
    msg: InstallSnapshotView,
    timeout: u32,
)
    requires
        inv(c, h),
        c.nodes.contains_key(n),
        c.nodes.contains_key(from),
        c.nodes[n].ready == ReadyView::empty(),
    ensures
        ({
            let handled = c.nodes[n].reply_install(from, false, 0);
            kept(
                c,
                h,
                Cluster {
                    nodes: c.nodes.insert(n, handled.settled(timeout)),
                    sent: c.sent.union(handled.ready.messages.to_set()),
                    ..c
                },
                h,
            )
        }),
{
    let s = c.nodes[n];
    assert(node_inv(c, h, n, s));
    lemma_touch(c, h, n, s);
    let c1 = with_node(c, n, s);
    let reply = MessageView::InstallSnapshotResponse {
        from: n,
        msg: InstallSnapshotResponse { term: s.term, success: false, last_index: 0 },
    };
    let handled = s.send(from, reply);
    assert(handled == s.reply_install(from, false, 0));
    assert(c1.nodes.contains_key(from) && c1.nodes.contains_key(n));
    assert(message_inv(c1, h, from, reply));
    lemma_reply(c, h, n, s, from, reply);
    assert(handled.settled(timeout) == handled.drained());
    lemma_grows_on(
        c,
        h,
        c1,
        h,
        Cluster {
            nodes: c.nodes.insert(n, handled.drained()),
            sent: c.sent.union(handled.ready.messages.to_set()),
            ..c
        },
        h,
    );
}

pub(crate) proof fn lemma_install_snapshot(
    c: Cluster,
    h: History,
    n: NodeId,
    from: NodeId,
    msg: InstallSnapshotView,
    timeout: u32,
    order: Seq<NodeId>,
) -> (h2: History)
    requires
        inv(c, h),
        c.can_deliver(n, MessageView::InstallSnapshot { from, msg }, timeout, order),
        c.nodes[n].ready == ReadyView::empty(),
    ensures
        kept(c, h, c.delivered(n, MessageView::InstallSnapshot { from, msg }, timeout, order), h2),
{
    let message = MessageView::InstallSnapshot { from, msg };
    let s = c.nodes[n];
    let t = msg.term;
    assert(c.sent.contains((n, message)));
    assert(message_inv(c, h, n, message));
    assert(node_inv(c, h, n, s));
    assert(h.leader.dom().contains(t));
    assert(h.written.contains_key(t));
    assert(term_inv(c, h, t));
    lemma_handle_snapshot(s, from, msg, timeout, order);
    if t < s.term {
        lemma_snapshot_refused(c, h, n, from, msg, timeout);
        h
    } else {
        let follower = s.become_follower(t, Some(from), timeout);
        let c1 = with_node(c, n, follower);
        lemma_become_follower(c, h, n, t, Some(from), timeout);
        crate::cluster::growth::lemma_message_grows(c, h, c1, h, n, message);
        assert(c1.nodes[n] == follower);
        assert(c1.nodes.contains_key(from));
        let h2 = lemma_snapshot_taken(c1, h, n, from, msg, timeout);
        let settled = snapshot_answered(follower, from, msg).settled(timeout);
        assert(c1.nodes.insert(n, settled) =~= c.nodes.insert(n, settled));
        lemma_grows_on(c, h, c1, h, c.delivered(n, message, timeout, order), h2);
        h2
    }
}

} // verus!
