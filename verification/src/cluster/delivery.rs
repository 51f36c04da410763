//! Every step of a cluster keeps the invariant.
use vstd::prelude::*;

use crate::cluster::{Cluster, Start};
use crate::cluster::ballots::{candidacy_recorded, lemma_candidate};
use crate::cluster::growth::{lemma_grows_on, lemma_send, lemma_shows, lemma_touch, with_node};
use crate::cluster::history::{
    ack_inv, ackers, agree, candidate_inv, decided, electors, inv, message_inv, node_inv,
    settled_prefix, term_inv, term_of, vote_inv, History,
};
use crate::cluster::parts::{
    kept, lemma_append_own, lemma_apply, lemma_broadcast, lemma_finish, lemma_idle, lemma_listed,
    lemma_settled_less,
};
use crate::cluster::replication::{
    lemma_append_entries, lemma_append_entries_response, lemma_install_snapshot_response,
};
use crate::cluster::snapshots::lemma_install_snapshot;
use crate::cluster::voting::{lemma_request_vote, lemma_request_vote_response};
use crate::cluster::writing::leads;
use crate::conf_change::conf_change_bytes;
use crate::message::{
    ConfChangeOp, ConfChangeView, EntryType, InstallSnapshotView, LogEntryView, LogIndex,
    MessageView, NodeId, RequestVote, Term,
};
use crate::node::{NodeView, ReadyView};

verus! {

// ── Ticks and proposals ─────────────────────────────────────────────────────

pub(crate) proof fn lemma_tick(c: Cluster, h: History, n: NodeId, timeout: u32, order: Seq<NodeId>) -> (h2:
    History)
    requires
        inv(c, h),
        c.can_deliver(n, MessageView::Tick, timeout, order),
        c.nodes[n].ready == ReadyView::empty(),
    ensures
        kept(c, h, c.delivered(n, MessageView::Tick, timeout, order), h2),
{
    let s = c.nodes[n];
    let handled = s.handle(MessageView::Tick, timeout, order);
    let messages = handled.ready.messages;
    assert(node_inv(c, h, n, s));
    lemma_listed(order, s.contacts(MessageView::Tick));
    if s.heartbeat_due() {
        let rested = NodeView { heartbeat_ticks: 0, ..s };
        assert(node_inv(c, h, n, rested));
        lemma_broadcast(c, h, n, rested, order);
        assert(node_inv(c, h, n, handled));
        lemma_idle(c, h, n, handled, messages);
        h
    } else if s.election_due() {
        lemma_candidate(c, h, n, handled);
        let h2 = candidacy_recorded(h, n, handled.term, handled.members);
        let c1 = with_node(c, n, handled);
        let full = h.full[n];
        lemma_shows(s.log, full);
        let told = order.map_values(
            |p: NodeId|
                (
                    p,
                    MessageView::RequestVote {
                        from: n,
                        msg: RequestVote {
                            term: handled.term,
                            candidate_id: n,
                            last_log_index: s.log.last_index() as LogIndex,
                            last_log_term: s.log.last_term(),
                        },
                    },
                ),
        );
        assert(messages =~= told);
        assert forall|m: (NodeId, MessageView)| #[trigger] messages.contains(m) implies message_inv(
            c1,
            h2,
            m.0,
            m.1,
        ) by {
            let j = choose|j: int| 0 <= j < messages.len() && messages[j] == m;
            assert(order.contains(order[j]));
            assert(s.members.contains(order[j]));
            assert(c.nodes.dom().contains(order[j]));
            assert(c1.nodes.contains_key(order[j]));
        }
        lemma_finish(c, h2, n, handled, messages);
        lemma_grows_on(c, h, c1, h2, c.delivered(n, MessageView::Tick, timeout, order), h2);
        h2
    } else {
        assert(node_inv(c, h, n, handled));
        assert(messages =~= Seq::empty());
        lemma_idle(c, h, n, handled, messages);
        h
    }
}

pub(crate) proof fn lemma_propose(
    c: Cluster,
    h: History,
    n: NodeId,
    command: Seq<u8>,
    timeout: u32,
    order: Seq<NodeId>,
) -> (h2: History)
    requires
        inv(c, h),
        c.can_deliver(n, MessageView::Propose { command }, timeout, order),
        c.nodes[n].ready == ReadyView::empty(),
    ensures
        kept(c, h, c.delivered(n, MessageView::Propose { command }, timeout, order), h2),
{
    let message = MessageView::Propose { command };
    let s = c.nodes[n];
    let handled = s.handle(message, timeout, order);
    assert(node_inv(c, h, n, s));
    lemma_listed(order, s.contacts(message));
    lemma_shows(s.log, h.full[n]);
    if s.role is Leader {
        let next = s.role->next;
        assert forall|p: NodeId| #[trigger] order.contains(p) implies next.contains_key(p) by {
            assert(next.dom().contains(p));
        }
        lemma_append_own(c, h, n, s, EntryType::Normal, command, order)
    } else {
        assert(handled.ready.messages =~= Seq::empty());
        lemma_idle(c, h, n, handled, handled.ready.messages);
        h
    }
}

pub(crate) proof fn lemma_propose_conf_change(
    c: Cluster,
    h: History,
    n: NodeId,
    cmd: ConfChangeView,
    timeout: u32,
    order: Seq<NodeId>,
) -> (h2: History)
    requires
        inv(c, h),
        c.can_deliver(n, MessageView::ProposeConfChange { cmd }, timeout, order),
        c.nodes[n].ready == ReadyView::empty(),
    ensures
        kept(c, h, c.delivered(n, MessageView::ProposeConfChange { cmd }, timeout, order), h2),
{
    let message = MessageView::ProposeConfChange { cmd };
    let s = c.nodes[n];
    let handled = s.handle(message, timeout, order);
    assert(node_inv(c, h, n, s));
    assert(!c.sent.contains((n, message))) by {
        if c.sent.contains((n, message)) {
            assert(message_inv(c, h, n, message));
        }
    }
    lemma_listed(order, s.contacts(message));
    lemma_shows(s.log, h.full[n]);
    if s.takes_conf_change() {
        let tracking = if cmd.op == ConfChangeOp::Add {
            s.track(cmd.node_id)
        } else {
            s
        };
        let leader = NodeView { pending_conf_change: true, ..tracking };
        assert(leads(c, h, n, leader, h.full[n].len() + 1)) by {
            if cmd.op == ConfChangeOp::Add {
                assert(c.nodes.dom().contains(cmd.node_id));
            }
        }
        assert forall|p: NodeId| #[trigger]
            order.contains(p) implies leader.role->next.contains_key(p) by {
            assert(s.contacts(message).contains(p));
            assert(leader.role->next.dom().contains(p));
        }
        let command = conf_change_bytes(cmd);
        assert(handled == leader.append_own(EntryType::ConfChange, command, order));
        lemma_append_own(c, h, n, leader, EntryType::ConfChange, command, order)
    } else {
        assert(handled.ready.messages =~= Seq::empty());
        lemma_idle(c, h, n, handled, handled.ready.messages);
        h
    }
}

// ── Steps ───────────────────────────────────────────────────────────────────

/// Every node has handed over its output.
pub open spec fn quiet(c: Cluster) -> bool {
    forall|n: NodeId| #[trigger]
        c.nodes.contains_key(n) ==> c.nodes[n].ready == ReadyView::empty()
}

pub(crate) proof fn lemma_settled_quiet(s: NodeView, timeout: u32)
    ensures
        s.settled(timeout).ready == ReadyView::empty(),
{
}

pub(crate) proof fn lemma_deliver(
    c: Cluster,
    h: History,
    n: NodeId,
    message: MessageView,
    timeout: u32,
    order: Seq<NodeId>,
) -> (h2: History)
    requires
        inv(c, h),
        quiet(c),
        c.can_deliver(n, message, timeout, order),
    ensures
        kept(c, h, c.delivered(n, message, timeout, order), h2),
        quiet(c.delivered(n, message, timeout, order)),
{
    lemma_settled_quiet(c.nodes[n].handle(message, timeout, order), timeout);
    match message {
        MessageView::Tick => lemma_tick(c, h, n, timeout, order),
        MessageView::Propose { command } => lemma_propose(c, h, n, command, timeout, order),
        MessageView::ProposeConfChange { cmd } => lemma_propose_conf_change(
            c,
            h,
            n,
            cmd,
            timeout,
            order,
        ),
        MessageView::RequestVote { from, msg } => lemma_request_vote(
            c,
            h,
            n,
            from,
            msg,
            timeout,
            order,
        ),
        MessageView::RequestVoteResponse { from, msg } => lemma_request_vote_response(
            c,
            h,
            n,
            from,
            msg,
            timeout,
            order,
        ),
        MessageView::AppendEntries { from, msg } => lemma_append_entries(
            c,
            h,
            n,
            from,
            msg,
            timeout,
            order,
        ),
        MessageView::AppendEntriesResponse { from, msg } => {
            lemma_append_entries_response(c, h, n, from, msg, timeout, order);
            h
        },
        MessageView::InstallSnapshot { from, msg } => lemma_install_snapshot(
            c,
            h,
            n,
            from,
            msg,
            timeout,
            order,
        ),
        MessageView::InstallSnapshotResponse { from, msg } => {
            lemma_install_snapshot_response(c, h, n, from, msg, timeout, order);
            h
        },
    }
}

pub(crate) proof fn lemma_snapshot_sent(c: Cluster, h: History, n: NodeId, to: NodeId, data: Seq<u8>)
    requires
        inv(c, h),
        quiet(c),
        c.can_send_snapshot(n, to, data),
    ensures
        kept(c, h, c.snapshot_sent(n, to, data), h),
        quiet(c.snapshot_sent(n, to, data)),
{
    let s = c.nodes[n];
    let full = h.full[n];
    assert(node_inv(c, h, n, s));
    lemma_settled_less(c, h, full, s.commit as int, s.term, s.log.base as int, s.term);
    let after = c.snapshot_sent(n, to, data);
    let message = MessageView::InstallSnapshot {
        from: n,
        msg: InstallSnapshotView {
            term: s.term,
            leader_id: n,
            snapshot: crate::message::SnapshotView {
                last_index: s.log.base,
                last_term: s.log.base_term,
                data,
            },
        },
    };
    let messages = set![(to, message)];
    assert(message_inv(c, h, to, message));
    assert forall|m: (NodeId, MessageView)| #[trigger] messages.contains(m) implies message_inv(
        c,
        h,
        m.0,
        m.1,
    ) by {}
    lemma_send(c, h, n, messages);
    assert(after.sent =~= c.sent.union(messages));
}

pub(crate) proof fn lemma_compacted(c: Cluster, h: History, n: NodeId, index: LogIndex)
    requires
        inv(c, h),
        quiet(c),
        c.can_compact(n, index),
    ensures
        kept(c, h, c.compacted(n, index), h),
        quiet(c.compacted(n, index)),
{
    let s = c.nodes[n];
    let full = h.full[n];
    assert(node_inv(c, h, n, s));
    lemma_shows(s.log, full);
    assert(s.log.term_at(index as int) == Some(term_of(full, index as int)));
    let term = term_of(full, index as int);
    let after = NodeView { log: s.log.compact(index, term), ..s };
    assert(after.log.entries =~= full.skip(index as int));
    assert(node_inv(c, h, n, after));
    lemma_touch(c, h, n, after);
}

pub(crate) proof fn lemma_restarted(c: Cluster, h: History, n: NodeId, after: NodeView)
    requires
        inv(c, h),
        quiet(c),
        c.can_restart(n, after),
    ensures
        kept(c, h, c.restarted(n, after), h),
        quiet(c.restarted(n, after)),
{
    let s = c.nodes[n];
    let members = c.initial_members(n);
    let (loaded, timeout) = choose|loaded: NodeView, timeout: u32|
        s.loads_as(members, c.voters.contains(n), loaded) && after == (
        #[trigger] loaded.apply_committed(timeout)).drained();
    assert(node_inv(c, h, n, s));
    lemma_initial(c, n);
    assert(node_inv(c, h, n, loaded));
    lemma_apply(c, h, n, loaded, timeout);
    assert(node_inv(c, h, n, after));
    lemma_touch(c, h, n, after);
}

/// A node starts with the voters, and counts itself among them.
proof fn lemma_initial(c: Cluster, n: NodeId)
    requires
        c.configured(),
        c.nodes.contains_key(n),
    ensures
        c.initial_members(n) == (if c.voters.contains(n) {
            c.voters
        } else {
            c.changed()
        }),
{
    assert(c.nodes.dom().contains(n));
    if c.voters.contains(n) {
        assert(c.initial_members(n) =~= c.voters);
    } else {
        assert(c.initial_members(n) =~= c.changed());
    }
}

/// Every step of a cluster keeps the invariant.
pub proof fn lemma_step(c: Cluster, h: History, c2: Cluster) -> (h2: History)
    requires
        inv(c, h),
        quiet(c),
        c.steps_to(c2),
    ensures
        kept(c, h, c2, h2),
        quiet(c2),
{
    if exists|n: NodeId, message: MessageView, timeout: u32, order: Seq<NodeId>|
        #[trigger] c.can_deliver(n, message, timeout, order) && c2 == c.delivered(
            n,
            message,
            timeout,
            order,
        ) {
        let (n, message, timeout, order) = choose|
            n: NodeId,
            message: MessageView,
            timeout: u32,
            order: Seq<NodeId>,
        |
            #[trigger] c.can_deliver(n, message, timeout, order) && c2 == c.delivered(
                n,
                message,
                timeout,
                order,
            );
        lemma_deliver(c, h, n, message, timeout, order)
    } else if exists|n: NodeId, to: NodeId, data: Seq<u8>|
        #[trigger] c.can_send_snapshot(n, to, data) && c2 == c.snapshot_sent(n, to, data) {
        let (n, to, data) = choose|n: NodeId, to: NodeId, data: Seq<u8>|
            #[trigger] c.can_send_snapshot(n, to, data) && c2 == c.snapshot_sent(n, to, data);
        lemma_snapshot_sent(c, h, n, to, data);
        h
    } else if exists|n: NodeId, index: LogIndex|
        #[trigger] c.can_compact(n, index) && c2 == c.compacted(n, index) {
        let (n, index) = choose|n: NodeId, index: LogIndex|
            #[trigger] c.can_compact(n, index) && c2 == c.compacted(n, index);
        lemma_compacted(c, h, n, index);
        h
    } else {
        let (n, after) = choose|n: NodeId, after: NodeView|
            #[trigger] c.can_restart(n, after) && c2 == c.restarted(n, after);
        lemma_restarted(c, h, n, after);
        h
    }
}

/// What stands for the log that a snapshot covers. Nothing depends on what its entries hold.
pub open spec fn covered(start: Start) -> Seq<LogEntryView> {
    Seq::new(
        start.base as nat,
        |j: int|
            LogEntryView {
                index: (j + 1) as LogIndex,
                term: start.base_term,
                entry_type: EntryType::Normal,
                command: Seq::empty(),
            },
    )
}

/// The history that a cluster starts with: what the snapshot covers is the work of some leader
/// that everybody voted for and followed.
pub open spec fn first_history(c: Cluster, start: Start) -> History {
    let t = start.base_term;
    let log = covered(start);
    let some = c.nodes.dom().choose();
    let past = start.base > 0 && c.nodes.dom().contains(some);
    History {
        full: Map::new(|n: NodeId| c.nodes.contains_key(n), |n: NodeId| log),
        leader: Map::new(|u: Term| past && u == t, |u: Term| some),
        written: Map::new(|u: Term| past && u == t, |u: Term| log),
        votes: Map::new(
            |k: (NodeId, Term)| past && c.nodes.contains_key(k.0) && k.1 == t,
            |k: (NodeId, Term)| some,
        ),
        voter_log: Map::new(
            |k: (NodeId, Term)| past && c.nodes.contains_key(k.0) && k.1 == t,
            |k: (NodeId, Term)| Seq::empty(),
        ),
        candidate_log: Map::new(
            |k: (NodeId, Term)| past && k == (some, t),
            |k: (NodeId, Term)| Seq::empty(),
        ),
        candidate_members: Map::new(
            |k: (NodeId, Term)| past && k == (some, t),
            |k: (NodeId, Term)| c.nodes.dom(),
        ),
        started: start.term,
        acks: Map::new(
            |k: (NodeId, Term)| past && c.nodes.contains_key(k.0) && k.1 == t,
            |k: (NodeId, Term)| log.len(),
        ),
    }
}

/// All nodes together are a quorum.
proof fn lemma_all_are_a_quorum(c: Cluster, n: NodeId)
    requires
        c.configured(),
        c.nodes.contains_key(n),
    ensures
        c.is_quorum(c.nodes.dom()),
{
    assert(c.nodes.dom().contains(n));
    assert(c.nodes.dom().intersect(c.voters) =~= c.voters);
    assert(c.nodes.dom().intersect(c.changed()) =~= c.changed());
    if c.voters.contains(n) {
        vstd::set_lib::lemma_set_empty_equivalency_len(c.voters);
    } else {
        vstd::set_lib::lemma_set_empty_equivalency_len(c.changed());
    }
}

proof fn lemma_first_nodes(c: Cluster, start: Start, n: NodeId)
    requires
        c.starts_from(start),
        c.nodes.contains_key(n),
    ensures
        node_inv(c, first_history(c, start), n, c.nodes[n]),
        c.nodes[n].ready == ReadyView::empty(),
{
    let h = first_history(c, start);
    let s = c.nodes[n];
    let log = covered(start);
    let t = start.base_term;
    assert(s.starts_in(n, c.initial_members(n), c.voters.contains(n), start));
    lemma_initial(c, n);
    assert(c.nodes.dom().contains(n));
    assert(c.nodes.dom().contains(c.nodes.dom().choose()));
    assert(s.log.entries =~= log.skip(start.base as int));
    assert(s.log.shows(log));
    assert(h.traced(log)) by {
        assert forall|j: int| 0 <= j < log.len() implies h.written.contains_key(
            (#[trigger] log[j]).term,
        ) && agree(log, h.written[log[j].term], j + 1) by {}
    }
    if start.base > 0 {
        assert(ackers(c, h, t, start.base as int) =~= c.nodes.dom());
        lemma_all_are_a_quorum(c, n);
        assert(decided(c, h, t, start.base as int));
        assert(agree(log, h.written[t], start.base as int));
    }
    assert(settled_prefix(c, h, log, s.commit as int, s.term));
}

proof fn lemma_first_term(c: Cluster, start: Start, t: Term)
    requires
        c.starts_from(start),
        first_history(c, start).written.contains_key(t),
    ensures
        term_inv(c, first_history(c, start), t),
{
    let h = first_history(c, start);
    let log = covered(start);
    let l = h.leader[t];
    assert(c.nodes.contains_key(l));
    assert(c.nodes[l].starts_in(l, c.initial_members(l), c.voters.contains(l), start));
    assert(electors(c, h, t) =~= c.nodes.dom());
    lemma_all_are_a_quorum(c, l);
    assert(h.traced(log)) by {
        assert forall|j: int| 0 <= j < log.len() implies h.written.contains_key(
            (#[trigger] log[j]).term,
        ) && agree(log, h.written[log[j].term], j + 1) by {}
    }
    assert(h.ack(l, t) == log.len());
}

/// A cluster that starts satisfies the invariant.
pub proof fn lemma_fresh(c: Cluster) -> (h: History)
    requires
        c.fresh(),
    ensures
        inv(c, h),
        quiet(c),
        exists|start: Start| #[trigger] c.starts_from(start) && h == first_history(c, start),
{
    let start = choose|start: Start| #[trigger] c.starts_from(start);
    let h = first_history(c, start);
    assert(h.full.dom() =~= c.nodes.dom());
    assert(h.leader.dom() =~= h.written.dom());
    assert forall|n: NodeId| #[trigger] c.nodes.contains_key(n) implies node_inv(
        c,
        h,
        n,
        c.nodes[n],
    ) && c.nodes[n].ready == ReadyView::empty() by {
        lemma_first_nodes(c, start, n);
    }
    assert forall|t: Term| #[trigger] h.written.contains_key(t) implies term_inv(c, h, t) by {
        lemma_first_term(c, start, t);
    }
    assert forall|k: (NodeId, Term)| #[trigger] h.votes.contains_key(k) implies vote_inv(
        c,
        h,
        k,
    ) by {
        assert(c.nodes[k.0].starts_in(
            k.0,
            c.initial_members(k.0),
            c.voters.contains(k.0),
            start,
        ));
    }
    assert forall|k: (NodeId, Term)| #[trigger]
        h.candidate_log.contains_key(k) implies candidate_inv(c, h, k) by {
        assert(c.nodes.contains_key(k.0));
        assert(c.nodes[k.0].starts_in(
            k.0,
            c.initial_members(k.0),
            c.voters.contains(k.0),
            start,
        ));
    }
    assert forall|f: NodeId, t: Term| #[trigger] h.acks.contains_key((f, t)) implies ack_inv(
        c,
        h,
        f,
        t,
    ) by {
        assert(c.nodes[f].starts_in(f, c.initial_members(f), c.voters.contains(f), start));
    }
    h
}

} // verus!
