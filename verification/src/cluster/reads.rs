//! Why reads at the leader are current: what any node knows to be committed, the leader knows.
use vstd::prelude::*;

use crate::cluster::delivery::{first_history, lemma_fresh, lemma_step, quiet};
use crate::cluster::growth::{grows, lemma_decided_is_open, lemma_settled_grows, lemma_shows};
use crate::cluster::history::{
    agree, decided, inv, message_inv, node_inv, settled_prefix, term_inv, term_of, History,
};
use crate::cluster::laws::lemma_settled_agree;
use crate::cluster::parts::{kept, lemma_settled_less};
use crate::cluster::{is_run, Cluster, Start};
use crate::conf_change::conf_change_bytes;
use crate::message::{ConfChangeOp, EntryType, LogEntryView, LogIndex, MessageView, NodeId, Term};
use crate::node::laws::lemma_commit_frame;
use crate::node::{NodeView, ReadyView, RoleView};

verus! {

// ── What is known where ─────────────────────────────────────────────────────

/// The first `k` entries of a log were committed by leaders of earlier terms.
pub open spec fn settled_before(
    c: Cluster,
    h: History,
    log: Seq<LogEntryView>,
    k: int,
    t: Term,
) -> bool {
    k == 0 || t > 0 && settled_prefix(c, h, log, k, (t - 1) as Term)
}

/// The leader of the term knows that the first `k` entries of its log are committed, or has moved
/// on to a later term.
pub open spec fn known_to_leader(c: Cluster, h: History, k: int, t: Term) -> bool {
    h.leader.contains_key(t) && (c.nodes[h.leader[t]].term > t || k
        <= c.nodes[h.leader[t]].commit)
}

/// A node learns of a commit from the leader of its term, or brings it from an earlier term.
pub open spec fn commit_traced(c: Cluster, h: History, n: NodeId, s: NodeView) -> bool {
    settled_before(c, h, h.full[n], s.commit as int, s.term) || known_to_leader(
        c,
        h,
        s.commit as int,
        s.term,
    )
}

/// What a leader tells of its commit index, it knows.
pub open spec fn message_traced(c: Cluster, h: History, message: MessageView) -> bool {
    match message {
        MessageView::AppendEntries { msg, .. } => known_to_leader(
            c,
            h,
            msg.leader_commit as int,
            msg.term,
        ),
        MessageView::InstallSnapshot { msg, .. } => known_to_leader(
            c,
            h,
            msg.snapshot.last_index as int,
            msg.term,
        ),
        _ => true,
    }
}

pub open spec fn commits_traced(c: Cluster, h: History) -> bool {
    &&& forall|n: NodeId| #[trigger]
        c.nodes.contains_key(n) ==> commit_traced(c, h, n, c.nodes[n])
    &&& forall|m: (NodeId, MessageView)| #[trigger]
        c.sent.contains(m) ==> message_traced(c, h, m.1)
}

/// No commit index has gone down.
pub open spec fn commits_grow(c: Cluster, c2: Cluster) -> bool {
    &&& c2.nodes.dom() == c.nodes.dom()
    &&& forall|n: NodeId|
        #![trigger c2.nodes[n]]
        #![trigger c.nodes[n]]
        c.nodes.contains_key(n) ==> c2.nodes[n].commit >= c.nodes[n].commit
}

// ── One node ────────────────────────────────────────────────────────────────

/// Where a node learns of a commit: from the messages of the leader of its term, or, if it leads,
/// from the answers it gets.
pub open spec fn commit_learned(s: NodeView, message: MessageView, after: NodeView) -> bool {
    &&& after.commit >= s.commit
    &&& after.commit > s.commit ==> match message {
        MessageView::AppendEntries { msg, .. } => msg.term == after.term && after.commit
            <= msg.leader_commit,
        MessageView::InstallSnapshot { msg, .. } => msg.term == after.term && after.commit
            == msg.snapshot.last_index,
        MessageView::AppendEntriesResponse { .. } => s.role is Leader && after.term == s.term,
        MessageView::InstallSnapshotResponse { .. } => s.role is Leader && after.term == s.term,
        _ => false,
    }
}

proof fn lemma_commit_learned(s: NodeView, message: MessageView, timeout: u32, order: Seq<NodeId>)
    requires
        s.ready == ReadyView::empty(),
        s.accepts(message),
        s.log.last_index() < u64::MAX,
    ensures
        commit_learned(s, message, s.handle(message, timeout, order).settled(timeout)),
{
    match message {
        MessageView::AppendEntries { from, msg } => {
            if msg.term >= s.term {
                let follower = s.become_follower(msg.term, Some(from), timeout);
                let merged = follower.merge(msg.prev_log_index, msg.entries);
                crate::node::laws::lemma_held_bounded(
                    s.log,
                    msg.prev_log_index as int,
                    msg.entries,
                );
                lemma_commit_frame(merged, merged.commit_target(msg), timeout);
            }
        },
        MessageView::AppendEntriesResponse { from, msg } => {
            let credited = s.credit(from, msg.match_index);
            lemma_commit_frame(credited, credited.quorum_index(), timeout);
        },
        MessageView::InstallSnapshotResponse { from, msg } => {
            let credited = s.credit(from, s.installed_index(msg));
            lemma_commit_frame(credited, credited.quorum_index(), timeout);
        },
        _ => {},
    }
}

/// The message tells of the commit index that the node has.
pub open spec fn tells_commit(s: NodeView, message: MessageView) -> bool {
    match message {
        MessageView::AppendEntries { from, msg } => from == s.id && msg.term == s.term
            && msg.leader_commit == s.commit,
        MessageView::InstallSnapshot { .. } => false,
        _ => true,
    }
}

proof fn lemma_broadcast_tells(s: NodeView, order: Seq<NodeId>)
    requires
        s.ready.messages.len() == 0,
    ensures
        forall|m: (NodeId, MessageView)| #[trigger]
            s.broadcast(order).ready.messages.contains(m) ==> tells_commit(s, m.1),
{
    if let RoleView::Leader { next, .. } = s.role {
        let told = order.filter(|p: NodeId| next[p] > s.log.base);
        let all = s.broadcast(order).ready.messages;
        assert(all =~= told.map_values(|p: NodeId| (p, s.append_message(next[p]))));
    }
}

proof fn lemma_messages_tell(s: NodeView, message: MessageView, timeout: u32, order: Seq<NodeId>)
    requires
        s.ready == ReadyView::empty(),
    ensures
        ({
            let handled = s.handle(message, timeout, order);
            forall|m: (NodeId, MessageView)| #[trigger]
                handled.ready.messages.contains(m) ==> tells_commit(handled.settled(timeout), m.1)
        }),
{
    let handled = s.handle(message, timeout, order);
    match message {
        MessageView::Tick => {
            if s.heartbeat_due() {
                lemma_broadcast_tells(NodeView { heartbeat_ticks: 0, ..s }, order);
            }
        },
        MessageView::Propose { command } => {
            if s.role is Leader {
                lemma_append_tells(s, EntryType::Normal, command, order);
            }
        },
        MessageView::ProposeConfChange { cmd } => {
            if s.takes_conf_change() {
                let tracking = if cmd.op == ConfChangeOp::Add {
                    s.track(cmd.node_id)
                } else {
                    s
                };
                lemma_append_tells(
                    NodeView { pending_conf_change: true, ..tracking },
                    EntryType::ConfChange,
                    conf_change_bytes(cmd),
                    order,
                );
            }
        },
        MessageView::RequestVoteResponse { from, msg } => {
            if msg.term <= s.term && s.wins(from, msg) {
                let counted = NodeView {
                    role: RoleView::Candidate { votes: s.votes_with(from) },
                    ..s
                };
                let leader = NodeView {
                    role: handled.role,
                    heartbeat_ticks: 0,
                    ..counted
                };
                assert(handled == leader.append_own(EntryType::Normal, Seq::empty(), order));
                lemma_append_tells(leader, EntryType::Normal, Seq::empty(), order);
            }
        },
        MessageView::AppendEntries { from, msg } => {
            let follower = s.become_follower(msg.term, Some(from), timeout);
            let merged = follower.merge(msg.prev_log_index, msg.entries);
            lemma_commit_frame(merged, merged.commit_target(msg), timeout);
        },
        MessageView::AppendEntriesResponse { from, msg } => {
            let credited = s.credit(from, msg.match_index);
            lemma_commit_frame(credited, credited.quorum_index(), timeout);
        },
        MessageView::InstallSnapshotResponse { from, msg } => {
            let credited = s.credit(from, s.installed_index(msg));
            lemma_commit_frame(credited, credited.quorum_index(), timeout);
        },
        _ => {},
    }
}

proof fn lemma_append_tells(
    leader: NodeView,
    entry_type: EntryType,
    command: Seq<u8>,
    order: Seq<NodeId>,
)
    requires
        leader.ready.messages.len() == 0,
    ensures
        ({
            let handled = leader.append_own(entry_type, command, order);
            forall|m: (NodeId, MessageView)| #[trigger]
                handled.ready.messages.contains(m) ==> tells_commit(handled, m.1)
        }),
{
    let entry = LogEntryView {
        index: (leader.log.last_index() + 1) as LogIndex,
        term: leader.term,
        entry_type,
        command,
    };
    lemma_broadcast_tells(
        NodeView {
            log: leader.log.append(entry),
            ready: ReadyView { to_persist: leader.ready.to_persist.push(entry), ..leader.ready },
            ..leader
        },
        order,
    );
}

// ── A step ──────────────────────────────────────────────────────────────────

proof fn lemma_known_grows(c: Cluster, h: History, c2: Cluster, h2: History, k: int, t: Term)
    requires
        inv(c, h),
        grows(c, h, c2, h2),
        commits_grow(c, c2),
        known_to_leader(c, h, k, t),
    ensures
        known_to_leader(c2, h2, k, t),
{
    assert(h.leader.dom().contains(t));
    assert(h.written.contains_key(t));
    assert(term_inv(c, h, t));
    let l = h.leader[t];
    assert(c2.nodes[l].term >= c.nodes[l].term);
    assert(c2.nodes[l].commit >= c.nodes[l].commit);
}

/// A node whose commit index is what it was.
proof fn lemma_trace_grows(c: Cluster, h: History, c2: Cluster, h2: History, n: NodeId)
    requires
        inv(c, h),
        inv(c2, h2),
        grows(c, h, c2, h2),
        commits_grow(c, c2),
        c.nodes.contains_key(n),
        commit_traced(c, h, n, c.nodes[n]),
        c2.nodes[n].commit == c.nodes[n].commit,
    ensures
        commit_traced(c2, h2, n, c2.nodes[n]),
{
    let s = c.nodes[n];
    let s2 = c2.nodes[n];
    let k = s.commit as int;
    let full = h.full[n];
    let full2 = h2.full[n];
    assert(node_inv(c, h, n, s));
    assert(c2.nodes.contains_key(n));
    assert(node_inv(c2, h2, n, s2));
    assert(s2.term >= s.term);
    lemma_shows(s.log, full);
    assert(agree(full, full, k));
    lemma_settled_grows(c, h, c2, h2, full, full, k, s.term, s.term);
    lemma_settled_agree(c2, h2, full, k, s.term, full2, k, s2.term);
    if k > 0 {
        if s2.term > s.term {
            lemma_settled_grows(c, h, c2, h2, full, full2, k, s.term, (s2.term - 1) as Term);
        } else if settled_before(c, h, full, k, s.term) {
            let earlier = (s.term - 1) as Term;
            lemma_settled_grows(c, h, c2, h2, full, full2, k, earlier, earlier);
        } else {
            lemma_known_grows(c, h, c2, h2, k, s.term);
        }
    }
}

/// What has to be shown of a step at one node.
proof fn lemma_one_trace(c: Cluster, h: History, c2: Cluster, h2: History, n: NodeId)
    requires
        inv(c, h),
        inv(c2, h2),
        grows(c, h, c2, h2),
        commits_traced(c, h),
        commits_grow(c, c2),
        forall|m: NodeId|
            #![trigger c2.nodes[m]]
            m != n && c.nodes.contains_key(m) ==> c2.nodes[m] == c.nodes[m],
        commit_traced(c2, h2, n, c2.nodes[n]) || c2.nodes[n].commit == c.nodes[n].commit,
        forall|m: (NodeId, MessageView)| #[trigger]
            c2.sent.contains(m) ==> c.sent.contains(m) || message_traced(c2, h2, m.1),
    ensures
        commits_traced(c2, h2),
{
    assert forall|m: NodeId| #[trigger] c2.nodes.contains_key(m) implies commit_traced(
        c2,
        h2,
        m,
        c2.nodes[m],
    ) by {
        assert(c.nodes.contains_key(m));
        assert(commit_traced(c, h, m, c.nodes[m]));
        if c2.nodes[m].commit == c.nodes[m].commit {
            lemma_trace_grows(c, h, c2, h2, m);
        }
    }
    assert forall|m: (NodeId, MessageView)| #[trigger] c2.sent.contains(m) implies message_traced(
        c2,
        h2,
        m.1,
    ) by {
        if c.sent.contains(m) {
            assert(message_traced(c, h, m.1));
            match m.1 {
                MessageView::AppendEntries { msg, .. } => {
                    lemma_known_grows(c, h, c2, h2, msg.leader_commit as int, msg.term);
                },
                MessageView::InstallSnapshot { msg, .. } => {
                    lemma_known_grows(c, h, c2, h2, msg.snapshot.last_index as int, msg.term);
                },
                _ => {},
            }
        }
    }
}

proof fn lemma_delivery_traced(
    c: Cluster,
    h: History,
    h2: History,
    n: NodeId,
    message: MessageView,
    timeout: u32,
    order: Seq<NodeId>,
)
    requires
        inv(c, h),
        quiet(c),
        c.can_deliver(n, message, timeout, order),
        kept(c, h, c.delivered(n, message, timeout, order), h2),
        commits_traced(c, h),
    ensures
        commits_traced(c.delivered(n, message, timeout, order), h2),
        commits_grow(c, c.delivered(n, message, timeout, order)),
{
    let c2 = c.delivered(n, message, timeout, order);
    let s = c.nodes[n];
    let handled = s.handle(message, timeout, order);
    let after = handled.settled(timeout);
    assert(node_inv(c, h, n, s));
    assert(c2.nodes.contains_key(n));
    assert(node_inv(c2, h2, n, after));
    lemma_shows(s.log, h.full[n]);
    lemma_commit_learned(s, message, timeout, order);
    assert(commits_grow(c, c2));
    if after.commit > s.commit {
        match message {
            MessageView::AppendEntries { msg, .. } => {
                assert(message_traced(c, h, (n, message).1));
                lemma_known_grows(c, h, c2, h2, msg.leader_commit as int, msg.term);
            },
            MessageView::InstallSnapshot { msg, .. } => {
                assert(message_traced(c, h, (n, message).1));
                lemma_known_grows(c, h, c2, h2, msg.snapshot.last_index as int, msg.term);
            },
            _ => {
                assert(h.leader.contains_key(s.term));
                assert(h2.leader[s.term] == n);
            },
        }
        assert(commit_traced(c2, h2, n, after));
    }
    lemma_messages_tell(s, message, timeout, order);
    assert forall|m: (NodeId, MessageView)| #[trigger] c2.sent.contains(m) implies c.sent.contains(m)
        || message_traced(c2, h2, m.1) by {
        if !c.sent.contains(m) {
            assert(handled.ready.messages.contains(m));
            assert(tells_commit(after, m.1));
            assert(message_inv(c2, h2, m.0, m.1));
        }
    }
    lemma_one_trace(c, h, c2, h2, n);
}

/// Every step keeps the commits traced.
proof fn lemma_step_traced(c: Cluster, h: History, c2: Cluster, h2: History)
    requires
        inv(c, h),
        quiet(c),
        c.steps_to(c2),
        kept(c, h, c2, h2),
        commits_traced(c, h),
    ensures
        commits_traced(c2, h2),
        commits_grow(c, c2),
{
    if exists|n: NodeId, message: MessageView, timeout: u32, order: Seq<NodeId>|
        #[trigger] c.can_deliver(n, message, timeout, order) && c2 == c.delivered(
            n,
            message,
            timeout,
            order,
        ) {
        let (n, message, timeout, order) = choose|
            n: NodeId,
            message: MessageView,
            timeout: u32,
            order: Seq<NodeId>,
        |
            #[trigger] c.can_deliver(n, message, timeout, order) && c2 == c.delivered(
                n,
                message,
                timeout,
                order,
            );
        lemma_delivery_traced(c, h, h2, n, message, timeout, order);
    } else if exists|n: NodeId, to: NodeId, data: Seq<u8>|
        #[trigger] c.can_send_snapshot(n, to, data) && c2 == c.snapshot_sent(n, to, data) {
        let (n, to, data) = choose|n: NodeId, to: NodeId, data: Seq<u8>|
            #[trigger] c.can_send_snapshot(n, to, data) && c2 == c.snapshot_sent(n, to, data);
        assert(node_inv(c, h, n, c.nodes[n]));
        assert(commits_grow(c, c2));
        assert forall|m: (NodeId, MessageView)| #[trigger] c2.sent.contains(m) implies c.sent.contains(
            m,
        ) || message_traced(c2, h2, m.1) by {
            assert(h.leader.contains_key(c.nodes[n].term));
        }
        lemma_one_trace(c, h, c2, h2, n);
    } else if exists|n: NodeId, index: LogIndex|
        #[trigger] c.can_compact(n, index) && c2 == c.compacted(n, index) {
        let (n, index) = choose|n: NodeId, index: LogIndex|
            #[trigger] c.can_compact(n, index) && c2 == c.compacted(n, index);
        assert(c2.nodes.dom() =~= c.nodes.dom());
        assert(commits_grow(c, c2));
        lemma_one_trace(c, h, c2, h2, n);
    } else {
        let (n, after) = choose|n: NodeId, after: NodeView|
            #[trigger] c.can_restart(n, after) && c2 == c.restarted(n, after);
        assert(c2.nodes.dom() =~= c.nodes.dom());
        let s = c.nodes[n];
        let (loaded, timeout) = choose|loaded: NodeView, timeout: u32|
            s.loads_as(c.initial_members(n), c.voters.contains(n), loaded) && after == (
            #[trigger] loaded.apply_committed(timeout)).drained();
        crate::node::laws::lemma_apply_frame(loaded, timeout);
        assert(commits_grow(c, c2));
        lemma_one_trace(c, h, c2, h2, n);
    }
}

proof fn lemma_start_traced(c: Cluster, h: History, n: NodeId)
    requires
        inv(c, h),
        exists|start: Start| #[trigger] c.starts_from(start) && h == first_history(c, start),
        c.nodes.contains_key(n),
    ensures
        commit_traced(c, h, n, c.nodes[n]),
{
    let start = choose|start: Start| #[trigger]
        c.starts_from(start) && h == first_history(c, start);
    let s = c.nodes[n];
    assert(s.starts_in(n, c.initial_members(n), c.voters.contains(n), start));
    assert(node_inv(c, h, n, s));
    if s.commit > 0 {
        assert(c.nodes.dom().contains(n));
        let t = start.base_term;
        let l = h.leader[t];
        assert(c.nodes.dom().contains(l));
        assert(c.nodes.contains_key(l));
        assert(c.nodes[l].starts_in(l, c.initial_members(l), c.voters.contains(l), start));
        if t == s.term {
            assert(known_to_leader(c, h, s.commit as int, t));
        } else {
            let (u, m) = choose|u: Term, m: int|
                #[trigger] decided(c, h, u, m) && u <= s.term && s.commit <= m && agree(
                    h.full[n],
                    h.written[u],
                    s.commit as int,
                );
            assert(h.written.contains_key(u));
            assert(u == t);
            assert(settled_prefix(c, h, h.full[n], s.commit as int, (s.term - 1) as Term));
        }
    }
}

/// At the end of a run the commits are traced, and none of them has gone down on the way.
pub(crate) proof fn lemma_run_traced(run: Seq<Cluster>) -> (h: History)
    requires
        is_run(run),
    ensures
        inv(run.last(), h),
        quiet(run.last()),
        commits_traced(run.last(), h),
        forall|i: int| 0 <= i < run.len() ==> commits_grow(#[trigger] run[i], run.last()),
    decreases run.len(),
{
    if run.len() <= 1 {
        let h = lemma_fresh(run[0]);
        assert forall|n: NodeId| #[trigger] run[0].nodes.contains_key(n) implies commit_traced(
            run[0],
            h,
            n,
            run[0].nodes[n],
        ) by {
            lemma_start_traced(run[0], h, n);
        }
        h
    } else {
        let earlier = run.drop_last();
        let h = lemma_run_traced(earlier);
        let c = earlier.last();
        let c2 = run.last();
        let h2 = lemma_step(c, h, c2);
        lemma_step_traced(c, h, c2, h2);
        assert forall|i: int| 0 <= i < run.len() implies commits_grow(#[trigger] run[i], c2) by {
            if i < run.len() - 1 {
                assert(run[i] == earlier[i]);
                assert(commits_grow(earlier[i], c));
                assert forall|n: NodeId| run[i].nodes.contains_key(n) implies (
                #[trigger] c2.nodes[n]).commit >= run[i].nodes[n].commit by {
                    assert(c.nodes[n].commit >= run[i].nodes[n].commit);
                }
            }
        }
        h2
    }
}

// ── The law ─────────────────────────────────────────────────────────────────

impl NodeView {
    /// The last entry that the leader knows to be committed is of its own term.
    pub open spec fn has_committed_in_term(self) -> bool {
        self.log.term_at(self.commit as int) == Some(self.term)
    }
}

/// The commit index that a leader captures for a read covers everything that any node has ever
/// known to be committed. It holds once the leader has committed an entry of its own term, and as
/// long as nobody has moved on to a later one.
pub proof fn law_read_index_is_current(run: Seq<Cluster>, i: int, leader: NodeId, j: int, n: NodeId)
    requires
        is_run(run),
        0 <= j <= i < run.len(),
        run[i].nodes.contains_key(leader),
        run[i].nodes[leader].role is Leader,
        run[i].nodes[leader].has_committed_in_term(),
        forall|m: NodeId| #[trigger]
            run[i].nodes.contains_key(m) ==> run[i].nodes[m].term <= run[i].nodes[leader].term,
        run[j].nodes.contains_key(n),
    ensures
        run[j].nodes[n].commit <= run[i].nodes[leader].commit,
{
    crate::cluster::laws::lemma_run_prefix(run, i + 1);
    let part = run.take(i + 1);
    let h = lemma_run_traced(part);
    let c = part.last();
    assert(c == run[i]);
    assert(part[j] == run[j]);
    assert(commits_grow(part[j], c));
    assert(c.nodes.dom().contains(n));
    assert(c.nodes[n].commit >= run[j].nodes[n].commit);
    let s = c.nodes[n];
    let l = c.nodes[leader];
    let t = l.term;
    assert(node_inv(c, h, n, s));
    assert(node_inv(c, h, leader, l));
    assert(commit_traced(c, h, n, s));
    assert(h.leader.dom().contains(t));
    assert(h.written.contains_key(t));
    assert(term_inv(c, h, t));
    let log = h.written[t];
    lemma_shows(l.log, log);
    assert(l.log.term_at(l.commit as int) == Some(term_of(log, l.commit as int)));
    if s.term == t && !settled_before(c, h, h.full[n], s.commit as int, t) {
        assert(known_to_leader(c, h, s.commit as int, t));
    } else if s.commit > 0 {
        let before = (t - 1) as Term;
        if s.term < t {
            lemma_settled_less(
                c,
                h,
                h.full[n],
                s.commit as int,
                s.term,
                s.commit as int,
                before,
            );
        }
        let (u, m) = choose|u: Term, m: int|
            #[trigger] decided(c, h, u, m) && u <= before && s.commit <= m && agree(
                h.full[n],
                h.written[u],
                s.commit as int,
            );
        lemma_decided_is_open(c, h, u, m);
        assert(agree(h.written[u], log, m));
        assert(log[m - 1].term == u);
        if l.commit < m {
            assert(log[l.commit - 1].term <= log[m - 1].term);
        }
    }
}

} // verus!
