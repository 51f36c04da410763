//! What holds of a cluster as a whole, in every run whose membership changes concern
//! a single node.
use vstd::prelude::*;

use crate::cluster::delivery::{lemma_fresh, lemma_step, quiet};
use crate::cluster::following::lemma_committed_is_led;
use crate::cluster::growth::{
    grows, lemma_decided_is_open, lemma_settled_grows, lemma_shows, lemma_traced_grows,
};
use crate::cluster::history::{
    agree, decided, inv, message_inv, node_inv, plain, settled_prefix, term_inv, term_of, History,
};
use crate::cluster::{is_run, Cluster, Start};
use crate::config::Config;
use crate::handle::HandleView;
use crate::handle::laws::numbered;
use crate::kv::TextMap;
use crate::message::{LogEntryView, MessageView, NodeId, Term};
use crate::node::laws::well_indexed;
use crate::node::{NodeView, ReadyView};
use crate::replay::ReplayView;

verus! {

// ── What a run leaves behind ────────────────────────────────────────────────

/// `full` is a log that the node shows, and its committed part is settled.
pub open spec fn backs(c: Cluster, h: History, s: NodeView, full: Seq<LogEntryView>) -> bool {
    &&& s.log.shows(full)
    &&& plain(full)
    &&& h.traced(full)
    &&& settled_prefix(c, h, full, s.commit as int, s.term)
    &&& s.role is Leader ==> h.written.contains_key(s.term) && agree(
        full,
        h.written[s.term],
        full.len() as int,
    ) && full.len() > 0 && full[full.len() - 1].term == s.term
}

/// The history knows of a node as it was at some time.
pub open spec fn remembered(c: Cluster, h: History, n: NodeId, s: NodeView) -> bool {
    &&& s.role is Leader ==> h.leader.contains_key(s.term) && h.leader[s.term] == n
    &&& exists|full: Seq<LogEntryView>| #[trigger] backs(c, h, s, full)
}

pub open spec fn remembers(c: Cluster, h: History, past: Cluster) -> bool {
    forall|n: NodeId| #[trigger]
        past.nodes.contains_key(n) ==> remembered(c, h, n, past.nodes[n])
}

proof fn lemma_remembers_itself(c: Cluster, h: History)
    requires
        inv(c, h),
    ensures
        remembers(c, h, c),
{
    assert forall|n: NodeId| #[trigger] c.nodes.contains_key(n) implies remembered(
        c,
        h,
        n,
        c.nodes[n],
    ) by {
        let s = c.nodes[n];
        assert(node_inv(c, h, n, s));
        if s.role is Leader {
            assert(h.leader.dom().contains(s.term));
            assert(h.written.contains_key(s.term));
            assert(term_inv(c, h, s.term));
        }
        assert(backs(c, h, s, h.full[n]));
    }
}

proof fn lemma_remembers_on(c: Cluster, h: History, c2: Cluster, h2: History, past: Cluster)
    requires
        inv(c, h),
        grows(c, h, c2, h2),
        remembers(c, h, past),
    ensures
        remembers(c2, h2, past),
{
    assert forall|n: NodeId| #[trigger] past.nodes.contains_key(n) implies remembered(
        c2,
        h2,
        n,
        past.nodes[n],
    ) by {
        let s = past.nodes[n];
        assert(remembered(c, h, n, s));
        let full = choose|full: Seq<LogEntryView>| #[trigger] backs(c, h, s, full);
        lemma_traced_grows(c, h, c2, h2, full);
        assert(agree(full, full, s.commit as int));
        lemma_settled_grows(c, h, c2, h2, full, full, s.commit as int, s.term, s.term);
        if s.role is Leader {
            assert(h.written.contains_key(s.term));
        }
        assert(backs(c2, h2, s, full));
    }
}

proof fn lemma_remembers_run(run: Seq<Cluster>, h: History, h2: History)
    requires
        run.len() > 1,
        inv(run[run.len() - 2], h),
        grows(run[run.len() - 2], h, run.last(), h2),
        remembers(run.last(), h2, run.last()),
        forall|i: int|
            0 <= i < run.len() - 1 ==> remembers(
                run[run.len() - 2],
                h,
                #[trigger] run.drop_last()[i],
            ),
    ensures
        forall|i: int| 0 <= i < run.len() ==> remembers(run.last(), h2, #[trigger] run[i]),
{
    assert forall|i: int| 0 <= i < run.len() implies remembers(
        run.last(),
        h2,
        #[trigger] run[i],
    ) by {
        if i < run.len() - 1 {
            assert(run[i] == run.drop_last()[i]);
            lemma_remembers_on(run[run.len() - 2], h, run.last(), h2, run[i]);
        }
    }
}

/// At the end of a run there is a history that satisfies the invariant and knows of every state.
pub(crate) proof fn lemma_run(run: Seq<Cluster>) -> (h: History)
    requires
        is_run(run),
    ensures
        inv(run.last(), h),
        quiet(run.last()),
        exists|start: Start| #[trigger] run[0].starts_from(start) && h.started == start.term,
        forall|i: int| 0 <= i < run.len() ==> remembers(run.last(), h, #[trigger] run[i]),
    decreases run.len(),
{
    if run.len() <= 1 {
        let h = lemma_fresh(run[0]);
        lemma_remembers_itself(run[0], h);
        h
    } else {
        let earlier = run.drop_last();
        let h = lemma_run(earlier);
        let c = earlier.last();
        let c2 = run.last();
        let h2 = lemma_step(c, h, c2);
        lemma_remembers_itself(c2, h2);
        lemma_remembers_run(run, h, h2);
        h2
    }
}

/// The beginning of a run is a run.
pub(crate) proof fn lemma_run_prefix(run: Seq<Cluster>, n: int)
    requires
        is_run(run),
        0 < n <= run.len(),
    ensures
        is_run(run.take(n)),
    decreases run.len(),
{
    if n == run.len() {
        assert(run.take(n) =~= run);
    } else {
        lemma_run_prefix(run.drop_last(), n);
        assert(run.drop_last().take(n) =~= run.take(n));
    }
}

/// Two logs agree on what is committed in both.
pub(crate) proof fn lemma_settled_agree(
    c: Cluster,
    h: History,
    one: Seq<LogEntryView>,
    k: int,
    t: Term,
    other: Seq<LogEntryView>,
    m: int,
    u: Term,
)
    requires
        inv(c, h),
        settled_prefix(c, h, one, k, t),
        settled_prefix(c, h, other, m, u),
        0 <= k <= m,
    ensures
        agree(one, other, k),
{
    if k > 0 {
        let (a, i) = choose|a: Term, i: int|
            #[trigger] decided(c, h, a, i) && a <= t && k <= i && agree(one, h.written[a], k);
        let (b, j) = choose|b: Term, j: int|
            #[trigger] decided(c, h, b, j) && b <= u && m <= j && agree(other, h.written[b], m);
        lemma_decided_is_open(c, h, a, i);
        lemma_decided_is_open(c, h, b, j);
        if a < b {
            assert(agree(h.written[a], h.written[b], i));
        } else if b < a {
            assert(agree(h.written[b], h.written[a], j));
        }
    }
}

// ── Laws ────────────────────────────────────────────────────────────────────

/// A term has at most one leader, ever.
pub proof fn law_one_leader_per_term(run: Seq<Cluster>, i: int, a: NodeId, j: int, b: NodeId)
    requires
        is_run(run),
        0 <= i < run.len(),
        0 <= j < run.len(),
        run[i].nodes.contains_key(a),
        run[j].nodes.contains_key(b),
        run[i].nodes[a].role is Leader,
        run[j].nodes[b].role is Leader,
        run[i].nodes[a].term == run[j].nodes[b].term,
    ensures
        a == b,
{
    let h = lemma_run(run);
    assert(remembers(run.last(), h, run[i]));
    assert(remembers(run.last(), h, run[j]));
}

/// Where two logs hold an entry of the same term at the same position, they hold the same entries
/// up to that position.
pub proof fn law_logs_match(run: Seq<Cluster>, i: int, a: NodeId, b: NodeId, index: int, below: int)
    requires
        is_run(run),
        0 <= i < run.len(),
        run[i].nodes.contains_key(a),
        run[i].nodes.contains_key(b),
        run[i].nodes[a].log.has(index),
        run[i].nodes[b].log.has(index),
        run[i].nodes[a].log.at(index).term == run[i].nodes[b].log.at(index).term,
        below <= index,
        run[i].nodes[a].log.has(below),
        run[i].nodes[b].log.has(below),
    ensures
        run[i].nodes[a].log.at(below) == run[i].nodes[b].log.at(below),
{
    lemma_run_prefix(run, i + 1);
    let h = lemma_run(run.take(i + 1));
    let c = run.take(i + 1).last();
    assert(c == run[i]);
    assert(node_inv(c, h, a, c.nodes[a]));
    assert(node_inv(c, h, b, c.nodes[b]));
    let one = h.full[a];
    let other = h.full[b];
    lemma_shows(c.nodes[a].log, one);
    lemma_shows(c.nodes[b].log, other);
    assert(c.nodes[a].log.at(index) == one[index - 1]);
    assert(c.nodes[b].log.at(index) == other[index - 1]);
    let t = one[index - 1].term;
    assert(agree(one, h.written[t], index));
    assert(agree(other, h.written[t], index));
    assert(c.nodes[a].log.at(below) == one[below - 1]);
    assert(c.nodes[b].log.at(below) == other[below - 1]);
}

/// What a node knows to be committed, every leader of a later term has in its log.
pub proof fn law_leaders_have_what_is_committed(
    run: Seq<Cluster>,
    i: int,
    a: NodeId,
    j: int,
    b: NodeId,
    index: int,
)
    requires
        is_run(run),
        0 <= i < run.len(),
        0 <= j < run.len(),
        run[i].nodes.contains_key(a),
        run[j].nodes.contains_key(b),
        0 < index <= run[i].nodes[a].commit,
        run[j].nodes[b].role is Leader,
        run[j].nodes[b].term > run[i].nodes[a].term,
    ensures
        index <= run[j].nodes[b].log.last_index(),
        run[i].nodes[a].log.has(index) && run[j].nodes[b].log.has(index)
            ==> run[i].nodes[a].log.at(index) == run[j].nodes[b].log.at(index),
{
    let h = lemma_run(run);
    let c = run.last();
    let one = run[i].nodes[a];
    let leader = run[j].nodes[b];
    assert(remembers(c, h, run[i]));
    assert(remembers(c, h, run[j]));
    assert(remembered(c, h, a, one));
    assert(remembered(c, h, b, leader));
    let full = choose|full: Seq<LogEntryView>| #[trigger] backs(c, h, one, full);
    let led = choose|full: Seq<LogEntryView>| #[trigger] backs(c, h, leader, full);
    let log = h.written[leader.term];
    lemma_shows(one.log, full);
    lemma_shows(leader.log, led);
    let (u, m) = choose|u: Term, m: int|
        #[trigger] decided(c, h, u, m) && u <= one.term && one.commit <= m && agree(
            full,
            h.written[u],
            one.commit as int,
        );
    lemma_decided_is_open(c, h, u, m);
    assert(agree(h.written[u], log, m));
    assert(term_inv(c, h, leader.term));
    // The leader's log ends with an entry of its own term, which lies behind.
    if led.len() < m {
        assert(log[led.len() - 1].term <= log[m - 1].term);
    }
    assert(full[index - 1] == log[index - 1]);
    assert(led[index - 1] == log[index - 1]);
}

/// No message that a node can be handed in a run contradicts what the node knows to be committed,
/// and every entry, in the log and in the message, stands at the position it names.
pub proof fn law_messages_agree_with_committed(
    run: Seq<Cluster>,
    n: NodeId,
    message: MessageView,
    timeout: u32,
    order: Seq<NodeId>,
)
    requires
        is_run(run),
        run.last().can_deliver(n, message, timeout, order),
    ensures
        run.last().nodes[n].consistent(),
        run.last().nodes[n].log.indexed(),
        run.last().nodes[n].ready == ReadyView::empty(),
        run.last().nodes[n].agrees_with_committed(message),
        well_indexed(message),
{
    let h = lemma_run(run);
    let c = run.last();
    let s = c.nodes[n];
    let full = h.full[n];
    assert(node_inv(c, h, n, s));
    lemma_shows(s.log, full);
    assert forall|i: int| 0 <= i < s.log.entries.len() implies (#[trigger] s.log.entries[i]).index
        == s.log.base + 1 + i by {
        assert(s.log.entries[i] == full[s.log.base + i]);
    }
    if let MessageView::AppendEntries { from, msg } = message {
        let t = msg.term;
        assert(message_inv(c, h, n, message));
        assert(h.leader.dom().contains(t));
        assert(h.written.contains_key(t));
        assert(term_inv(c, h, t));
        let log = h.written[t];
        assert forall|i: int| 0 <= i < msg.entries.len() implies (#[trigger] msg.entries[i]).index
            == msg.prev_log_index + 1 + i by {
            assert(msg.entries[i] == log[msg.prev_log_index + i]);
        }
        if t >= s.term {
            lemma_committed_is_led(c, h, full, s.commit as int, s.term, t);
            assert forall|i: int|
                0 <= i < msg.entries.len() && s.log.base < msg.prev_log_index + 1 + i
                    <= s.commit implies s.log.term_at(msg.prev_log_index + 1 + i) == Some(
                (#[trigger] msg.entries[i]).term,
            ) by {
                let at = msg.prev_log_index + i;
                assert(msg.entries[i] == log[at]);
                assert(full[at] == log[at]);
                assert(s.log.term_at(at + 1) == Some(term_of(full, at + 1)));
            }
        }
    }
}

/// Everything that the node knows to be committed and still shows is what the history says.
pub open spec fn follows(s: NodeView, history: Seq<LogEntryView>) -> bool {
    &&& s.commit <= history.len()
    &&& forall|k: int|
        s.log.base < k <= s.commit ==> #[trigger] s.log.at(k) == history[k - 1]
}

/// There is a single sequence of entries that every node, at every time, has committed a prefix
/// of. As a node applies what is committed in log order and nothing else, all nodes apply the same
/// entries in the same order.
pub proof fn law_one_history(run: Seq<Cluster>) -> (history: Seq<LogEntryView>)
    requires
        is_run(run),
    ensures
        numbered(history),
        forall|i: int, n: NodeId|
            0 <= i < run.len() && #[trigger] run[i].nodes.contains_key(n) ==> follows(
                run[i].nodes[n],
                history,
            ),
{
    let h = lemma_run(run);
    let c = run.last();
    assert forall|i: int, n: NodeId|
        0 <= i < run.len() && #[trigger] run[i].nodes.contains_key(n) implies remembered(
        c,
        h,
        n,
        run[i].nodes[n],
    ) && run[i].nodes[n].commit <= u64::MAX by {
        assert(remembers(c, h, run[i]));
    }
    lemma_longest(run, c, h, u64::MAX as int)
}

/// What a step hands to the store of a node is the next stretch of that history, from where the
/// node stood. A snapshot is the only other way in which a store moves on.
pub proof fn law_steps_apply_the_history(
    run: Seq<Cluster>,
    n: NodeId,
    message: MessageView,
    timeout: u32,
    order: Seq<NodeId>,
    history: Seq<LogEntryView>,
)
    requires
        is_run(run),
        run.last().can_deliver(n, message, timeout, order),
        run.last().nodes[n].valid(),
        message !is InstallSnapshot,
        follows(run.last().delivered(n, message, timeout, order).nodes[n], history),
    ensures
        run.last().nodes[n].handle(message, timeout, order).ready.to_apply == history.subrange(
            run.last().nodes[n].applied as int,
            run.last().delivered(n, message, timeout, order).nodes[n].applied as int,
        ),
{
    let s = run.last().nodes[n];
    let handled = s.handle(message, timeout, order);
    law_messages_agree_with_committed(run, n, message, timeout, order);
    crate::node::laws::law_committed_entries_stay(s, message, timeout, order);
    crate::node::laws::law_entries_applied_in_order(s, message, timeout, order);
    lemma_no_snapshot(s, message, timeout, order);
    let applied = handled.ready.to_apply;
    let stretch = history.subrange(s.applied as int, handled.applied as int);
    assert(applied.len() == stretch.len());
    assert forall|i: int| 0 <= i < applied.len() implies applied[i] == stretch[i] by {
        let k = s.applied + 1 + i;
        assert(applied[i] == handled.log.at(k));
        assert(handled.log.at(k) == history[k - 1]);
    }
    assert(applied =~= stretch);
}

/// Only a snapshot message makes a node install a snapshot.
pub(crate) proof fn lemma_no_snapshot(s: NodeView, message: MessageView, timeout: u32, order: Seq<NodeId>)
    requires
        s.ready == ReadyView::empty(),
        message !is InstallSnapshot,
    ensures
        s.handle(message, timeout, order).ready.snapshot_to_apply is None,
{
    match message {
        MessageView::AppendEntries { from, msg } => {
            let follower = s.become_follower(msg.term, Some(from), timeout);
            let merged = follower.merge(msg.prev_log_index, msg.entries);
            crate::node::laws::lemma_commit_frame(merged, merged.commit_target(msg), timeout);
        },
        MessageView::AppendEntriesResponse { from, msg } => {
            let credited = s.credit(from, msg.match_index);
            crate::node::laws::lemma_commit_frame(credited, credited.quorum_index(), timeout);
        },
        MessageView::InstallSnapshotResponse { from, msg } => {
            let credited = s.credit(from, s.installed_index(msg));
            crate::node::laws::lemma_commit_frame(credited, credited.quorum_index(), timeout);
        },
        _ => {},
    }
}

/// A node that has committed no more than another follows what the other has committed.
proof fn lemma_follows(c: Cluster, h: History, n: NodeId, s: NodeView, most: NodeView, full: Seq<
    LogEntryView,
>)
    requires
        inv(c, h),
        remembered(c, h, n, s),
        backs(c, h, most, full),
        s.commit <= most.commit,
    ensures
        follows(s, full.take(most.commit as int)),
{
    let own = choose|full: Seq<LogEntryView>| #[trigger] backs(c, h, s, full);
    let history = full.take(most.commit as int);
    lemma_shows(s.log, own);
    lemma_settled_agree(c, h, own, s.commit as int, s.term, full, most.commit as int, most.term);
    assert forall|k: int| s.log.base < k <= s.commit implies #[trigger] s.log.at(k) == history[k
        - 1] by {
        assert(s.log.at(k) == own[k - 1]);
        assert(own[k - 1] == full[k - 1]);
    }
}

/// The longest committed log of a run.
proof fn lemma_longest(run: Seq<Cluster>, c: Cluster, h: History, most: int) -> (history: Seq<
    LogEntryView,
>)
    requires
        inv(c, h),
        0 <= most,
        forall|i: int, n: NodeId|
            0 <= i < run.len() && #[trigger] run[i].nodes.contains_key(n) ==> remembered(
                c,
                h,
                n,
                run[i].nodes[n],
            ) && run[i].nodes[n].commit <= most,
    ensures
        numbered(history),
        forall|i: int, n: NodeId|
            0 <= i < run.len() && #[trigger] run[i].nodes.contains_key(n) ==> follows(
                run[i].nodes[n],
                history,
            ),
    decreases most,
{
    if exists|i: int, n: NodeId|
        0 <= i < run.len() && #[trigger] run[i].nodes.contains_key(n) && run[i].nodes[n].commit
            == most {
        let (i, n) = choose|i: int, n: NodeId|
            0 <= i < run.len() && #[trigger] run[i].nodes.contains_key(n) && run[i].nodes[n].commit
                == most;
        let s = run[i].nodes[n];
        let full = choose|full: Seq<LogEntryView>| #[trigger] backs(c, h, s, full);
        assert forall|j: int, m: NodeId|
            0 <= j < run.len() && #[trigger] run[j].nodes.contains_key(m) implies follows(
            run[j].nodes[m],
            full.take(most),
        ) by {
            lemma_follows(c, h, m, run[j].nodes[m], s, full);
        }
        full.take(most)
    } else if most == 0 {
        Seq::empty()
    } else {
        lemma_longest(run, c, h, most - 1)
    }
}

/// A node goes by the voters with the node that membership changes concern or by those without it,
/// and only one of those that it goes by stands for election or leads.
pub proof fn law_members_differ_in_one_node(run: Seq<Cluster>, i: int, n: NodeId)
    requires
        is_run(run),
        0 <= i < run.len(),
        run[i].nodes.contains_key(n),
    ensures
        ({
            let s = run[i].nodes[n];
            &&& s.members == run[i].voters || s.members == run[i].changed()
            &&& s.role !is Follower ==> s.is_voter
            &&& s.is_voter ==> s.members.contains(n)
        }),
{
    lemma_run_prefix(run, i + 1);
    let part = run.take(i + 1);
    let h = lemma_run(part);
    assert(part.last() == run[i]);
    assert(node_inv(run[i], h, n, run[i].nodes[n]));
}

impl Cluster {
    /// The node runs with this config: it was first started with it, as a voter or as a learner.
    pub open spec fn runs_with(self, n: NodeId, raft: Config, learner: bool) -> bool {
        &&& n == raft.id
        &&& self.initial_members(n) == raft.peers@.to_set().insert(raft.id)
        &&& self.voters.contains(n) == !learner
        &&& self.nodes[n].id == n
        &&& self.nodes[n].election_base == raft.election_timeout
        &&& self.nodes[n].heartbeat_timeout == raft.heartbeat_timeout
        &&& self.nodes[n].max_entries == raft.max_entries_per_append
    }
}

/// A node that crashes and comes back from a log file that holds its state takes one of the steps
/// that a run consists of: no promise about runs depends on a node staying up.
pub proof fn law_recovery_is_a_step(
    run: Seq<Cluster>,
    n: NodeId,
    raft: Config,
    replay: ReplayView,
    store: TextMap,
    dir: String,
    threshold: u64,
    learner: bool,
    drawn: u32,
    redrawn: u32,
)
    requires
        is_run(run),
        run.last().nodes.contains_key(n),
        run.last().runs_with(n, raft, learner),
        replay.holds(run.last().nodes[n]),
        replay.has_state || replay == ReplayView::empty(),
    ensures
        ({
            let after = HandleView::started(
                raft,
                replay,
                store,
                dir,
                threshold,
                learner,
                drawn,
                redrawn,
            ).node;
            run.last().can_restart(n, after) && run.last().steps_to(run.last().restarted(n, after))
        }),
{
    let h = lemma_run(run);
    let c = run.last();
    let s = c.nodes[n];
    let full = h.full[n];
    assert(node_inv(c, h, n, s));
    lemma_shows(s.log, full);
    let after = HandleView::started(
        raft,
        replay,
        store,
        dir,
        threshold,
        learner,
        drawn,
        redrawn,
    ).node;
    let fresh = NodeView::fresh(raft, !learner, drawn);
    let state = replay.restore_state();
    let loaded = NodeView {
        term: state.term,
        voted_for: state.voted_for,
        log: state.log,
        commit: state.resumed_commit(),
        applied: state.log.base,
        ..fresh
    };
    if !replay.has_state {
        assert(s.log.entries =~= fresh.log.entries);
        assert(loaded == fresh);
    }
    assert(s.loads_as(c.initial_members(n), !learner, loaded));
    assert(after == loaded.apply_committed(redrawn).drained());
    assert(c.can_restart(n, after));
}

} // verus!
