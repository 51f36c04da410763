//! A cluster that is stopped and started again goes on with its history.
use vstd::prelude::*;

use crate::cluster::history::node_inv;
use crate::cluster::laws::{follows, law_one_history, lemma_run, lemma_run_prefix};
use crate::cluster::reads::{commits_grow, lemma_run_traced};
use crate::cluster::writes::{lemma_plain_step, lemma_state};
use crate::cluster::{is_run, Cluster, Start};
use crate::config::Config;
use crate::handle::laws::numbered;
use crate::handle::HandleView;
use crate::kv::TextMap;
use crate::message::{LogEntryView, LogIndex, MessageView, NodeId};
use crate::node::laws::lemma_apply_frame;
use crate::node::{NodeView, ReadyView};
use crate::replay::ReplayView;

verus! {

/// Every node has folded at least this much into a snapshot.
pub open spec fn covers(c: Cluster, index: LogIndex) -> bool {
    forall|n: NodeId| #[trigger] c.nodes.contains_key(n) ==> c.nodes[n].log.base >= index
}

proof fn lemma_base_stays(s: NodeView, message: MessageView, timeout: u32, order: Seq<NodeId>)
    requires
        s.ready == ReadyView::empty(),
        s.log.base <= s.commit,
    ensures
        s.handle(message, timeout, order).settled(timeout).log.base >= s.log.base,
{
    if message !is InstallSnapshot {
        lemma_plain_step(s, message, timeout, order);
    } else {
        let handled = s.handle(message, timeout, order);
        if let Some(snapshot) = handled.ready.snapshot_to_apply {
            assert(snapshot.last_index > s.commit);
        }
    }
}

/// What is folded into a snapshot stays so.
proof fn lemma_covered_on(run: Seq<Cluster>, c2: Cluster, index: LogIndex)
    requires
        is_run(run),
        run.last().steps_to(c2),
        covers(run.last(), index),
    ensures
        covers(c2, index),
{
    let c = run.last();
    assert forall|n: NodeId| #[trigger] c2.nodes.contains_key(n) implies c2.nodes[n].log.base
        >= index by {
        if exists|m: NodeId, message: MessageView, timeout: u32, order: Seq<NodeId>|
            #[trigger] c.can_deliver(m, message, timeout, order) && c2 == c.delivered(
                m,
                message,
                timeout,
                order,
            ) {
            let (m, message, timeout, order) = choose|
                m: NodeId,
                message: MessageView,
                timeout: u32,
                order: Seq<NodeId>,
            |
                #[trigger] c.can_deliver(m, message, timeout, order) && c2 == c.delivered(
                    m,
                    message,
                    timeout,
                    order,
                );
            lemma_state(run, run.len() - 1, m);
            lemma_base_stays(c.nodes[m], message, timeout, order);
            assert(c.nodes.contains_key(n));
        } else if exists|m: NodeId, to: NodeId, data: Seq<u8>|
            #[trigger] c.can_send_snapshot(m, to, data) && c2 == c.snapshot_sent(m, to, data) {
            assert(c.nodes.contains_key(n));
        } else if exists|m: NodeId, at: LogIndex|
            #[trigger] c.can_compact(m, at) && c2 == c.compacted(m, at) {
            assert(c.nodes.contains_key(n));
        } else {
            let (m, after) = choose|m: NodeId, after: NodeView|
                #[trigger] c.can_restart(m, after) && c2 == c.restarted(m, after);
            let s = c.nodes[m];
            let (loaded, timeout) = choose|loaded: NodeView, timeout: u32|
                s.loads_as(c.initial_members(m), c.voters.contains(m), loaded) && after == (
                #[trigger] loaded.apply_committed(timeout)).drained();
            lemma_apply_frame(loaded, timeout);
            assert(c.nodes.contains_key(n));
        }
    }
}

proof fn lemma_covered(run: Seq<Cluster>, start: Start, i: int)
    requires
        is_run(run),
        run[0].starts_from(start),
        0 <= i < run.len(),
    ensures
        covers(run[i], start.base),
    decreases i,
{
    if i == 0 {
        let c = run[0];
        assert forall|n: NodeId| #[trigger] c.nodes.contains_key(n) implies c.nodes[n].log.base
            >= start.base by {
            assert(c.nodes[n].starts_in(n, c.initial_members(n), c.voters.contains(n), start));
        }
    } else {
        lemma_covered(run, start, i - 1);
        lemma_run_prefix(run, i + 1);
        lemma_run_prefix(run, i);
        let part = run.take(i + 1);
        assert(part.drop_last() =~= run.take(i));
        assert(run.take(i).last() == run[i - 1]);
        assert(part.last() == run[i]);
        assert(part[part.len() - 2] == run[i - 1]);
        lemma_covered_on(run.take(i), run[i], start.base);
    }
}

/// A node that is started on a log file with nothing behind the snapshot starts from the snapshot.
pub proof fn law_node_starts_from_its_snapshot(
    raft: Config,
    replay: ReplayView,
    store: TextMap,
    dir: String,
    threshold: u64,
    learner: bool,
    drawn: u32,
    redrawn: u32,
)
    requires
        raft.max_entries_per_append > 0,
        replay.has_state,
        replay.entries.len() == 0,
    ensures
        HandleView::started(
            raft,
            replay,
            store,
            dir,
            threshold,
            learner,
            drawn,
            redrawn,
        ).node.starts_in(
            raft.id,
            raft.peers@.to_set().insert(raft.id),
            !learner,
            (Start {
                base: replay.snapshot_index(),
                base_term: replay.snapshot_term(),
                term: replay.term,
            }),
        ),
{
    let fresh = NodeView::fresh(raft, !learner, drawn);
    let state = replay.restore_state();
    assert(state.log.entries =~= Seq::empty());
    assert(state.resumed_commit() == state.log.base);
    lemma_apply_frame(
        NodeView {
            term: state.term,
            voted_for: state.voted_for,
            log: state.log,
            commit: state.resumed_commit(),
            applied: state.log.base,
            ..fresh
        },
        redrawn,
    );
}

/// No node has ever known more to be committed than it does in the end.
proof fn lemma_commits_bounded(run: Seq<Cluster>, most: LogIndex, i: int, m: NodeId)
    requires
        is_run(run),
        forall|m: NodeId| #[trigger]
            run.last().nodes.contains_key(m) ==> run.last().nodes[m].commit <= most,
        0 <= i < run.len(),
        run[i].nodes.contains_key(m),
    ensures
        run[i].nodes[m].commit <= most,
{
    let h = lemma_run_traced(run);
    assert(commits_grow(run[i], run.last()));
    assert(run[i].nodes.dom().contains(m));
    assert(run.last().nodes.contains_key(m));
    assert(run.last().nodes[m].commit >= run[i].nodes[m].commit);
}

/// The first entries of one history, and all further ones of another.
pub open spec fn joined(first: Seq<LogEntryView>, second: Seq<LogEntryView>, b: int) -> Seq<
    LogEntryView,
> {
    first.take(b) + (if second.len() > b {
        second.skip(b)
    } else {
        Seq::empty()
    })
}

proof fn lemma_joined(
    first: Seq<LogEntryView>,
    second: Seq<LogEntryView>,
    b: int,
    s: NodeView,
)
    requires
        numbered(first),
        numbered(second),
        0 <= b <= first.len(),
    ensures
        numbered(joined(first, second, b)),
        follows(s, first) && s.commit <= b ==> follows(s, joined(first, second, b)),
        follows(s, second) && s.log.base >= b ==> follows(s, joined(first, second, b)),
{
    let history = joined(first, second, b);
    assert forall|i: int| 0 <= i < history.len() implies (#[trigger] history[i]).index == i + 1 by {
        if i < b {
            assert(history[i] == first[i]);
        } else {
            assert(history[i] == second[i]);
        }
    }
    if follows(s, first) && s.commit <= b {
        assert forall|k: int| s.log.base < k <= s.commit implies #[trigger] s.log.at(k)
            == history[k - 1] by {
            assert(s.log.at(k) == first[k - 1]);
        }
    }
    if follows(s, second) && s.log.base >= b {
        assert forall|k: int| s.log.base < k <= s.commit implies #[trigger] s.log.at(k)
            == history[k - 1] by {
            assert(s.log.at(k) == second[k - 1]);
        }
    }
}

/// Nobody leads in the term in which a cluster starts, nor in an earlier one: a term that had a
/// leader before a stop has no other one after it.
pub proof fn law_terms_go_on(run: Seq<Cluster>, start: Start, i: int, n: NodeId)
    requires
        is_run(run),
        run[0].starts_from(start),
        0 <= i < run.len(),
        run[i].nodes.contains_key(n),
    ensures
        run[i].nodes[n].term >= start.term,
        run[i].nodes[n].role is Leader ==> run[i].nodes[n].term > start.term,
{
    lemma_run_prefix(run, i + 1);
    let part = run.take(i + 1);
    let h = lemma_run(part);
    assert(part.last() == run[i]);
    let first = choose|first: Start| #[trigger]
        part[0].starts_from(first) && h.started == first.term;
    assert(part[0] == run[0]);
    assert(node_inv(run[i], h, n, run[i].nodes[n]));
    lemma_same_nodes(part, i, n);
    let s = run[0].nodes[n];
    let c = run[0];
    assert(s.starts_in(n, c.initial_members(n), c.voters.contains(n), first));
    assert(s.starts_in(n, c.initial_members(n), c.voters.contains(n), start));
}

/// The nodes of a run are the same from its start.
proof fn lemma_same_nodes(run: Seq<Cluster>, i: int, n: NodeId)
    requires
        is_run(run),
        0 <= i < run.len(),
        run[i].nodes.contains_key(n),
    ensures
        run[0].nodes.contains_key(n),
{
    lemma_run_prefix(run, i + 1);
    let part = run.take(i + 1);
    let h = lemma_run_traced(part);
    assert(part.last() == run[i]);
    assert(commits_grow(part[0], part.last()));
    assert(part.last().nodes.dom().contains(n));
    assert(run[0].nodes.dom().contains(n));
}

/// A cluster can be stopped when everything that is known to be committed anywhere is covered by a
/// snapshot that its nodes have, and be started again from that snapshot, also with other voters.
/// There is a single history that the nodes follow before the stop and after it.
pub proof fn law_history_goes_on(
    before: Seq<Cluster>,
    after: Seq<Cluster>,
    start: Start,
    n: NodeId,
) -> (history: Seq<LogEntryView>)
    requires
        is_run(before),
        is_run(after),
        after[0].starts_from(start),
        before.last().nodes.contains_key(n),
        before.last().nodes[n].commit == start.base,
        forall|m: NodeId| #[trigger]
            before.last().nodes.contains_key(m) ==> before.last().nodes[m].commit <= start.base,
    ensures
        numbered(history),
        forall|i: int, m: NodeId|
            0 <= i < before.len() && #[trigger] before[i].nodes.contains_key(m) ==> follows(
                before[i].nodes[m],
                history,
            ),
        forall|i: int, m: NodeId|
            0 <= i < after.len() && #[trigger] after[i].nodes.contains_key(m) ==> follows(
                after[i].nodes[m],
                history,
            ),
{
    let first = law_one_history(before);
    let second = law_one_history(after);
    let b = start.base as int;
    assert(before[before.len() - 1] == before.last());
    assert(follows(before[before.len() - 1].nodes[n], first));
    let history = joined(first, second, b);
    lemma_joined(first, second, b, before.last().nodes[n]);
    assert forall|i: int, m: NodeId|
        0 <= i < before.len() && #[trigger] before[i].nodes.contains_key(m) implies follows(
        before[i].nodes[m],
        history,
    ) by {
        lemma_commits_bounded(before, start.base, i, m);
        lemma_joined(first, second, b, before[i].nodes[m]);
    }
    assert forall|i: int, m: NodeId|
        0 <= i < after.len() && #[trigger] after[i].nodes.contains_key(m) implies follows(
        after[i].nodes[m],
        history,
    ) by {
        lemma_covered(after, start, i);
        lemma_joined(first, second, b, after[i].nodes[m]);
    }
    history
}

} // verus!
