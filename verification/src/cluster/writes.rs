//! What an acknowledged write means: the entry that was proposed is committed, and every node
//! that gets as far applies it.
use vstd::prelude::*;

use crate::cluster::growth::lemma_shows;
use crate::cluster::history::node_inv;
use crate::cluster::laws::{
    backs, follows, law_one_history, law_steps_apply_the_history, lemma_run, lemma_run_prefix,
    remembered, remembers,
};
use crate::cluster::reads::law_read_index_is_current;
use crate::cluster::{is_run, Cluster};
use crate::embedded::{RaftKv, RaftKvError};
use crate::handle::laws::{law_proposals_resolve_on_apply, numbered, reaches_index};
use crate::handle::{resolved, HandleView};
use crate::kv::{command_bytes, CommandView};
use crate::message::{EntryType, LogEntryView, LogIndex, MessageView, NodeId, Term};
use crate::node::{NodeView, Ready, ReadyView};

verus! {

/// The node accepts the write between two states of the run, and it is told to wait for `index`.
pub open spec fn accepted_at(
    run: Seq<Cluster>,
    n: NodeId,
    i: int,
    command: CommandView,
    index: LogIndex,
) -> bool {
    &&& 0 <= i < run.len() - 1
    &&& run[i].nodes.contains_key(n)
    &&& run[i + 1].nodes.contains_key(n)
    &&& exists|before: HandleView, after: HandleView, ready: Ready|
        before.node == run[i].nodes[n] && after.node == run[i + 1].nodes[n]
            && #[trigger] RaftKv::accepted(
            before,
            command,
            after,
            Ok::<(LogIndex, Ready), RaftKvError>((index, ready)),
        )
}

/// The node takes a message between two states of the run, still waits for the entry that was
/// proposed at `index` in the term, and reports it as committed.
pub open spec fn reported_at(
    run: Seq<Cluster>,
    n: NodeId,
    j: int,
    index: LogIndex,
    term: Term,
) -> bool {
    &&& 0 <= j < run.len() - 1
    &&& run[j + 1].nodes.contains_key(n)
    &&& run[j].nodes[n].valid()
    &&& exists|
        message: MessageView,
        timeout: u32,
        order: Seq<NodeId>,
        taken: HandleView,
        ready: ReadyView,
    |
        {
            &&& run[j].can_deliver(n, message, timeout, order)
            &&& run[j + 1] == run[j].delivered(n, message, timeout, order)
            &&& #[trigger] run[j].nodes[n].stepped(message, timeout, order, taken.node, ready)
            &&& taken.waits_for(index, term)
            &&& resolved(taken.pending, ready.to_apply).contains(index)
        }
}

/// A client asked the node for the write, and was told later that it is done.
pub open spec fn acknowledged(
    run: Seq<Cluster>,
    n: NodeId,
    i: int,
    j: int,
    command: CommandView,
    index: LogIndex,
) -> bool {
    &&& i < j
    &&& accepted_at(run, n, i, command, index)
    &&& reported_at(run, n, j, index, run[i].nodes[n].term)
}

/// The entry that a leader writes for a command.
pub open spec fn written_for(command: CommandView, index: LogIndex, term: Term) -> LogEntryView {
    LogEntryView {
        index,
        term,
        entry_type: EntryType::Normal,
        command: command_bytes(command),
    }
}

/// Every node of a run has handed over its output, and has applied no more than its log holds.
pub(crate) proof fn lemma_state(run: Seq<Cluster>, k: int, n: NodeId)
    requires
        is_run(run),
        0 <= k < run.len(),
        run[k].nodes.contains_key(n),
    ensures
        run[k].nodes[n].ready == ReadyView::empty(),
        run[k].nodes[n].log.base <= run[k].nodes[n].applied <= run[k].nodes[n].commit
            <= run[k].nodes[n].log.last_index(),
{
    lemma_run_prefix(run, k + 1);
    let part = run.take(k + 1);
    let h = lemma_run(part);
    assert(part.last() == run[k]);
    let s = run[k].nodes[n];
    assert(node_inv(run[k], h, n, s));
    lemma_shows(s.log, h.full[n]);
}

/// A write that is accepted stands at the end of the log of the leader.
proof fn lemma_accepted(
    before: HandleView,
    command: CommandView,
    after: HandleView,
    index: LogIndex,
    ready: Ready,
)
    requires
        before.node.ready == ReadyView::empty(),
        RaftKv::accepted(
            before,
            command,
            after,
            Ok::<(LogIndex, Ready), RaftKvError>((index, ready)),
        ),
    ensures
        after.node.role is Leader,
        after.node.term == before.node.term,
        after.node.log.last_index() == index,
        after.node.log.has(index as int),
        after.node.log.at(index as int) == written_for(command, index, before.node.term),
{
    let message = MessageView::Propose { command: command_bytes(command) };
    let waiting = before.waiting_for(index);
    let (timeout, order) = choose|timeout: u32, order: Seq<NodeId>|
        waiting.node.may_draw(timeout) && crate::node::enumerates(
            order,
            waiting.node.contacts(message),
        ) && #[trigger] waiting.node.stepped(message, timeout, order, after.node, ready@);
    let handled = before.node.handle(message, timeout, order);
    assert(after.node == handled.drained());
    let entry = written_for(command, index, before.node.term);
    assert(handled.log == before.node.log.append(entry));
}

/// Where the entry that a leader wrote in its term is applied, it is the one that it wrote.
proof fn lemma_same_entry(
    run: Seq<Cluster>,
    i: int,
    j: int,
    n: NodeId,
    index: LogIndex,
    entry: LogEntryView,
)
    requires
        is_run(run),
        0 <= i < run.len(),
        0 <= j < run.len(),
        run[i].nodes.contains_key(n),
        run[i].nodes[n].role is Leader,
        run[i].nodes[n].log.has(index as int),
        run[i].nodes[n].log.at(index as int) == entry,
        entry.term == run[i].nodes[n].term,
        run[j].nodes.contains_key(n),
        run[j].nodes[n].log.has(index as int),
        run[j].nodes[n].log.at(index as int).term == entry.term,
    ensures
        run[j].nodes[n].log.at(index as int) == entry,
{
    let h = lemma_run(run);
    let c = run.last();
    assert(remembers(c, h, run[i]));
    assert(remembers(c, h, run[j]));
    let one = run[i].nodes[n];
    let other = run[j].nodes[n];
    assert(remembered(c, h, n, one));
    assert(remembered(c, h, n, other));
    let full = choose|full: Seq<LogEntryView>| #[trigger] backs(c, h, one, full);
    let full2 = choose|full: Seq<LogEntryView>| #[trigger] backs(c, h, other, full);
    lemma_shows(one.log, full);
    lemma_shows(other.log, full2);
    assert(full[index - 1] == entry);
    assert(full2[index - 1].term == entry.term);
    assert(h.written[entry.term][index - 1] == full2[index - 1]);
}

/// The next stretch of the history, from where a node stood.
proof fn lemma_stretch(
    s: NodeView,
    after: NodeView,
    applied: Seq<LogEntryView>,
    history: Seq<LogEntryView>,
    k: int,
)
    requires
        numbered(history),
        follows(after, history),
        after.log.base == s.log.base,
        s.log.base <= s.applied,
        after.applied <= after.commit <= after.log.last_index(),
        applied == history.subrange(s.applied as int, after.applied as int),
        s.applied <= after.applied,
        0 <= k < applied.len(),
    ensures
        0 < applied[k].index <= after.commit,
        after.log.has(applied[k].index as int),
        after.log.at(applied[k].index as int) == applied[k],
        history[applied[k].index - 1] == applied[k],
{
    assert(applied.len() == after.applied - s.applied);
    assert(applied[k] == history[s.applied + k]);
    assert(after.log.at(s.applied + k + 1) == history[s.applied + k]);
}

/// An entry that a step hands out stands in the history at the index that it names, and in the
/// log of the node.
proof fn lemma_handed_out(
    run: Seq<Cluster>,
    n: NodeId,
    j: int,
    message: MessageView,
    timeout: u32,
    order: Seq<NodeId>,
    history: Seq<LogEntryView>,
    k: int,
)
    requires
        is_run(run),
        0 <= j < run.len() - 1,
        run[j].nodes[n].valid(),
        run[j].can_deliver(n, message, timeout, order),
        run[j + 1] == run[j].delivered(n, message, timeout, order),
        numbered(history),
        follows(run[j + 1].nodes[n], history),
        0 <= k < run[j].nodes[n].handle(message, timeout, order).ready.to_apply.len(),
    ensures
        ({
            let entry = run[j].nodes[n].handle(message, timeout, order).ready.to_apply[k];
            let after = run[j + 1].nodes[n];
            &&& run[j + 1].nodes.contains_key(n)
            &&& 0 < entry.index <= after.commit
            &&& after.log.has(entry.index as int)
            &&& after.log.at(entry.index as int) == entry
            &&& history[entry.index - 1] == entry
        }),
{
    let part = run.take(j + 1);
    lemma_run_prefix(run, j + 1);
    assert(part.last() == run[j]);
    let s = run[j].nodes[n];
    let handled = s.handle(message, timeout, order);
    lemma_state(run, j, n);
    lemma_snapshot_hands_out_nothing(s, message, timeout, order);
    lemma_plain_step(s, message, timeout, order);
    let after = run[j + 1].nodes[n];
    assert(run[j + 1].nodes.contains_key(n));
    assert(after == handled.drained());
    lemma_state(run, j + 1, n);
    law_steps_apply_the_history(part, n, message, timeout, order, history);
    lemma_stretch(s, after, handled.ready.to_apply, history, k);
}

proof fn lemma_snapshot_hands_out_nothing(
    s: NodeView,
    message: MessageView,
    timeout: u32,
    order: Seq<NodeId>,
)
    requires
        s.ready == ReadyView::empty(),
    ensures
        message is InstallSnapshot ==> s.handle(message, timeout, order).ready.to_apply.len() == 0,
{
}

/// Where a step reports a proposal, the entry at its index is applied, and is of the term in which
/// it was proposed.
proof fn lemma_reported(
    run: Seq<Cluster>,
    n: NodeId,
    j: int,
    index: LogIndex,
    term: Term,
    history: Seq<LogEntryView>,
)
    requires
        is_run(run),
        reported_at(run, n, j, index, term),
        numbered(history),
        follows(run[j + 1].nodes[n], history),
    ensures
        run[j + 1].nodes.contains_key(n),
        0 < index <= run[j + 1].nodes[n].commit,
        run[j + 1].nodes[n].log.has(index as int),
        run[j + 1].nodes[n].log.at(index as int) == history[index - 1],
        history[index - 1].term == term,
{
    let (message, timeout, order, taken, ready) = choose|
        message: MessageView,
        timeout: u32,
        order: Seq<NodeId>,
        taken: HandleView,
        ready: ReadyView,
    |
        {
            &&& run[j].can_deliver(n, message, timeout, order)
            &&& run[j + 1] == run[j].delivered(n, message, timeout, order)
            &&& #[trigger] run[j].nodes[n].stepped(message, timeout, order, taken.node, ready)
            &&& taken.waits_for(index, term)
            &&& resolved(taken.pending, ready.to_apply).contains(index)
        };
    let applied = ready.to_apply;
    law_proposals_resolve_on_apply(taken.pending, applied, index);
    let k = choose|k: int|
        0 <= k < applied.len() && (#[trigger] applied[k]).index == index && applied[k].term == term;
    lemma_handed_out(run, n, j, message, timeout, order, history, k);
}

/// A step that installs no snapshot leaves the base of the log where it was.
pub(crate) proof fn lemma_plain_step(
    s: NodeView,
    message: MessageView,
    timeout: u32,
    order: Seq<NodeId>,
)
    requires
        s.ready == ReadyView::empty(),
        message !is InstallSnapshot,
    ensures
        s.handle(message, timeout, order).ready.snapshot_to_apply is None,
        s.handle(message, timeout, order).log.base == s.log.base,
        s.handle(message, timeout, order).applied >= s.applied,
{
    crate::cluster::laws::lemma_no_snapshot(s, message, timeout, order);
    match message {
        MessageView::AppendEntries { from, msg } => {
            let follower = s.become_follower(msg.term, Some(from), timeout);
            let merged = follower.merge(msg.prev_log_index, msg.entries);
            crate::node::laws::lemma_commit_frame(merged, merged.commit_target(msg), timeout);
        },
        MessageView::AppendEntriesResponse { from, msg } => {
            let credited = s.credit(from, msg.match_index);
            crate::node::laws::lemma_commit_frame(credited, credited.quorum_index(), timeout);
        },
        MessageView::InstallSnapshotResponse { from, msg } => {
            let credited = s.credit(from, s.installed_index(msg));
            crate::node::laws::lemma_commit_frame(credited, credited.quorum_index(), timeout);
        },
        _ => {},
    }
}

/// A write that is acknowledged is committed: the entry at its index, in the history that every
/// node applies, is the one that holds the command, written in the term in which it was accepted.
/// What another leader put in its place is never taken for it.
pub proof fn law_acknowledged_write_is_in_the_history(
    run: Seq<Cluster>,
    n: NodeId,
    i: int,
    j: int,
    command: CommandView,
    index: LogIndex,
) -> (history: Seq<LogEntryView>)
    requires
        is_run(run),
        acknowledged(run, n, i, j, command, index),
    ensures
        numbered(history),
        forall|k: int, m: NodeId|
            0 <= k < run.len() && #[trigger] run[k].nodes.contains_key(m) ==> follows(
                run[k].nodes[m],
                history,
            ),
        0 < index <= history.len(),
        history[index - 1] == written_for(command, index, run[i].nodes[n].term),
        index <= run[j + 1].nodes[n].commit,
{
    let history = law_one_history(run);
    let term = run[i].nodes[n].term;
    let (before, after, ready) = choose|before: HandleView, after: HandleView, ready: Ready|
        before.node == run[i].nodes[n] && after.node == run[i + 1].nodes[n]
            && #[trigger] RaftKv::accepted(
            before,
            command,
            after,
            Ok::<(LogIndex, Ready), RaftKvError>((index, ready)),
        );
    lemma_state(run, i, n);
    lemma_accepted(before, command, after, index, ready);
    lemma_reported(run, n, j, index, term, history);
    lemma_same_entry(
        run,
        i + 1,
        j + 1,
        n,
        index,
        written_for(command, index, term),
    );
    history
}

/// The entry that is applied when a write is reported as committed is the one that was proposed: of
/// the term in which the write was accepted, with its command.
pub proof fn law_reported_entry_is_the_accepted_one(
    run: Seq<Cluster>,
    n: NodeId,
    i: int,
    j: int,
    command: CommandView,
    index: LogIndex,
    message: MessageView,
    timeout: u32,
    order: Seq<NodeId>,
    taken: HandleView,
    ready: ReadyView,
)
    requires
        is_run(run),
        accepted_at(run, n, i, command, index),
        i < j < run.len() - 1,
        run[j].nodes[n].valid(),
        run[j].can_deliver(n, message, timeout, order),
        run[j + 1] == run[j].delivered(n, message, timeout, order),
        run[j].nodes[n].stepped(message, timeout, order, taken.node, ready),
        taken.waits_for(index, run[i].nodes[n].term),
        resolved(taken.pending, ready.to_apply).contains(index),
    ensures
        reaches_index(ready.to_apply, index),
        forall|k: int|
            0 <= k < ready.to_apply.len() && (#[trigger] ready.to_apply[k]).index == index
                ==> ready.to_apply[k] == written_for(command, index, run[i].nodes[n].term),
{
    assert(run[j + 1].nodes.contains_key(n));
    assert(reported_at(run, n, j, index, run[i].nodes[n].term));
    let history = law_acknowledged_write_is_in_the_history(run, n, i, j, command, index);
    law_proposals_resolve_on_apply(taken.pending, ready.to_apply, index);
    assert forall|k: int|
        0 <= k < ready.to_apply.len() && (#[trigger] ready.to_apply[k]).index
            == index implies ready.to_apply[k] == written_for(
        command,
        index,
        run[i].nodes[n].term,
    ) by {
        lemma_handed_out(run, n, j, message, timeout, order, history, k);
    }
}

/// A read that begins after a write was acknowledged, anywhere, waits for the write. It holds once
/// the leader has committed an entry of its own term, and as long as nobody has moved on to a
/// later one.
pub proof fn law_reads_see_acknowledged_writes(
    run: Seq<Cluster>,
    n: NodeId,
    i: int,
    j: int,
    command: CommandView,
    index: LogIndex,
    r: int,
    leader: NodeId,
)
    requires
        is_run(run),
        acknowledged(run, n, i, j, command, index),
        j < r < run.len(),
        run[r].nodes.contains_key(leader),
        run[r].nodes[leader].role is Leader,
        run[r].nodes[leader].has_committed_in_term(),
        forall|m: NodeId| #[trigger]
            run[r].nodes.contains_key(m) ==> run[r].nodes[m].term <= run[r].nodes[leader].term,
    ensures
        index <= run[r].nodes[leader].commit,
{
    let history = law_acknowledged_write_is_in_the_history(run, n, i, j, command, index);
    lemma_reported(run, n, j, index, run[i].nodes[n].term, history);
    law_read_index_is_current(run, r, leader, j + 1, n);
}

} // verus!
