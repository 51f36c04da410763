//! What holds of a node with its store and its log file, across steps, compactions and restarts.
use vstd::prelude::*;

use crate::config::Config;
use crate::handle::{
    entries_applied, max_index, records_of, resolved, snapshot_restored, still_pending, superseded,
    HandleView,
};
use crate::kv::{store_decoded, TextMap};
use crate::log::LogView;
use crate::message::{
    AppendEntriesView, LogEntryView, LogIndex, MessageView, NodeId, SnapshotView, Term,
};
use crate::node::laws::well_indexed;
use crate::node::{NodeView, Ready, ReadyView, RestoreView};
use crate::replay::ReplayView;
use crate::wal::RecordView;

verus! {

/// Applying two runs of entries one after the other is applying both together.
pub proof fn law_applying_in_batches(
    store: TextMap,
    first: Seq<LogEntryView>,
    second: Seq<LogEntryView>,
)
    ensures
        entries_applied(entries_applied(store, first), second) == entries_applied(
            store,
            first + second,
        ),
    decreases second.len(),
{
    if second.len() == 0 {
        assert(first + second =~= first);
    } else {
        law_applying_in_batches(store, first, second.drop_last());
        assert((first + second).drop_last() =~= first + second.drop_last());
    }
}

/// Every entry of the history carries its position, counted from 1.
pub open spec fn numbered(history: Seq<LogEntryView>) -> bool {
    forall|i: int| 0 <= i < history.len() ==> (#[trigger] history[i]).index == i + 1
}

impl HandleView {
    /// The store is what the first `applied` entries of the history make of an empty store.
    pub open spec fn reflects(self, history: Seq<LogEntryView>) -> bool {
        &&& self.applied <= history.len()
        &&& self.store == entries_applied(Map::empty(), history.take(self.applied as int))
    }
}

/// The store always reflects the whole history up to the applied index. So once the applied index
/// has reached the commit index that a read captured, the read sees every write that was
/// committed when it began.
pub proof fn law_store_reflects_applied_history(
    h: HandleView,
    ready: Ready,
    history: Seq<LogEntryView>,
    upto: LogIndex,
)
    requires
        h.reflects(history),
        numbered(history),
        h.applied <= upto <= history.len(),
        ready@.to_apply == history.subrange(h.applied as int, upto as int),
    ensures
        h.persisted(ready).reflects(history),
        h.persisted(ready).applied == upto,
{
    let entries = ready@.to_apply;
    law_applying_in_batches(Map::empty(), history.take(h.applied as int), entries);
    assert(history.take(h.applied as int) + entries =~= history.take(upto as int));
    if entries.len() > 0 {
        lemma_max_index_of_run(history, h.applied as int, upto as int);
    }
}

proof fn lemma_max_index_of_run(history: Seq<LogEntryView>, from: int, upto: int)
    requires
        numbered(history),
        0 <= from < upto <= history.len(),
    ensures
        max_index(history.subrange(from, upto)) == upto,
    decreases upto - from,
{
    let run = history.subrange(from, upto);
    assert(run.drop_last() =~= history.subrange(from, upto - 1));
    assert(run.last() == history[upto - 1]);
    if from < upto - 1 {
        lemma_max_index_of_run(history, from, upto - 1);
    } else {
        assert(run.drop_last() =~= Seq::empty());
        assert(max_index(Seq::<LogEntryView>::empty()) == 0);
    }
}

/// Two nodes that have applied the same part of the same history hold the same store.
pub proof fn law_replicas_agree(one: HandleView, other: HandleView, history: Seq<LogEntryView>)
    requires
        one.reflects(history),
        other.reflects(history),
        one.applied == other.applied,
    ensures
        one.store == other.store,
{
}

/// An entry is applied at the index.
pub open spec fn reaches_index(entries: Seq<LogEntryView>, index: LogIndex) -> bool {
    exists|i: int| 0 <= i < entries.len() && (#[trigger] entries[i]).index == index
}

proof fn lemma_pushed(items: Seq<LogIndex>, last: LogIndex)
    ensures
        forall|x: LogIndex|
            #![trigger items.push(last).contains(x)]
            items.push(last).contains(x) <==> items.contains(x) || x == last,
        items.no_duplicates() && !items.contains(last) ==> items.push(last).no_duplicates(),
{
    let all = items.push(last);
    assert(all[all.len() - 1] == last);
    assert forall|x: LogIndex| #[trigger]
        all.contains(x) <==> items.contains(x) || x == last by {
        if items.contains(x) {
            let k = choose|k: int| 0 <= k < items.len() && items[k] == x;
            assert(all[k] == x);
        }
    }
}

/// A waiting proposal is answered when an entry is applied at its index, and only then: it is
/// committed if that entry is of the term in which it was proposed, and dropped otherwise. Each is
/// answered at most once.
pub proof fn law_proposals_resolve_on_apply(
    pending: Map<LogIndex, Term>,
    entries: Seq<LogEntryView>,
    index: LogIndex,
)
    ensures
        ({
            let committed = resolved(pending, entries);
            let dropped = superseded(pending, entries);
            let waiting = still_pending(pending, entries);
            &&& committed.contains(index) ==> exists|i: int|
                0 <= i < entries.len() && (#[trigger] entries[i]).index == index && entries[i].term
                    == pending[index]
            &&& dropped.contains(index) ==> exists|i: int|
                0 <= i < entries.len() && (#[trigger] entries[i]).index == index && entries[i].term
                    != pending[index]
            &&& committed.contains(index) || dropped.contains(index) <==> pending.contains_key(
                index,
            ) && reaches_index(entries, index)
            &&& !(committed.contains(index) && dropped.contains(index))
            &&& waiting.contains_key(index) <==> pending.contains_key(index) && !reaches_index(
                entries,
                index,
            )
            &&& waiting.contains_key(index) ==> waiting[index] == pending[index]
            &&& committed.no_duplicates()
            &&& dropped.no_duplicates()
        }),
    decreases entries.len(),
{
    if entries.len() > 0 {
        let rest = entries.drop_last();
        let last = entries.last();
        law_proposals_resolve_on_apply(pending, rest, index);
        law_proposals_resolve_on_apply(pending, rest, last.index);
        lemma_pushed(resolved(pending, rest), last.index);
        lemma_pushed(superseded(pending, rest), last.index);
        assert(entries[entries.len() - 1] == last);
        assert forall|i: int| 0 <= i < rest.len() implies #[trigger] rest[i] == entries[i] by {}
        assert(reaches_index(entries, index) <==> reaches_index(rest, index) || last.index
            == index) by {
            if reaches_index(rest, index) {
                let i = choose|i: int| 0 <= i < rest.len() && (#[trigger] rest[i]).index == index;
                assert(entries[i].index == index);
            }
            if reaches_index(entries, index) {
                let i = choose|i: int|
                    0 <= i < entries.len() && (#[trigger] entries[i]).index == index;
                if i < rest.len() {
                    assert(rest[i].index == index);
                }
            }
        }
        if resolved(pending, rest).contains(index) {
            let i = choose|i: int|
                0 <= i < rest.len() && (#[trigger] rest[i]).index == index && rest[i].term
                    == pending[index];
            assert(entries[i].index == index && entries[i].term == pending[index]);
        }
        if superseded(pending, rest).contains(index) {
            let i = choose|i: int|
                0 <= i < rest.len() && (#[trigger] rest[i]).index == index && rest[i].term
                    != pending[index];
            assert(entries[i].index == index && entries[i].term != pending[index]);
        }
    }
}

/// Nothing but a proposal makes anybody wait, and those who wait go on to wait for the same entry:
/// a step leaves them as they are, and what is taken in answers some of them.
pub proof fn law_waiters_keep_their_term(
    h: HandleView,
    message: MessageView,
    stepped: HandleView,
    output: ReadyView,
    ready: Ready,
    index: LogIndex,
    term: Term,
)
    requires
        h.stepped(message, stepped, output),
    ensures
        stepped.waits_for(index, term) <==> h.waits_for(index, term),
        h.persisted(ready).waits_for(index, term) <==> h.waits_for(index, term) && !reaches_index(
            ready@.to_apply,
            index,
        ),
{
    law_proposals_resolve_on_apply(h.pending, ready@.to_apply, index);
}

/// A rotated log keeps everything that the snapshot does not cover: folded on a restart and joined
/// with the snapshot, it gives back the same term, vote, commit index and log.
pub proof fn law_rotation_survives_restart(h: HandleView, snapshot: SnapshotView)
    requires
        h.node.log.indexed(),
        h.node.log.last_index() < u64::MAX,
        h.node.log.base == snapshot.last_index,
        h.node.log.base_term == snapshot.last_term,
    ensures
        ({
            let replay = ReplayView::empty().folded(h.rotated_records()).adopt(snapshot);
            replay.restore_state() == RestoreView {
                term: h.node.term,
                voted_for: h.node.voted_for,
                commit: h.node.commit,
                log: h.node.log,
            }
        }),
{
    let held = ReplayView {
        term: h.node.term,
        voted_for: h.node.voted_for,
        commit: h.node.commit,
        snapshot: Some(snapshot),
        entries: h.node.log.entries,
        has_state: true,
        snapshot_in_wal: false,
    };
    assert(held.to_records() =~= h.rotated_records());
    crate::replay::law_rotated_log_reproduces_state(held);
}

/// A compaction drops only what the snapshot covers: every entry above it stays, and so do the
/// term, the vote and the commit index.
pub proof fn law_compaction_keeps_the_tail(h: HandleView, index: LogIndex, term: Term)
    requires
        h.node.log.base <= index <= h.node.log.last_index(),
    ensures
        ({
            let after = h.log_compacted(index, term);
            &&& after.node.log.base == index
            &&& after.node.log.last_index() == h.node.log.last_index()
            &&& forall|i: int|
                index < i <= h.node.log.last_index() ==> #[trigger] after.node.log.at(i)
                    == h.node.log.at(i)
            &&& after.node.hard_state() == h.node.hard_state()
            &&& after.store == h.store
            &&& h.node.log.indexed() ==> after.node.log.indexed()
        }),
{
}

/// A node that restarts applies to its store exactly the committed entries that the snapshot does
/// not cover, and reads wait for no less than that.
pub proof fn law_restart_rebuilds_the_store(
    raft: Config,
    replay: ReplayView,
    store: TextMap,
    dir: String,
    threshold: u64,
    drawn: u32,
    redrawn: u32,
)
    requires
        raft.usable(),
        raft.may_draw(drawn),
        raft.may_draw(redrawn),
        replay.has_state,
        replay.restore_state().log.last_index() < u64::MAX,
        replay.restore_state().log.indexed(),
    ensures
        ({
            let h = HandleView::started(
                raft,
                replay,
                store,
                dir,
                threshold,
                false,
                drawn,
                redrawn,
            );
            let state = replay.restore_state();
            let base = match replay.snapshot {
                Some(snapshot) => snapshot_restored(store, snapshot.data),
                None => store,
            };
            &&& h.node.commit == state.resumed_commit()
            &&& h.node.log == state.log
            &&& h.store == entries_applied(
                base,
                state.log.entries.take(state.resumed_commit() - state.log.base),
            )
            &&& h.applied == state.resumed_commit()
            &&& h.node.applied == h.applied
            &&& h.node.ready == ReadyView::empty()
        }),
{
    let fresh = NodeView::fresh(raft, true, drawn);
    let state = replay.restore_state();
    crate::node::laws::law_restart_resumes_commit(fresh, state, redrawn);
    let staged = fresh.restored(state, redrawn).ready.to_apply;
    let n = state.resumed_commit() - state.log.base;
    assert(staged == state.log.entries.take(n));
    if n > 0 {
        lemma_max_index_of_log(state.log, n);
    }
}

proof fn lemma_max_index_of_log(log: LogView, n: int)
    requires
        log.indexed(),
        0 < n <= log.entries.len(),
    ensures
        max_index(log.entries.take(n)) == log.base + n,
    decreases n,
{
    let run = log.entries.take(n);
    assert(run.drop_last() =~= log.entries.take(n - 1));
    assert(run.last() == log.entries[n - 1]);
    if n > 1 {
        lemma_max_index_of_log(log, n - 1);
    } else {
        assert(run.drop_last() =~= Seq::empty());
        assert(max_index(Seq::<LogEntryView>::empty()) == 0);
    }
}

/// A leader whose store has applied what its Raft log has can always produce a snapshot for a peer
/// whose position was compacted away, and that snapshot covers the missing prefix.
pub proof fn law_lagging_peer_gets_a_snapshot(h: HandleView)
    requires
        h.node.log.base <= h.node.applied,
        h.applied == h.node.applied,
        h.node.applied > 0,
    ensures
        h.compaction_target(h.peer_target()) == Some(h.node.applied),
        h.node.applied >= h.node.log.base,
{
}

// ── The log file ───────────────────────────────────────────────────────────

impl ReplayView {
    /// A restart from these records and this snapshot brings back what must survive of the node:
    /// its term, vote, commit index and log.
    pub open spec fn holds(self, s: NodeView) -> bool {
        self.restore_state() == RestoreView {
            term: s.term,
            voted_for: s.voted_for,
            commit: s.commit,
            log: s.log,
        }
    }
}

proof fn lemma_folded_in_parts(replay: ReplayView, first: Seq<RecordView>, second: Seq<RecordView>)
    ensures
        replay.folded(first + second) == replay.folded(first).folded(second),
    decreases second.len(),
{
    if second.len() == 0 {
        assert(first + second =~= first);
    } else {
        lemma_folded_in_parts(replay, first, second.drop_last());
        assert((first + second).drop_last() =~= first + second.drop_last());
    }
}

/// The entries of an indexed log below a position.
proof fn lemma_entries_below(log: LogView, index: LogIndex)
    requires
        log.indexed(),
        log.base < index <= log.last_index() + 1,
    ensures
        log.entries.filter(|e: LogEntryView| e.index < index) == log.entries.take(
            index - log.base - 1,
        ),
    decreases log.entries.len(),
{
    reveal(Seq::filter);
    let below = |e: LogEntryView| e.index < index;
    if log.entries.len() > 0 {
        let rest = LogView { entries: log.entries.drop_last(), ..log };
        assert(rest.indexed()) by {
            assert forall|i: int| 0 <= i < rest.entries.len() implies (
            #[trigger] rest.entries[i]).index == rest.base + 1 + i by {
                assert(rest.entries[i] == log.entries[i]);
            }
        }
        let last = log.entries[log.entries.len() - 1];
        assert(last.index == log.last_index());
        if index <= log.last_index() {
            lemma_entries_below(rest, index);
            assert(rest.entries.take(index - log.base - 1) =~= log.entries.take(
                index - log.base - 1,
            ));
        } else {
            lemma_entries_below(rest, (index - 1) as LogIndex);
            crate::replay::lemma_filter_all(log.entries, below);
            assert(log.entries.take(index - log.base - 1) =~= log.entries);
        }
    } else {
        assert(log.entries.take(index - log.base - 1) =~= log.entries);
    }
}

/// An entry above all others goes to the end.
proof fn lemma_push_behind(replay: ReplayView, entry: LogEntryView)
    requires
        entry.index > replay.snapshot_index(),
        forall|i: int|
            0 <= i < replay.entries.len() ==> (#[trigger] replay.entries[i]).index < entry.index,
    ensures
        replay.push(RecordView::Entry(entry)) == (ReplayView {
            entries: replay.entries.push(entry),
            has_state: true,
            ..replay
        }),
{
    crate::replay::lemma_filter_all(replay.entries, |e: LogEntryView| e.index < entry.index);
}

/// The index of every entry in a run that goes to the end of part of a log.
proof fn lemma_run_indexed(log: LogView, from: LogIndex, run: Seq<LogEntryView>)
    requires
        log.indexed(),
        log.base < from <= log.last_index() + 1,
        forall|i: int| 0 <= i < run.len() ==> (#[trigger] run[i]).index == from + i,
    ensures
        ({
            let held = log.entries.take(from - log.base - 1) + run;
            forall|i: int| 0 <= i < held.len() ==> (#[trigger] held[i]).index == log.base + 1 + i
        }),
{
    let before = log.entries.take(from - log.base - 1);
    let held = before + run;
    assert forall|i: int| 0 <= i < held.len() implies (#[trigger] held[i]).index == log.base + 1
        + i by {
        if i < before.len() {
            assert(held[i] == log.entries[i]);
        } else {
            assert(held[i] == run[i - before.len()]);
        }
    }
}

/// Folding a run of entries that starts at `from` puts it behind what stands below.
proof fn lemma_fold_run(
    replay: ReplayView,
    log: LogView,
    from: LogIndex,
    run: Seq<LogEntryView>,
)
    requires
        replay.entries == log.entries,
        replay.snapshot_index() == log.base,
        log.indexed(),
        log.base < from <= log.last_index() + 1,
        from + run.len() <= u64::MAX,
        forall|i: int| 0 <= i < run.len() ==> (#[trigger] run[i]).index == from + i,
    ensures
        replay.folded(run.map_values(|e: LogEntryView| RecordView::Entry(e))) == if run.len() == 0 {
            replay
        } else {
            ReplayView {
                entries: log.entries.take(from - log.base - 1) + run,
                has_state: true,
                ..replay
            }
        },
    decreases run.len(),
{
    let records = run.map_values(|e: LogEntryView| RecordView::Entry(e));
    if run.len() > 0 {
        let rest = run.drop_last();
        let entry = run[run.len() - 1];
        assert forall|i: int| 0 <= i < rest.len() implies (#[trigger] rest[i]).index == from
            + i by {
            assert(rest[i] == run[i]);
        }
        lemma_fold_run(replay, log, from, rest);
        assert(records.drop_last() =~= rest.map_values(|e: LogEntryView| RecordView::Entry(e)));
        assert(records.last() == RecordView::Entry(entry));
        let before = log.entries.take(from - log.base - 1);
        if rest.len() == 0 {
            lemma_entries_below(log, from);
            assert(before.push(entry) =~= before + run);
        } else {
            lemma_run_indexed(log, from, rest);
            lemma_push_behind(
                ReplayView { entries: before + rest, has_state: true, ..replay },
                entry,
            );
            assert((before + rest).push(entry) =~= before + run);
        }
    }
}

/// What a step leaves of the log: everything below a position, and behind it the entries that it
/// asks to persist.
proof fn lemma_persisted_run(
    s: NodeView,
    message: MessageView,
    timeout: u32,
    order: Seq<NodeId>,
) -> (from: LogIndex)
    requires
        s.valid(),
        s.accepts(message),
        s.consistent(),
        s.agrees_with_committed(message),
        s.log.indexed(),
        well_indexed(message),
        s.ready == ReadyView::empty(),
        message !is InstallSnapshot,
    ensures
        ({
            let h = s.handle(message, timeout, order);
            let run = h.ready.to_persist;
            &&& s.log.base < from <= s.log.last_index() + 1
            &&& from + run.len() <= u64::MAX
            &&& forall|i: int| 0 <= i < run.len() ==> (#[trigger] run[i]).index == from + i
            &&& h.log == LogView {
                entries: if run.len() == 0 {
                    s.log.entries
                } else {
                    s.log.entries.take(from - s.log.base - 1) + run
                },
                ..s.log
            }
        }),
{
    let h = s.handle(message, timeout, order);
    let end = (s.log.last_index() + 1) as LogIndex;
    let all = s.log.entries.take(end - s.log.base - 1);
    assert(all =~= s.log.entries);
    match message {
        MessageView::AppendEntries { from, msg } => {
            lemma_append_persists(s, from, msg, timeout)
        },
        MessageView::AppendEntriesResponse { from, msg } => {
            let credited = s.credit(from, msg.match_index);
            crate::node::laws::lemma_commit_frame(credited, credited.quorum_index(), timeout);
            end
        },
        MessageView::InstallSnapshotResponse { from, msg } => {
            let credited = s.credit(from, s.installed_index(msg));
            crate::node::laws::lemma_commit_frame(credited, credited.quorum_index(), timeout);
            end
        },
        _ => {
            if h.ready.to_persist.len() > 0 {
                assert(h.log.entries =~= all + h.ready.to_persist);
            }
            end
        },
    }
}

proof fn lemma_append_persists(
    s: NodeView,
    from: NodeId,
    msg: AppendEntriesView,
    timeout: u32,
) -> (start: LogIndex)
    requires
        s.valid(),
        s.accepts(MessageView::AppendEntries { from, msg }),
        s.log.indexed(),
        well_indexed(MessageView::AppendEntries { from, msg }),
        s.ready == ReadyView::empty(),
    ensures
        ({
            let h = s.handle_append_entries(from, msg, timeout);
            let run = h.ready.to_persist;
            &&& s.log.base < start <= s.log.last_index() + 1
            &&& start + run.len() <= u64::MAX
            &&& forall|i: int| 0 <= i < run.len() ==> (#[trigger] run[i]).index == start + i
            &&& h.log == LogView {
                entries: if run.len() == 0 {
                    s.log.entries
                } else {
                    s.log.entries.take(start - s.log.base - 1) + run
                },
                ..s.log
            }
        }),
{
    let end = (s.log.last_index() + 1) as LogIndex;
    if msg.term >= s.term && s.log.term_at(msg.prev_log_index as int) == Some(msg.prev_log_term) {
        let follower = s.become_follower(msg.term, Some(from), timeout);
        let merged = follower.merge(msg.prev_log_index, msg.entries);
        crate::node::laws::lemma_commit_frame(merged, merged.commit_target(msg), timeout);
        crate::node::laws::lemma_held_bounded(s.log, msg.prev_log_index as int, msg.entries);
        let held = s.log.held(msg.prev_log_index as int, msg.entries);
        if held > 0 {
            assert(s.log.term_at(msg.prev_log_index + 1 + (held - 1)) == Some(
                msg.entries[held - 1].term,
            ));
        }
        if held < msg.entries.len() {
            let added = msg.entries.skip(held as int);
            assert(follower.ready.to_persist + added =~= added);
            let start = (msg.prev_log_index + 1 + held) as LogIndex;
            if start == end {
                assert(s.log.entries.take(start - s.log.base - 1) =~= s.log.entries);
            }
            assert forall|i: int| 0 <= i < added.len() implies (#[trigger] added[i]).index == start
                + i by {
                assert(added[i] == msg.entries[held + i]);
            }
            start
        } else {
            end
        }
    } else {
        end
    }
}

/// What a step asks to persist is enough: appended to a log file from which the node could be
/// restarted before, the records make it one from which it can be restarted after. So a crash at
/// any time after the records are durable costs neither the term nor the vote, nor an entry, nor
/// the knowledge of what is committed.
pub proof fn law_steps_are_durable(
    replay: ReplayView,
    s: NodeView,
    message: MessageView,
    timeout: u32,
    order: Seq<NodeId>,
)
    requires
        replay.holds(s),
        s.valid(),
        s.accepts(message),
        s.consistent(),
        s.agrees_with_committed(message),
        s.log.indexed(),
        well_indexed(message),
        s.ready == ReadyView::empty(),
        message !is InstallSnapshot,
    ensures
        ({
            let h = s.handle(message, timeout, order);
            replay.folded(records_of(h.ready)).holds(h)
        }),
{
    let h = s.handle(message, timeout, order);
    let entries = h.ready.to_persist.map_values(|e: LogEntryView| RecordView::Entry(e));
    crate::node::laws::law_hard_state_reported(s, message, timeout, order);
    crate::node::laws::law_committed_entries_stay(s, message, timeout, order);
    let from = lemma_persisted_run(s, message, timeout, order);
    let state = match h.ready.hard_state {
        Some(state) => seq![
            RecordView::HardState {
                term: state.term,
                voted_for: state.voted_for,
                commit: state.commit,
            },
        ],
        None => Seq::empty(),
    };
    lemma_folded_in_parts(replay, state, entries);
    reveal_with_fuel(ReplayView::folded, 2);
    let stated = replay.folded(state);
    if h.ready.hard_state is Some {
        assert(state.drop_last() =~= Seq::empty());
    }
    lemma_fold_run(stated, s.log, from, h.ready.to_persist);
}

/// Installing a snapshot is durable once the snapshot is saved and the log file is rewritten.
pub proof fn law_installed_snapshot_is_durable(
    h: HandleView,
    snapshot: SnapshotView,
    timeout: u32,
)
    requires
        h.node.role is Follower,
        snapshot.last_index < u64::MAX,
    ensures
        ({
            let after = h.snapshot_installed(snapshot, timeout);
            ReplayView::empty().folded(
                seq![
                    RecordView::HardState {
                        term: h.node.term,
                        voted_for: h.node.voted_for,
                        commit: snapshot.last_index,
                    },
                ],
            ).adopt(snapshot).holds(after.node)
        }),
{
    let records = seq![
        RecordView::HardState {
            term: h.node.term,
            voted_for: h.node.voted_for,
            commit: snapshot.last_index,
        },
    ];
    reveal_with_fuel(ReplayView::folded, 2);
    reveal(Seq::filter);
    assert(records.drop_last() =~= Seq::empty());
    assert(records.last() == records[0]);
}

// ── Snapshots ──────────────────────────────────────────────────────────────

impl SnapshotView {
    /// The snapshot holds what the first `last_index` entries of the history make of an empty
    /// store.
    pub open spec fn describes(self, history: Seq<LogEntryView>) -> bool {
        &&& self.last_index <= history.len()
        &&& store_decoded(self.data) == Some(
            entries_applied(Map::empty(), history.take(self.last_index as int)),
        )
    }
}

/// A snapshot of everything that the store has applied describes the history that the store
/// reflects.
pub proof fn law_snapshot_describes_history(
    h: HandleView,
    index: LogIndex,
    snapshot: SnapshotView,
    history: Seq<LogEntryView>,
)
    requires
        h.reflects(history),
        index >= h.applied,
        h.compaction_target(index) == Some(snapshot.last_index),
        store_decoded(snapshot.data) == Some(h.store),
    ensures
        snapshot.describes(history),
{
}

/// A node that installs such a snapshot reflects the same history.
pub proof fn law_installed_snapshot_reflects_history(
    h: HandleView,
    snapshot: SnapshotView,
    history: Seq<LogEntryView>,
    timeout: u32,
)
    requires
        snapshot.describes(history),
    ensures
        h.snapshot_installed(snapshot, timeout).reflects(history),
{
}

/// A node that restarts from such a snapshot, or from none, and a log that continues it reflects
/// the same history, up to everything it knew to be committed.
pub proof fn law_restarted_node_reflects_history(
    raft: Config,
    replay: ReplayView,
    dir: String,
    threshold: u64,
    drawn: u32,
    redrawn: u32,
    history: Seq<LogEntryView>,
)
    requires
        raft.usable(),
        raft.may_draw(drawn),
        raft.may_draw(redrawn),
        replay.has_state,
        replay.restore_state().log.last_index() < u64::MAX,
        replay.restore_state().log.indexed(),
        replay.snapshot matches Some(snapshot) ==> snapshot.describes(history),
        replay.restore_state().resumed_commit() <= history.len(),
        replay.restore_state().log.entries.take(
            replay.restore_state().resumed_commit() - replay.snapshot_index(),
        ) == history.subrange(
            replay.snapshot_index() as int,
            replay.restore_state().resumed_commit() as int,
        ),
    ensures
        ({
            let h = HandleView::started(
                raft,
                replay,
                Map::empty(),
                dir,
                threshold,
                false,
                drawn,
                redrawn,
            );
            h.reflects(history) && h.applied == replay.restore_state().resumed_commit()
        }),
{
    let state = replay.restore_state();
    law_restart_rebuilds_the_store(raft, replay, Map::empty(), dir, threshold, drawn, redrawn);
    let base = replay.snapshot_index() as int;
    let upto = state.resumed_commit() as int;
    law_applying_in_batches(Map::empty(), history.take(base), history.subrange(base, upto));
    assert(history.take(base) + history.subrange(base, upto) =~= history.take(upto));
    assert(history.take(0) =~= Seq::empty());
}

} // verus!
