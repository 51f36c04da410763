//! Folding the records of a log into the state that a node restarts from.
use vstd::prelude::*;

use crate::message::{
    entry_views, LogEntry, LogEntryView, LogIndex, NodeId, Snapshot, SnapshotView, Term,
};
use crate::node::snapshot_view;
use crate::wal::{record_views, RecordView, WalRecord};

verus! {

/// The state that a node restarts from, built one record at a time: only one snapshot and the
/// entries above it are ever held.
#[derive(Debug)]
pub struct WalReplay {
    pub term: Term,
    pub voted_for: Option<NodeId>,
    /// Last commit index that reached disk.
    pub commit: LogIndex,
    /// The newest snapshot seen, from the log itself or adopted from the snapshot store.
    pub snapshot: Option<Snapshot>,
    /// Entries above the snapshot base, conflicts already resolved.
    pub entries: Vec<LogEntry>,
    /// False for a fresh node: there is nothing to restore.
    pub has_state: bool,
    /// True when a snapshot arrived inside the log itself, the older layout.
    pub snapshot_in_wal: bool,
}

#[verifier::ext_equal]
pub ghost struct ReplayView {
    pub term: Term,
    pub voted_for: Option<NodeId>,
    pub commit: LogIndex,
    pub snapshot: Option<SnapshotView>,
    pub entries: Seq<LogEntryView>,
    pub has_state: bool,
    pub snapshot_in_wal: bool,
}

impl ReplayView {
    pub open spec fn empty() -> ReplayView {
        ReplayView {
            term: 0,
            voted_for: None,
            commit: 0,
            snapshot: None,
            entries: Seq::empty(),
            has_state: false,
            snapshot_in_wal: false,
        }
    }

    pub open spec fn snapshot_index(self) -> LogIndex {
        match self.snapshot {
            Some(s) => s.last_index,
            None => 0,
        }
    }

    pub open spec fn snapshot_term(self) -> Term {
        match self.snapshot {
            Some(s) => s.last_term,
            None => 0,
        }
    }

    /// A snapshot that is not older than the one held takes its place, and the entries it covers
    /// are dropped.
    pub open spec fn adopt(self, snapshot: SnapshotView) -> ReplayView {
        if snapshot.last_index < self.snapshot_index() {
            self
        } else {
            ReplayView {
                has_state: true,
                entries: self.entries.filter(|e: LogEntryView| e.index > snapshot.last_index),
                snapshot: Some(snapshot),
                ..self
            }
        }
    }

    /// An entry replaces everything at its index and above; one that the snapshot covers is
    /// dropped.
    pub open spec fn push_entry(self, entry: LogEntryView) -> ReplayView {
        let below = self.entries.filter(|e: LogEntryView| e.index < entry.index);
        ReplayView {
            entries: if entry.index > self.snapshot_index() {
                below.push(entry)
            } else {
                below
            },
            ..self
        }
    }

    pub open spec fn push(self, record: RecordView) -> ReplayView {
        let started = ReplayView { has_state: true, ..self };
        match record {
            RecordView::HardState { term, voted_for, commit } => ReplayView {
                term,
                voted_for,
                commit: if commit > self.commit {
                    commit
                } else {
                    self.commit
                },
                ..started
            },
            RecordView::Entry(entry) => started.push_entry(entry),
            RecordView::Snapshot { last_index, last_term, data } => ReplayView {
                snapshot_in_wal: true,
                ..started
            }.adopt(SnapshotView { last_index, last_term, data }),
        }
    }

    pub open spec fn folded(self, records: Seq<RecordView>) -> ReplayView
        decreases records.len(),
    {
        if records.len() == 0 {
            self
        } else {
            self.folded(records.drop_last()).push(records.last())
        }
    }

    pub open spec fn hard_state(self) -> RecordView {
        RecordView::HardState { term: self.term, voted_for: self.voted_for, commit: self.commit }
    }

    pub open spec fn to_records(self) -> Seq<RecordView> {
        seq![self.hard_state()] + self.entries.map_values(|e: LogEntryView| RecordView::Entry(e))
    }

    /// The entries ascend and all lie above the snapshot.
    pub open spec fn ordered(self) -> bool {
        &&& forall|i: int, j: int|
            0 <= i < j < self.entries.len() ==> (#[trigger] self.entries[i]).index < (
            #[trigger] self.entries[j]).index
        &&& forall|i: int|
            0 <= i < self.entries.len() ==> (#[trigger] self.entries[i]).index
                > self.snapshot_index()
    }
}

impl View for WalReplay {
    type V = ReplayView;

    open spec fn view(&self) -> ReplayView {
        ReplayView {
            term: self.term,
            voted_for: self.voted_for,
            commit: self.commit,
            snapshot: snapshot_view(self.snapshot),
            entries: entry_views(self.entries@),
            has_state: self.has_state,
            snapshot_in_wal: self.snapshot_in_wal,
        }
    }
}

impl Default for WalReplay {
    fn default() -> (replay: Self)
        ensures
            replay@ == ReplayView::empty(),
    {
        let replay = WalReplay {
            term: 0,
            voted_for: None,
            commit: 0,
            snapshot: None,
            entries: Vec::new(),
            has_state: false,
            snapshot_in_wal: false,
        };
        assert(replay@ =~= ReplayView::empty());
        replay
    }
}

/// Keeps the entries whose index lies above `floor` and below `ceiling`.
fn keep_between(entries: &mut Vec<LogEntry>, floor: Option<LogIndex>, ceiling: Option<LogIndex>)
    ensures
        entry_views(final(entries)@) == entry_views(old(entries)@).filter(
            |e: LogEntryView| within(e.index, floor, ceiling),
        ),
{
    let ghost all = entry_views(entries@);
    let ghost kept_by = |e: LogEntryView| within(e.index, floor, ceiling);
    let mut kept: Vec<LogEntry> = Vec::new();
    let mut i: usize = 0;
    let mut dropped: bool = false;
    proof {
        reveal(Seq::filter);
        assert(all.take(0).filter(kept_by) =~= Seq::empty());
    }
    // Most batches drop nothing: look before copying.
    while i < entries.len() && !dropped
        invariant
            i <= entries@.len(),
            all == entry_views(entries@),
            kept_by == (|e: LogEntryView| within(e.index, floor, ceiling)),
            !dropped ==> all.take(i as int).filter(kept_by) == all.take(i as int),
        decreases entries@.len() - i + (if dropped {
            0int
        } else {
            1int
        }),
    {
        assert(all[i as int] == entries@[i as int]@);
        if is_within(entries[i].index, floor, ceiling) {
            proof {
                reveal(Seq::filter);
                assert(all.take(i + 1).drop_last() =~= all.take(i as int));
                assert(all.take(i + 1) =~= all.take(i as int).push(all[i as int]));
            }
            i += 1;
        } else {
            dropped = true;
        }
    }
    if !dropped {
        assert(all.take(i as int) =~= all);
        return;
    }
    let mut j: usize = 0;
    assert(entry_views(kept@) =~= Seq::empty());
    while j < entries.len()
        invariant
            j <= entries@.len(),
            all == entry_views(entries@),
            kept_by == (|e: LogEntryView| within(e.index, floor, ceiling)),
            entry_views(kept@) == all.take(j as int).filter(kept_by),
        decreases entries@.len() - j,
    {
        assert(all[j as int] == entries@[j as int]@);
        let ghost before = kept@;
        let keep = is_within(entries[j].index, floor, ceiling);
        if keep {
            kept.push(entries[j].clone());
        }
        proof {
            reveal(Seq::filter);
            assert(all.take(j + 1).drop_last() =~= all.take(j as int));
            if keep {
                assert(entry_views(kept@) =~= entry_views(before).push(all[j as int]));
            }
        }
        j += 1;
    }
    assert(all.take(j as int) =~= all);
    *entries = kept;
}

spec fn within(index: LogIndex, floor: Option<LogIndex>, ceiling: Option<LogIndex>) -> bool {
    &&& floor matches Some(f) ==> index > f
    &&& ceiling matches Some(c) ==> index < c
}

fn is_within(index: LogIndex, floor: Option<LogIndex>, ceiling: Option<LogIndex>) -> (res: bool)
    ensures
        res == within(index, floor, ceiling),
{
    let above = match floor {
        Some(f) => index > f,
        None => true,
    };
    let below = match ceiling {
        Some(c) => index < c,
        None => true,
    };
    above && below
}

impl WalReplay {
    pub fn push(&mut self, record: WalRecord)
        ensures
            final(self)@ == old(self)@.push(record@),
    {
        self.has_state = true;
        match record {
            WalRecord::HardState { term, voted_for, commit } => {
                self.term = term;
                self.voted_for = voted_for;
                if commit > self.commit {
                    self.commit = commit;
                }
            },
            WalRecord::Entry(entry) => {
                // The same conflict resolution as at run time: truncate at the index, then push.
                keep_between(&mut self.entries, None, Some(entry.index));
                let ghost below = self.entries@;
                proof {
                    lemma_filters_below(old(self)@.entries, entry.index);
                }
                if entry.index > self.snapshot_index() {
                    self.entries.push(entry);
                    assert(entry_views(self.entries@) =~= entry_views(below).push(entry@));
                }
            },
            WalRecord::Snapshot { last_index, last_term, data } => {
                self.snapshot_in_wal = true;
                self.adopt(Snapshot { last_index, last_term, data });
            },
        }
    }

    /// Takes `snapshot` as the base if it is not older than anything seen so far, releasing the
    /// previous one and the entries it covers.
    pub fn adopt(&mut self, snapshot: Snapshot)
        ensures
            final(self)@ == old(self)@.adopt(snapshot@),
    {
        if snapshot.last_index < self.snapshot_index() {
            return;
        }
        self.has_state = true;
        keep_between(&mut self.entries, Some(snapshot.last_index), None);
        proof {
            lemma_filters_above(old(self)@.entries, snapshot.last_index);
        }
        self.snapshot = Some(snapshot);
    }

    /// The records that a rotated log must carry to reproduce this state.
    pub fn to_records(&self) -> (records: Vec<WalRecord>)
        ensures
            record_views(records@) == self@.to_records(),
    {
        let mut records: Vec<WalRecord> = Vec::new();
        records.push(
            WalRecord::HardState {
                term: self.term,
                voted_for: self.voted_for,
                commit: self.commit,
            },
        );
        let ghost wanted = self@.to_records();
        let mut i: usize = 0;
        assert(record_views(records@) =~= wanted.take(1));
        while i < self.entries.len()
            invariant
                i <= self.entries@.len(),
                wanted == self@.to_records(),
                record_views(records@) == wanted.take(i + 1),
            decreases self.entries@.len() - i,
        {
            let ghost before = records@;
            let record = WalRecord::Entry(self.entries[i].clone());
            records.push(record);
            assert(record_views(records@) =~= record_views(before).push(record@));
            assert(wanted.take(i + 2) =~= wanted.take(i + 1).push(record@));
            i += 1;
        }
        assert(wanted.take(i + 1) =~= wanted);
        records
    }

    pub fn snapshot_index(&self) -> (index: LogIndex)
        ensures
            index == self@.snapshot_index(),
    {
        match &self.snapshot {
            Some(snapshot) => snapshot.last_index,
            None => 0,
        }
    }

    /// The index and term of the snapshot, or zeros.
    pub fn snapshot_position(&self) -> (position: (LogIndex, Term))
        ensures
            position == (self@.snapshot_index(), self@.snapshot_term()),
    {
        match &self.snapshot {
            Some(snapshot) => (snapshot.last_index, snapshot.last_term),
            None => (0, 0),
        }
    }

    /// Folds a list of records in one go.
    pub fn from_records(records: Vec<WalRecord>) -> (replay: Self)
        ensures
            replay@ == ReplayView::empty().folded(record_views(records@)),
    {
        let mut replay = WalReplay::default();
        let ghost views = record_views(records@);
        let mut i: usize = 0;
        assert(views.take(0) =~= Seq::empty());
        while i < records.len()
            invariant
                i <= records@.len(),
                views == record_views(records@),
                replay@ == ReplayView::empty().folded(views.take(i as int)),
            decreases records@.len() - i,
        {
            assert(views.take(i + 1).drop_last() =~= views.take(i as int));
            replay.push(records[i].clone());
            i += 1;
        }
        assert(views.take(i as int) =~= views);
        replay
    }
}

proof fn lemma_filters_below(entries: Seq<LogEntryView>, index: LogIndex)
    ensures
        entries.filter(|e: LogEntryView| within(e.index, None, Some(index))) == entries.filter(
            |e: LogEntryView| e.index < index,
        ),
{
    assert((|e: LogEntryView| within(e.index, None, Some(index))) =~= (|e: LogEntryView|
        e.index < index));
}

proof fn lemma_filters_above(entries: Seq<LogEntryView>, index: LogIndex)
    ensures
        entries.filter(|e: LogEntryView| within(e.index, Some(index), None)) == entries.filter(
            |e: LogEntryView| e.index > index,
        ),
{
    assert((|e: LogEntryView| within(e.index, Some(index), None)) =~= (|e: LogEntryView|
        e.index > index));
}

// ── Single passes over the records ─────────────────────────────────────────

/// The term and vote of the last hard state.
pub open spec fn last_hard_state(records: Seq<RecordView>) -> (Term, Option<NodeId>)
    decreases records.len(),
{
    if records.len() == 0 {
        (0, None)
    } else {
        match records.last() {
            RecordView::HardState { term, voted_for, .. } => (term, voted_for),
            _ => last_hard_state(records.drop_last()),
        }
    }
}

/// The position of the last snapshot.
pub open spec fn last_snapshot_position(records: Seq<RecordView>) -> (LogIndex, Term)
    decreases records.len(),
{
    if records.len() == 0 {
        (0, 0)
    } else {
        match records.last() {
            RecordView::Snapshot { last_index, last_term, .. } => (last_index, last_term),
            _ => last_snapshot_position(records.drop_last()),
        }
    }
}

/// The entries that are left when every entry replaces those at its index and above.
pub open spec fn surviving_entries(records: Seq<RecordView>) -> Seq<LogEntryView>
    decreases records.len(),
{
    if records.len() == 0 {
        Seq::empty()
    } else {
        let earlier = surviving_entries(records.drop_last());
        match records.last() {
            RecordView::Entry(entry) => earlier.filter(
                |e: LogEntryView| e.index < entry.index,
            ).push(entry),
            _ => earlier,
        }
    }
}

/// Takes the last hard state.
pub fn replay_hard_state(records: &[WalRecord]) -> (state: (Term, Option<NodeId>))
    ensures
        state == last_hard_state(record_views(records@)),
{
    let ghost views = record_views(records@);
    let mut term: Term = 0;
    let mut voted_for: Option<NodeId> = None;
    let mut i: usize = 0;
    assert(views.take(0) =~= Seq::empty());
    while i < records.len()
        invariant
            i <= records@.len(),
            views == record_views(records@),
            (term, voted_for) == last_hard_state(views.take(i as int)),
        decreases records@.len() - i,
    {
        assert(views[i as int] == records@[i as int]@);
        assert(views.take(i + 1).drop_last() =~= views.take(i as int));
        if let WalRecord::HardState { term: t, voted_for: v, .. } = &records[i] {
            term = *t;
            voted_for = *v;
        }
        i += 1;
    }
    assert(views.take(i as int) =~= views);
    (term, voted_for)
}

/// Takes the position of the last snapshot.
pub fn replay_snapshot(records: &[WalRecord]) -> (position: (LogIndex, Term))
    ensures
        position == last_snapshot_position(record_views(records@)),
{
    let ghost views = record_views(records@);
    let mut index: LogIndex = 0;
    let mut term: Term = 0;
    let mut i: usize = 0;
    assert(views.take(0) =~= Seq::empty());
    while i < records.len()
        invariant
            i <= records@.len(),
            views == record_views(records@),
            (index, term) == last_snapshot_position(views.take(i as int)),
        decreases records@.len() - i,
    {
        assert(views[i as int] == records@[i as int]@);
        assert(views.take(i + 1).drop_last() =~= views.take(i as int));
        if let WalRecord::Snapshot { last_index, last_term, .. } = &records[i] {
            index = *last_index;
            term = *last_term;
        }
        i += 1;
    }
    assert(views.take(i as int) =~= views);
    (index, term)
}

/// Rebuilds the entry list, letting a later record at an index replace everything from there on.
pub fn replay_entries(records: &[WalRecord]) -> (entries: Vec<LogEntry>)
    ensures
        entry_views(entries@) == surviving_entries(record_views(records@)),
{
    let ghost views = record_views(records@);
    let mut entries: Vec<LogEntry> = Vec::new();
    let mut i: usize = 0;
    assert(views.take(0) =~= Seq::empty());
    assert(entry_views(entries@) =~= Seq::empty());
    while i < records.len()
        invariant
            i <= records@.len(),
            views == record_views(records@),
            entry_views(entries@) == surviving_entries(views.take(i as int)),
        decreases records@.len() - i,
    {
        assert(views[i as int] == records@[i as int]@);
        assert(views.take(i + 1).drop_last() =~= views.take(i as int));
        if let WalRecord::Entry(entry) = &records[i] {
            proof {
                lemma_filters_below(entry_views(entries@), entry.index);
            }
            keep_between(&mut entries, None, Some(entry.index));
            let ghost below = entries@;
            let copy = entry.clone();
            entries.push(copy);
            assert(entry_views(entries@) =~= entry_views(below).push(entry@));
        }
        i += 1;
    }
    assert(views.take(i as int) =~= views);
    entries
}

// ── Laws ───────────────────────────────────────────────────────────────────

pub open spec fn ascending_indexes(entries: Seq<LogEntryView>) -> bool {
    forall|i: int, j: int|
        0 <= i < j < entries.len() ==> (#[trigger] entries[i]).index < (#[trigger] entries[j]).index
}

proof fn lemma_filter_ascending(entries: Seq<LogEntryView>, pred: spec_fn(LogEntryView) -> bool)
    requires
        ascending_indexes(entries),
    ensures
        ascending_indexes(entries.filter(pred)),
        forall|i: int|
            0 <= i < entries.filter(pred).len() ==> pred(#[trigger] entries.filter(pred)[i])
                && entries.contains(entries.filter(pred)[i]),
    decreases entries.len(),
{
    reveal(Seq::filter);
    if entries.len() > 0 {
        let rest = entries.drop_last();
        lemma_filter_ascending(rest, pred);
        let kept = rest.filter(pred);
        assert forall|i: int| 0 <= i < kept.len() implies (#[trigger] kept[i]).index
            < entries.last().index && entries.contains(kept[i]) by {
            assert(rest.contains(kept[i]));
            let k = choose|k: int| 0 <= k < rest.len() && rest[k] == kept[i];
            assert(entries[k] == kept[i]);
            assert(entries[entries.len() - 1] == entries.last());
        }
        assert(entries.contains(entries.last()));
    }
}

pub(crate) proof fn lemma_filter_all(entries: Seq<LogEntryView>, pred: spec_fn(LogEntryView) -> bool)
    requires
        forall|i: int| 0 <= i < entries.len() ==> pred(#[trigger] entries[i]),
    ensures
        entries.filter(pred) == entries,
    decreases entries.len(),
{
    reveal(Seq::filter);
    if entries.len() > 0 {
        let rest = entries.drop_last();
        assert forall|i: int| 0 <= i < rest.len() implies pred(#[trigger] rest[i]) by {
            assert(rest[i] == entries[i]);
        }
        lemma_filter_all(rest, pred);
        assert(pred(entries[entries.len() - 1]));
        assert(rest.push(entries.last()) =~= entries);
    }
}

/// Whatever records come in whatever order, the entries kept ascend and none of them is covered
/// by the snapshot.
pub proof fn law_replay_stays_ordered(replay: ReplayView, records: Seq<RecordView>)
    requires
        replay.ordered(),
    ensures
        replay.folded(records).ordered(),
    decreases records.len(),
{
    if records.len() > 0 {
        law_replay_stays_ordered(replay, records.drop_last());
        let before = replay.folded(records.drop_last());
        match records.last() {
            RecordView::HardState { .. } => {},
            RecordView::Entry(entry) => {
                let below = |e: LogEntryView| e.index < entry.index;
                lemma_filter_ascending(before.entries, below);
                let kept = before.entries.filter(below);
                assert forall|i: int| 0 <= i < kept.len() implies (#[trigger] kept[i]).index
                    > before.snapshot_index() by {
                    assert(before.entries.contains(kept[i]));
                    let k = choose|k: int|
                        0 <= k < before.entries.len() && before.entries[k] == kept[i];
                    assert(before.entries[k].index > before.snapshot_index());
                }
                assert(replay.folded(records).ordered());
            },
            RecordView::Snapshot { last_index, last_term, data } => {
                lemma_adopt_ordered(
                    ReplayView { has_state: true, snapshot_in_wal: true, ..before },
                    SnapshotView { last_index, last_term, data },
                );
            },
        }
    }
}

proof fn lemma_adopt_ordered(replay: ReplayView, snapshot: SnapshotView)
    requires
        replay.ordered(),
    ensures
        replay.adopt(snapshot).ordered(),
{
    lemma_filter_ascending(replay.entries, |e: LogEntryView| e.index > snapshot.last_index);
}

/// Of two snapshots the newer one is the base, whichever comes first.
pub proof fn law_newest_snapshot_is_kept(replay: ReplayView, snapshot: SnapshotView)
    requires
        replay.ordered(),
    ensures
        replay.adopt(snapshot).ordered(),
        replay.adopt(snapshot).snapshot_index() >= replay.snapshot_index(),
        replay.adopt(snapshot).snapshot_index() >= snapshot.last_index,
        snapshot.last_index >= replay.snapshot_index() ==> replay.adopt(snapshot).snapshot == Some(
            snapshot,
        ),
{
    lemma_adopt_ordered(replay, snapshot);
}

/// A rotated log reproduces the state it was written from: the records of a replay, folded again
/// and joined with its snapshot, give the same term, vote, commit index, snapshot and entries.
pub proof fn law_rotated_log_reproduces_state(replay: ReplayView)
    requires
        replay.ordered(),
    ensures
        ({
            let again = ReplayView::empty().folded(replay.to_records());
            &&& again == (ReplayView {
                snapshot: None,
                has_state: true,
                snapshot_in_wal: false,
                ..replay
            })
            &&& replay.snapshot matches Some(snapshot) ==> again.adopt(snapshot) == (ReplayView {
                has_state: true,
                snapshot_in_wal: false,
                ..replay
            })
        }),
{
    let records = replay.to_records();
    lemma_fold_entries(replay, replay.entries.len() as int);
    assert(records.take(replay.entries.len() as int + 1) =~= records);
    assert(replay.entries.take(replay.entries.len() as int) =~= replay.entries);
    if let Some(snapshot) = replay.snapshot {
        lemma_filter_all(replay.entries, |e: LogEntryView| e.index > snapshot.last_index);
    }
}

proof fn lemma_fold_entries(replay: ReplayView, n: int)
    requires
        replay.ordered(),
        0 <= n <= replay.entries.len(),
    ensures
        ReplayView::empty().folded(replay.to_records().take(n + 1)) == (ReplayView {
            snapshot: None,
            has_state: true,
            snapshot_in_wal: false,
            entries: replay.entries.take(n),
            ..replay
        }),
    decreases n,
{
    let records = replay.to_records();
    if n == 0 {
        reveal_with_fuel(ReplayView::folded, 2);
        assert(records.take(1).drop_last() =~= Seq::empty());
        assert(records.take(1).last() == replay.hard_state());
        assert(replay.entries.take(0) =~= Seq::empty());
    } else {
        lemma_fold_entries(replay, n - 1);
        assert(records.take(n + 1).drop_last() =~= records.take(n));
        let entry = replay.entries[n - 1];
        assert(records.take(n + 1).last() == RecordView::Entry(entry));
        let earlier = replay.entries.take(n - 1);
        assert forall|i: int| 0 <= i < earlier.len() implies (#[trigger] earlier[i]).index
            < entry.index by {
            assert(earlier[i] == replay.entries[i]);
        }
        lemma_filter_all(earlier, |e: LogEntryView| e.index < entry.index);
        assert(earlier.push(entry) =~= replay.entries.take(n));
    }
}

/// A hard state brings its term and its vote, and moves the commit index on but never back. It
/// changes nothing else.
pub proof fn law_hard_state_is_taken_in(
    replay: ReplayView,
    term: Term,
    voted_for: Option<NodeId>,
    commit: LogIndex,
)
    ensures
        ({
            let after = replay.push(RecordView::HardState { term, voted_for, commit });
            &&& after.term == term
            &&& after.voted_for == voted_for
            &&& after.commit >= commit && after.commit >= replay.commit
            &&& after.commit == commit || after.commit == replay.commit
            &&& after.snapshot == replay.snapshot
            &&& after.entries == replay.entries
            &&& after.snapshot_in_wal == replay.snapshot_in_wal
            &&& after.has_state
        }),
{
}

/// An entry takes its place at the end, unless the snapshot covers it. Whatever stood at its index
/// or above is gone, and everything below stays.
pub proof fn law_entry_is_taken_in(replay: ReplayView, entry: LogEntryView, other: LogEntryView)
    ensures
        ({
            let after = replay.push(RecordView::Entry(entry));
            let base = match replay.snapshot {
                Some(snapshot) => snapshot.last_index,
                None => 0,
            };
            &&& after.term == replay.term
            &&& after.voted_for == replay.voted_for
            &&& after.commit == replay.commit
            &&& after.snapshot == replay.snapshot
            &&& after.snapshot_in_wal == replay.snapshot_in_wal
            &&& after.has_state
            &&& entry.index > base ==> after.entries.len() > 0 && after.entries.last() == entry
            &&& after.entries.contains(other) <==> (replay.entries.contains(other) && other.index
                < entry.index) || (other == entry && entry.index > base)
        }),
{
    let below = |e: LogEntryView| e.index < entry.index;
    let kept = replay.entries.filter(below);
    let after = replay.push(RecordView::Entry(entry));
    lemma_kept(replay.entries, below, other);
    if entry.index > replay.snapshot_index() {
        assert(after.entries =~= kept.push(entry));
        if kept.contains(other) {
            let k = choose|k: int| 0 <= k < kept.len() && kept[k] == other;
            assert(after.entries[k] == other);
        }
        assert(after.entries[after.entries.len() - 1] == entry);
    }
}

proof fn lemma_kept(
    entries: Seq<LogEntryView>,
    pred: spec_fn(LogEntryView) -> bool,
    other: LogEntryView,
)
    ensures
        entries.filter(pred).contains(other) <==> entries.contains(other) && pred(other),
{
    let kept = entries.filter(pred);
    if kept.contains(other) {
        let k = choose|k: int| 0 <= k < kept.len() && kept[k] == other;
        entries.lemma_filter_pred(pred, k);
        entries.lemma_filter_contains_rev(pred, other);
    }
    if entries.contains(other) && pred(other) {
        let k = choose|k: int| 0 <= k < entries.len() && entries[k] == other;
        entries.lemma_filter_contains(pred, k);
    }
}

/// A snapshot that is not older than the one held takes its place, together with every entry up to
/// its position; the entries above stay. An older one changes nothing. A snapshot in the log is
/// noted as such in either case.
pub proof fn law_snapshot_is_taken_in(
    replay: ReplayView,
    snapshot: SnapshotView,
    other: LogEntryView,
)
    ensures
        ({
            let adopted = replay.adopt(snapshot);
            let base = match replay.snapshot {
                Some(held) => held.last_index,
                None => 0,
            };
            &&& snapshot.last_index < base ==> adopted == replay
            &&& snapshot.last_index >= base ==> {
                &&& adopted.term == replay.term
                &&& adopted.voted_for == replay.voted_for
                &&& adopted.commit == replay.commit
                &&& adopted.snapshot == Some(snapshot)
                &&& adopted.snapshot_in_wal == replay.snapshot_in_wal
                &&& adopted.has_state
                &&& adopted.entries.contains(other) <==> replay.entries.contains(other)
                    && other.index > snapshot.last_index
            }
            &&& replay.push(
                RecordView::Snapshot {
                    last_index: snapshot.last_index,
                    last_term: snapshot.last_term,
                    data: snapshot.data,
                },
            ) == (ReplayView { has_state: true, snapshot_in_wal: true, ..adopted })
        }),
{
    lemma_kept(replay.entries, |e: LogEntryView| e.index > snapshot.last_index, other);
}

/// Records are taken in one after the other, from the first to the last.
pub proof fn law_records_are_taken_in_order(
    replay: ReplayView,
    records: Seq<RecordView>,
    states: Seq<ReplayView>,
)
    requires
        states.len() == records.len() + 1,
        states[0] == replay,
        forall|i: int|
            0 <= i < records.len() ==> states[i + 1] == states[i].push(#[trigger] records[i]),
    ensures
        replay.folded(records) == states[records.len() as int],
    decreases records.len(),
{
    if records.len() > 0 {
        let rest = records.drop_last();
        let earlier = states.drop_last();
        assert forall|i: int| 0 <= i < rest.len() implies earlier[i + 1] == earlier[i].push(
            #[trigger] rest[i],
        ) by {
            assert(rest[i] == records[i]);
        }
        law_records_are_taken_in_order(replay, rest, earlier);
        assert(records[records.len() - 1] == records.last());
    }
}

/// A rewritten log begins with the hard state, and then has every entry, in order.
pub proof fn law_written_records(replay: ReplayView)
    ensures
        ({
            let records = replay.to_records();
            &&& records.len() == replay.entries.len() + 1
            &&& records[0] == (RecordView::HardState {
                term: replay.term,
                voted_for: replay.voted_for,
                commit: replay.commit,
            })
            &&& forall|i: int|
                0 <= i < replay.entries.len() ==> records[i + 1] == RecordView::Entry(
                    #[trigger] replay.entries[i],
                )
        }),
{
}

/// The term and the vote are those of the hard state behind which there is no other, and the
/// position is that of the snapshot behind which there is no other; without any it is zero.
pub proof fn law_last_of_its_kind_counts(records: Seq<RecordView>, at: int)
    ensures
        0 <= at < records.len() && (forall|j: int|
            at < j < records.len() ==> !((#[trigger] records[j]) is HardState)) ==> (
        records[at] matches RecordView::HardState { term, voted_for, .. } ==> last_hard_state(
            records,
        ) == (term, voted_for)),
        (forall|j: int| 0 <= j < records.len() ==> !((#[trigger] records[j]) is HardState))
            ==> last_hard_state(records) == (0u64, None::<NodeId>),
        0 <= at < records.len() && (forall|j: int|
            at < j < records.len() ==> !((#[trigger] records[j]) is Snapshot)) ==> (
        records[at] matches RecordView::Snapshot { last_index, last_term, .. }
            ==> last_snapshot_position(records) == (last_index, last_term)),
        (forall|j: int| 0 <= j < records.len() ==> !((#[trigger] records[j]) is Snapshot))
            ==> last_snapshot_position(records) == (0u64, 0u64),
    decreases records.len(),
{
    if records.len() > 0 {
        let rest = records.drop_last();
        law_last_of_its_kind_counts(rest, at);
        assert(records[records.len() - 1] == records.last());
        assert forall|j: int| 0 <= j < rest.len() implies #[trigger] rest[j] == records[j] by {}
    }
}

/// The entry stands at a place in the records, and no later one stands at its index or below.
pub open spec fn survives_at(records: Seq<RecordView>, i: int, entry: LogEntryView) -> bool {
    &&& 0 <= i < records.len()
    &&& records[i] == RecordView::Entry(entry)
    &&& forall|j: int|
        i < j < records.len() ==> ((#[trigger] records[j]) matches RecordView::Entry(later)
            ==> later.index > entry.index)
}

/// An entry survives exactly if no later one stands at its index or below.
pub proof fn law_entries_survive_unless_replaced(records: Seq<RecordView>, entry: LogEntryView)
    ensures
        surviving_entries(records).contains(entry) <==> exists|i: int| #[trigger]
            survives_at(records, i, entry),
    decreases records.len(),
{
    if records.len() > 0 {
        let rest = records.drop_last();
        let n = records.len() - 1;
        law_entries_survive_unless_replaced(rest, entry);
        assert(records[n] == records.last());
        let earlier = surviving_entries(rest);
        let above = match records.last() {
            RecordView::Entry(last) => last.index > entry.index,
            _ => true,
        };
        assert((exists|i: int| #[trigger] survives_at(records, i, entry)) <==> (
        records.last() == RecordView::Entry(entry) || (above && exists|i: int| #[trigger]
            survives_at(rest, i, entry)))) by {
            if records.last() == RecordView::Entry(entry) {
                assert(survives_at(records, n, entry));
            }
            if above && exists|i: int| #[trigger] survives_at(rest, i, entry) {
                let i = choose|i: int| #[trigger] survives_at(rest, i, entry);
                assert forall|j: int| i < j < records.len() implies ((
                #[trigger] records[j]) matches RecordView::Entry(later) ==> later.index
                    > entry.index) by {
                    if j < n {
                        assert(rest[j] == records[j]);
                    }
                }
                assert(survives_at(records, i, entry));
            }
            if exists|i: int| #[trigger] survives_at(records, i, entry) {
                let i = choose|i: int| #[trigger] survives_at(records, i, entry);
                if i < n {
                    assert forall|j: int| i < j < rest.len() implies ((
                    #[trigger] rest[j]) matches RecordView::Entry(later) ==> later.index
                        > entry.index) by {
                        assert(rest[j] == records[j]);
                    }
                    assert(survives_at(rest, i, entry));
                    assert(above);
                }
            }
        }
        if let RecordView::Entry(last) = records.last() {
            let below = |e: LogEntryView| e.index < last.index;
            let kept = earlier.filter(below);
            lemma_kept(earlier, below, entry);
            assert(surviving_entries(records) == kept.push(last));
            if kept.contains(entry) {
                let k = choose|k: int| 0 <= k < kept.len() && kept[k] == entry;
                assert(kept.push(last)[k] == entry);
            }
            assert(kept.push(last)[kept.len() as int] == last);
        }
    }
}

} // verus!
