//! The in-memory Raft log with snapshot compaction.
use vstd::prelude::*;

use crate::message::{entry_views, EntryType, LogEntry, LogEntryView, LogIndex, Term};

verus! {

/// In-memory Raft log. Entries are 1-indexed; the slot below the first entry is a sentinel that
/// carries the index and term of the latest snapshot (0 and 0 if there is none).
#[derive(Debug)]
pub struct RaftLog {
    entries: Vec<LogEntry>,
    /// Index of the last entry included in the latest snapshot (0 if none).
    snapshot_index: LogIndex,
    snapshot_term: Term,
}

/// A log: the position covered by the latest snapshot, and the entries above it.
pub ghost struct LogView {
    pub base: LogIndex,
    pub base_term: Term,
    pub entries: Seq<LogEntryView>,
}

impl LogView {
    /// The log of a node that has seen nothing.
    pub open spec fn empty() -> LogView {
        LogView { base: 0, base_term: 0, entries: Seq::empty() }
    }

    pub open spec fn last_index(self) -> int {
        self.base + self.entries.len()
    }

    pub open spec fn last_term(self) -> Term {
        if self.entries.len() == 0 {
            self.base_term
        } else {
            self.entries.last().term
        }
    }

    /// Whether the log holds an entry at `index` (the snapshot base holds none).
    pub open spec fn has(self, index: int) -> bool {
        self.base < index <= self.last_index()
    }

    /// The entry at a position above the base.
    pub open spec fn at(self, index: int) -> LogEntryView
        recommends
            self.has(index),
    {
        self.entries[index - self.base - 1]
    }

    /// The term at a position the log still knows: the base or an entry above it.
    pub open spec fn term_at(self, index: int) -> Option<Term> {
        if index == self.base {
            Some(self.base_term)
        } else if self.has(index) {
            Some(self.at(index).term)
        } else {
            None
        }
    }

    /// The entry that stands for the snapshot below the first entry.
    pub open spec fn sentinel(self) -> LogEntryView {
        LogEntryView {
            index: self.base,
            term: self.base_term,
            entry_type: EntryType::Normal,
            command: Seq::empty(),
        }
    }

    /// The entries at `index` and above.
    pub open spec fn from(self, index: int) -> Seq<LogEntryView>
        recommends
            self.base < index <= self.last_index() + 1,
    {
        self.entries.skip(index - self.base - 1)
    }

    pub open spec fn append(self, entry: LogEntryView) -> LogView {
        LogView { entries: self.entries.push(entry), ..self }
    }

    /// The log with everything at `index` and above replaced by `new_entries`.
    pub open spec fn truncate_and_append(self, index: int, new_entries: Seq<LogEntryView>) -> LogView {
        if index <= self.last_index() {
            LogView { entries: self.entries.take(index - self.base - 1) + new_entries, ..self }
        } else {
            LogView { entries: self.entries + new_entries, ..self }
        }
    }

    /// The log with everything up to and including `index` folded into a snapshot.
    pub open spec fn compact(self, index: LogIndex, term: Term) -> LogView {
        LogView {
            base: index,
            base_term: term,
            entries: if index < self.last_index() {
                self.entries.skip(index - self.base)
            } else {
                Seq::empty()
            },
        }
    }

    /// The first index of the run of equal terms that ends at `index`.
    pub open spec fn run_start(self, index: int) -> int
        decreases index - self.base,
    {
        if self.has(index - 1) && self.has(index) && self.at(index - 1).term == self.at(index).term {
            self.run_start(index - 1)
        } else {
            index
        }
    }

    /// How many of the leading `entries` the log already holds behind `prev`, position by
    /// position and with the same term.
    pub open spec fn held(self, prev: int, entries: Seq<LogEntryView>) -> nat
        decreases entries.len(),
    {
        if entries.len() > 0 && self.term_at(prev + 1) == Some(entries[0].term) {
            1 + self.held(prev + 1, entries.skip(1))
        } else {
            0
        }
    }

    /// Every entry carries the index of the position it stands at.
    pub open spec fn indexed(self) -> bool {
        forall|i: int| 0 <= i < self.entries.len() ==> (#[trigger] self.entries[i]).index == self.base
            + 1 + i
    }
}

impl View for RaftLog {
    type V = LogView;

    closed spec fn view(&self) -> LogView {
        LogView {
            base: self.snapshot_index,
            base_term: self.snapshot_term,
            entries: entry_views(self.entries@).skip(1),
        }
    }
}

impl RaftLog {
    /// The sentinel is in place and every position is a valid index.
    pub closed spec fn wf(self) -> bool {
        &&& self.entries@.len() >= 1
        &&& self.entries@[0]@ == self@.sentinel()
        &&& self.snapshot_index + self.entries@.len() <= u64::MAX
    }

    /// A well-formed log leaves at least one index unused above its last entry.
    pub proof fn lemma_last_index_bounded(self)
        requires
            self.wf(),
        ensures
            self@.last_index() < u64::MAX,
    {
    }

    pub fn new() -> (log: Self)
        ensures
            log.wf(),
            log@ == LogView::empty(),
    {
        let mut entries: Vec<LogEntry> = Vec::new();
        entries.push(
            LogEntry { index: 0, term: 0, entry_type: EntryType::Normal, command: Vec::new() },
        );
        let log = RaftLog { entries, snapshot_index: 0, snapshot_term: 0 };
        assert(log@.entries =~= Seq::empty());
        assert(log.entries@[0]@ == log@.sentinel());
        log
    }

    pub fn snapshot_index(&self) -> (index: LogIndex)
        ensures
            index == self@.base,
    {
        self.snapshot_index
    }

    pub fn last_index(&self) -> (index: LogIndex)
        requires
            self.wf(),
        ensures
            index == self@.last_index(),
            index < u64::MAX,
    {
        self.snapshot_index + (self.entries.len() - 1) as u64
    }

    pub fn last_term(&self) -> (term: Term)
        requires
            self.wf(),
        ensures
            term == self@.last_term(),
    {
        let last = self.entries.len() - 1;
        assert(last > 0 ==> self@.entries.last() == self.entries@[last as int]@);
        self.entries[last].term
    }

    pub fn term_at(&self, index: LogIndex) -> (term: Option<Term>)
        requires
            self.wf(),
        ensures
            term == self@.term_at(index as int),
    {
        if index < self.snapshot_index {
            return None;
        }
        let offset = index - self.snapshot_index;
        if offset == 0 {
            Some(self.snapshot_term)
        } else if offset < self.entries.len() as u64 {
            assert(self@.at(index as int) == self.entries@[offset as int]@);
            Some(self.entries[offset as usize].term)
        } else {
            None
        }
    }

    /// The entries at `from` and above. At the snapshot index itself the sentinel comes first.
    pub fn entries_from(&self, from: LogIndex) -> (entries: &[LogEntry])
        requires
            self.wf(),
            self@.base <= from <= self@.last_index() + 1,
        ensures
            from > self@.base ==> entry_views(entries@) == self@.from(from as int),
            from == self@.base ==> entry_views(entries@) == seq![self@.sentinel()]
                + self@.entries,
    {
        let offset = (from - self.snapshot_index) as usize;
        let entries = vstd::slice::slice_subrange(
            self.entries.as_slice(),
            offset,
            self.entries.len(),
        );
        assert(from > self@.base ==> entry_views(entries@) =~= self@.from(from as int));
        assert(from == self@.base ==> entry_views(entries@) =~= seq![self@.sentinel()]
            + self@.entries);
        entries
    }

    pub fn append(&mut self, entry: LogEntry)
        requires
            old(self).wf(),
            old(self)@.last_index() + 1 < u64::MAX,
        ensures
            final(self).wf(),
            final(self)@ == old(self)@.append(entry@),
    {
        self.entries.push(entry);
        assert(self@.entries =~= old(self)@.entries.push(entry@));
    }

    /// Truncates everything at `after` and above, then appends `new_entries`.
    pub fn truncate_and_append(&mut self, after: LogIndex, new_entries: Vec<LogEntry>)
        requires
            old(self).wf(),
            old(self)@.base < after,
            (if after <= old(self)@.last_index() {
                after - 1
            } else {
                old(self)@.last_index()
            }) + new_entries@.len() < u64::MAX,
        ensures
            final(self).wf(),
            final(self)@ == old(self)@.truncate_and_append(
                after as int,
                entry_views(new_entries@),
            ),
    {
        let mut new_entries = new_entries;
        let ghost added = new_entries@;
        let offset = after - self.snapshot_index;
        if offset < self.entries.len() as u64 {
            self.entries.truncate(offset as usize);
        }
        self.entries.append(&mut new_entries);
        assert(self@.entries =~= old(self)@.truncate_and_append(
            after as int,
            entry_views(added),
        ).entries);
    }

    /// Rebuilds the log from recovered state: a snapshot position and the entries above it.
    pub fn restore(&mut self, snapshot_index: LogIndex, snapshot_term: Term, entries: Vec<LogEntry>)
        requires
            snapshot_index + entries@.len() < u64::MAX,
        ensures
            final(self).wf(),
            final(self)@ == (LogView {
                base: snapshot_index,
                base_term: snapshot_term,
                entries: entry_views(entries@),
            }),
    {
        let mut entries = entries;
        let ghost restored = entries@;
        let mut slots: Vec<LogEntry> = Vec::new();
        slots.push(
            LogEntry {
                index: snapshot_index,
                term: snapshot_term,
                entry_type: EntryType::Normal,
                command: Vec::new(),
            },
        );
        slots.append(&mut entries);
        self.snapshot_index = snapshot_index;
        self.snapshot_term = snapshot_term;
        self.entries = slots;
        assert(self@.entries =~= entry_views(restored));
    }

    /// Discards entries up to and including `index` (snapshot compaction). An index beyond the
    /// end of the log discards every entry.
    pub fn compact(&mut self, index: LogIndex, term: Term)
        requires
            old(self).wf(),
            old(self)@.base <= index < u64::MAX,
        ensures
            final(self).wf(),
            final(self)@ == old(self)@.compact(index, term),
    {
        let mut slots: Vec<LogEntry> = Vec::new();
        slots.push(
            LogEntry { index, term, entry_type: EntryType::Normal, command: Vec::new() },
        );
        let offset = index - self.snapshot_index;
        if offset < (self.entries.len() - 1) as u64 {
            let mut tail = self.entries.split_off(offset as usize + 1);
            slots.append(&mut tail);
        }
        self.entries = slots;
        self.snapshot_index = index;
        self.snapshot_term = term;
        assert(self@.entries =~= old(self)@.compact(index, term).entries);
    }
}

impl Default for RaftLog {
    fn default() -> (log: Self)
        ensures
            log.wf(),
            log@ == LogView::empty(),
    {
        RaftLog::new()
    }
}

// ── Laws ───────────────────────────────────────────────────────────────────

/// Where the entries of a log stand: the first one right above the snapshot, each further one an
/// index higher. The log knows the term of the snapshot's position and of every entry, and of
/// nothing else.
pub proof fn law_entries_stand_above_the_snapshot(log: LogView, index: int)
    ensures
        log.last_index() == log.base + log.entries.len(),
        log.entries.len() == 0 ==> log.last_term() == log.base_term,
        log.entries.len() > 0 ==> log.last_term() == log.entries[log.entries.len() - 1].term,
        index == log.base ==> log.term_at(index) == Some(log.base_term),
        log.base < index <= log.base + log.entries.len() ==> log.term_at(index) == Some(
            log.entries[index - log.base - 1].term,
        ),
        index < log.base || index > log.base + log.entries.len() ==> log.term_at(index) is None,
        log.base < index <= log.base + log.entries.len() + 1 ==> {
            &&& log.from(index).len() == log.base + log.entries.len() + 1 - index
            &&& forall|i: int|
                0 <= i < log.from(index).len() ==> #[trigger] log.from(index)[i]
                    == log.entries[index - log.base - 1 + i]
        },
{
}

/// An entry that is appended stands right behind the last one. Entries that replace the log from a
/// position on leave everything below it alone. A snapshot takes the place of everything up to its
/// position, and of nothing above it.
pub proof fn law_log_changes_only_where_told(
    log: LogView,
    entry: LogEntryView,
    at: int,
    run: Seq<LogEntryView>,
    index: LogIndex,
    term: Term,
)
    ensures
        log.append(entry).base == log.base,
        log.append(entry).base_term == log.base_term,
        log.append(entry).entries == log.entries.push(entry),
        log.base < at <= log.base + log.entries.len() + 1 ==> {
            let after = log.truncate_and_append(at, run);
            let kept = at - log.base - 1;
            &&& after.base == log.base
            &&& after.base_term == log.base_term
            &&& after.entries.len() == kept + run.len()
            &&& forall|i: int|
                0 <= i < kept ==> #[trigger] after.entries[i] == log.entries[i]
            &&& forall|i: int| 0 <= i < run.len() ==> after.entries[kept + i] == #[trigger] run[i]
        },
        log.compact(index, term).base == index,
        log.compact(index, term).base_term == term,
        index >= log.base + log.entries.len() ==> log.compact(index, term).entries.len() == 0,
        log.base <= index <= log.base + log.entries.len() ==> {
            let after = log.compact(index, term);
            &&& after.entries.len() == log.base + log.entries.len() - index
            &&& forall|i: int|
                0 <= i < after.entries.len() ==> #[trigger] after.entries[i] == log.entries[index
                    - log.base + i]
        },
{
}

} // verus!
