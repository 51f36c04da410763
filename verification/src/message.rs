//! The data that Raft nodes exchange and log, and the mathematical view of each type.
use vstd::prelude::*;

verus! {

pub type NodeId = u64;

pub type Term = u64;

pub type LogIndex = u64;

/// The part of a node's state that must survive a crash.
#[derive(Debug, Clone, Copy, PartialEq, Eq, Structural)]
pub struct HardState {
    pub term: Term,
    pub voted_for: Option<NodeId>,
    /// Highest commit index this node has made durable.
    ///
    /// Guards built on the commit index (the floor of the rollback hint, the read index of a
    /// linearizable read) would be vacuous after a restart if it fell back to the snapshot base.
    pub commit: LogIndex,
}

#[derive(Debug, Clone, Copy, PartialEq, Eq, Structural, Default)]
pub enum EntryType {
    #[default]
    Normal,
    ConfChange,
}

#[derive(Debug, Clone, Copy, PartialEq, Eq, Structural)]
pub enum ConfChangeOp {
    Add,
    Remove,
}

/// A membership change: add or remove one voter.
#[derive(Debug, PartialEq, Eq)]
pub struct ConfChangeCmd {
    pub op: ConfChangeOp,
    pub node_id: NodeId,
    /// gRPC address (host:port), only present for `Add`.
    pub raft_addr: Option<String>,
    /// HTTP address (host:port), only present for `Add`.
    pub http_addr: Option<String>,
}

pub ghost struct ConfChangeView {
    pub op: ConfChangeOp,
    pub node_id: NodeId,
    pub raft_addr: Option<Seq<char>>,
    pub http_addr: Option<Seq<char>>,
}

/// The characters of an optional string.
pub open spec fn text_view(s: Option<String>) -> Option<Seq<char>> {
    match s {
        Some(t) => Some(t@),
        None => None,
    }
}

impl View for ConfChangeCmd {
    type V = ConfChangeView;

    open spec fn view(&self) -> ConfChangeView {
        ConfChangeView {
            op: self.op,
            node_id: self.node_id,
            raft_addr: text_view(self.raft_addr),
            http_addr: text_view(self.http_addr),
        }
    }
}

impl Clone for ConfChangeCmd {
    fn clone(&self) -> (copy: Self)
        ensures
            copy@ == self@,
    {
        ConfChangeCmd {
            op: self.op,
            node_id: self.node_id,
            raft_addr: self.raft_addr.clone(),
            http_addr: self.http_addr.clone(),
        }
    }
}

/// One slot of the replicated log.
#[derive(Debug, PartialEq, Eq)]
pub struct LogEntry {
    pub index: LogIndex,
    pub term: Term,
    pub entry_type: EntryType,
    /// The encoded command. Empty for a no-op; a `ConfChangeCmd` for a `ConfChange` entry.
    pub command: Vec<u8>,
}

pub ghost struct LogEntryView {
    pub index: LogIndex,
    pub term: Term,
    pub entry_type: EntryType,
    pub command: Seq<u8>,
}

impl View for LogEntry {
    type V = LogEntryView;

    open spec fn view(&self) -> LogEntryView {
        LogEntryView {
            index: self.index,
            term: self.term,
            entry_type: self.entry_type,
            command: self.command@,
        }
    }
}

/// The views of a sequence of entries.
pub open spec fn entry_views(entries: Seq<LogEntry>) -> Seq<LogEntryView> {
    entries.map_values(|e: LogEntry| e@)
}

impl Clone for LogEntry {
    fn clone(&self) -> (copy: Self)
        ensures
            copy@ == self@,
    {
        let command = self.command.clone();
        assert(command@ =~= self.command@);
        LogEntry { index: self.index, term: self.term, entry_type: self.entry_type, command }
    }
}

/// Clones the entries of a slice.
pub fn clone_entries(entries: &[LogEntry]) -> (copy: Vec<LogEntry>)
    ensures
        entry_views(copy@) == entry_views(entries@),
{
    let mut copy: Vec<LogEntry> = Vec::new();
    let mut i: usize = 0;
    while i < entries.len()
        invariant
            i <= entries@.len(),
            entry_views(copy@) == entry_views(entries@).take(i as int),
        decreases entries@.len() - i,
    {
        let ghost before = copy@;
        copy.push(entries[i].clone());
        assert(entry_views(copy@) =~= entry_views(before).push(entries@[i as int]@));
        assert(entry_views(entries@).take(i + 1) =~= entry_views(entries@).take(i as int).push(
            entries@[i as int]@,
        ));
        i += 1;
    }
    assert(entry_views(entries@).take(i as int) =~= entry_views(entries@));
    copy
}

// ── Raft RPCs ──────────────────────────────────────────────────────────────

#[derive(Debug, Clone, Copy, PartialEq, Eq, Structural)]
pub struct RequestVote {
    pub term: Term,
    pub candidate_id: NodeId,
    pub last_log_index: LogIndex,
    pub last_log_term: Term,
}

#[derive(Debug, Clone, Copy, PartialEq, Eq, Structural)]
pub struct RequestVoteResponse {
    pub term: Term,
    pub vote_granted: bool,
}

#[derive(Debug, PartialEq, Eq)]
pub struct AppendEntries {
    pub term: Term,
    pub leader_id: NodeId,
    pub prev_log_index: LogIndex,
    pub prev_log_term: Term,
    pub entries: Vec<LogEntry>,
    pub leader_commit: LogIndex,
}

pub ghost struct AppendEntriesView {
    pub term: Term,
    pub leader_id: NodeId,
    pub prev_log_index: LogIndex,
    pub prev_log_term: Term,
    pub entries: Seq<LogEntryView>,
    pub leader_commit: LogIndex,
}

impl View for AppendEntries {
    type V = AppendEntriesView;

    open spec fn view(&self) -> AppendEntriesView {
        AppendEntriesView {
            term: self.term,
            leader_id: self.leader_id,
            prev_log_index: self.prev_log_index,
            prev_log_term: self.prev_log_term,
            entries: entry_views(self.entries@),
            leader_commit: self.leader_commit,
        }
    }
}

impl Clone for AppendEntries {
    fn clone(&self) -> (copy: Self)
        ensures
            copy@ == self@,
    {
        AppendEntries {
            term: self.term,
            leader_id: self.leader_id,
            prev_log_index: self.prev_log_index,
            prev_log_term: self.prev_log_term,
            entries: clone_entries(self.entries.as_slice()),
            leader_commit: self.leader_commit,
        }
    }
}

#[derive(Debug, Clone, Copy, PartialEq, Eq, Structural)]
pub struct AppendEntriesResponse {
    pub term: Term,
    pub success: bool,
    /// On success: the index of the last replicated entry.
    /// On failure: the first index of the conflicting term (for fast rollback).
    pub match_index: LogIndex,
}

// ── Snapshot ───────────────────────────────────────────────────────────────

/// The key-value state machine at a given log position.
#[derive(Debug, PartialEq, Eq)]
pub struct Snapshot {
    pub last_index: LogIndex,
    pub last_term: Term,
    /// The store as one JSON object. It crosses the wire in `InstallSnapshot`, so its encoding
    /// is part of the protocol.
    pub data: Vec<u8>,
}

pub ghost struct SnapshotView {
    pub last_index: LogIndex,
    pub last_term: Term,
    pub data: Seq<u8>,
}

impl View for Snapshot {
    type V = SnapshotView;

    open spec fn view(&self) -> SnapshotView {
        SnapshotView { last_index: self.last_index, last_term: self.last_term, data: self.data@ }
    }
}

impl Clone for Snapshot {
    fn clone(&self) -> (copy: Self)
        ensures
            copy@ == self@,
    {
        let data = self.data.clone();
        assert(data@ =~= self.data@);
        Snapshot { last_index: self.last_index, last_term: self.last_term, data }
    }
}

#[derive(Debug, PartialEq, Eq)]
pub struct InstallSnapshot {
    pub term: Term,
    pub leader_id: NodeId,
    pub snapshot: Snapshot,
}

pub ghost struct InstallSnapshotView {
    pub term: Term,
    pub leader_id: NodeId,
    pub snapshot: SnapshotView,
}

impl View for InstallSnapshot {
    type V = InstallSnapshotView;

    open spec fn view(&self) -> InstallSnapshotView {
        InstallSnapshotView {
            term: self.term,
            leader_id: self.leader_id,
            snapshot: self.snapshot@,
        }
    }
}

impl Clone for InstallSnapshot {
    fn clone(&self) -> (copy: Self)
        ensures
            copy@ == self@,
    {
        InstallSnapshot {
            term: self.term,
            leader_id: self.leader_id,
            snapshot: self.snapshot.clone(),
        }
    }
}

#[derive(Debug, Clone, Copy, PartialEq, Eq, Structural)]
pub struct InstallSnapshotResponse {
    pub term: Term,
    pub success: bool,
    /// The snapshot index that the peer now covers. `0` when the peer does not report one.
    pub last_index: LogIndex,
}

// ── Messages ───────────────────────────────────────────────────────────────

/// All inputs to the Raft state machine, and the RPCs it sends.
#[allow(inconsistent_fields)]
#[derive(Debug, PartialEq, Eq)]
pub enum Message {
    /// Periodic clock tick. Drives election and heartbeat timeouts.
    Tick,
    /// A client wants to append a command to the replicated log.
    Propose { command: Vec<u8> },
    /// Propose a membership change (add or remove a voter).
    /// The addresses are embedded in the log entry so that followers learn them.
    ProposeConfChange {
        op: ConfChangeOp,
        node_id: NodeId,
        raft_addr: Option<String>,
        http_addr: Option<String>,
    },
    RequestVote { from: NodeId, msg: RequestVote },
    RequestVoteResponse { from: NodeId, msg: RequestVoteResponse },
    AppendEntries { from: NodeId, msg: AppendEntries },
    AppendEntriesResponse { from: NodeId, msg: AppendEntriesResponse },
    InstallSnapshot { from: NodeId, msg: InstallSnapshot },
    InstallSnapshotResponse { from: NodeId, msg: InstallSnapshotResponse },
}

#[allow(inconsistent_fields)]
pub ghost enum MessageView {
    Tick,
    Propose { command: Seq<u8> },
    ProposeConfChange { cmd: ConfChangeView },
    RequestVote { from: NodeId, msg: RequestVote },
    RequestVoteResponse { from: NodeId, msg: RequestVoteResponse },
    AppendEntries { from: NodeId, msg: AppendEntriesView },
    AppendEntriesResponse { from: NodeId, msg: AppendEntriesResponse },
    InstallSnapshot { from: NodeId, msg: InstallSnapshotView },
    InstallSnapshotResponse { from: NodeId, msg: InstallSnapshotResponse },
}

impl View for Message {
    type V = MessageView;

    open spec fn view(&self) -> MessageView {
        match *self {
            Message::Tick => MessageView::Tick,
            Message::Propose { command } => MessageView::Propose { command: command@ },
            Message::ProposeConfChange {
                op,
                node_id,
                raft_addr,
                http_addr,
            } => MessageView::ProposeConfChange {
                cmd: ConfChangeView {
                    op,
                    node_id,
                    raft_addr: text_view(raft_addr),
                    http_addr: text_view(http_addr),
                },
            },
            Message::RequestVote { from, msg } => MessageView::RequestVote { from, msg },
            Message::RequestVoteResponse { from, msg } => MessageView::RequestVoteResponse {
                from,
                msg,
            },
            Message::AppendEntries { from, msg } => MessageView::AppendEntries { from, msg: msg@ },
            Message::AppendEntriesResponse { from, msg } => MessageView::AppendEntriesResponse {
                from,
                msg,
            },
            Message::InstallSnapshot { from, msg } => MessageView::InstallSnapshot {
                from,
                msg: msg@,
            },
            Message::InstallSnapshotResponse {
                from,
                msg,
            } => MessageView::InstallSnapshotResponse { from, msg },
        }
    }
}

impl Clone for Message {
    fn clone(&self) -> (copy: Self)
        ensures
            copy@ == self@,
    {
        match self {
            Message::Tick => Message::Tick,
            Message::Propose { command } => {
                let copied = command.clone();
                assert(copied@ =~= command@);
                Message::Propose { command: copied }
            },
            Message::ProposeConfChange {
                op,
                node_id,
                raft_addr,
                http_addr,
            } => Message::ProposeConfChange {
                op: *op,
                node_id: *node_id,
                raft_addr: raft_addr.clone(),
                http_addr: http_addr.clone(),
            },
            Message::RequestVote { from, msg } => Message::RequestVote { from: *from, msg: *msg },
            Message::RequestVoteResponse { from, msg } => Message::RequestVoteResponse {
                from: *from,
                msg: *msg,
            },
            Message::AppendEntries { from, msg } => Message::AppendEntries {
                from: *from,
                msg: msg.clone(),
            },
            Message::AppendEntriesResponse { from, msg } => Message::AppendEntriesResponse {
                from: *from,
                msg: *msg,
            },
            Message::InstallSnapshot { from, msg } => Message::InstallSnapshot {
                from: *from,
                msg: msg.clone(),
            },
            Message::InstallSnapshotResponse { from, msg } => Message::InstallSnapshotResponse {
                from: *from,
                msg: *msg,
            },
        }
    }
}

/// The views of a sequence of addressed messages.
pub open spec fn message_views(messages: Seq<(NodeId, Message)>) -> Seq<(NodeId, MessageView)> {
    messages.map_values(|m: (NodeId, Message)| (m.0, m.1@))
}

} // verus!
