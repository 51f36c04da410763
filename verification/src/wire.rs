//! Raft messages as they cross the wire between nodes.
use vstd::prelude::*;

use crate::message::{
    entry_views, AppendEntries, AppendEntriesResponse, AppendEntriesView, EntryType,
    InstallSnapshot, InstallSnapshotResponse, InstallSnapshotView, LogEntry, LogEntryView, LogIndex,
    Message, MessageView, NodeId, RequestVote, RequestVoteResponse, Snapshot, SnapshotView, Term,
};

verus! {

#[derive(Debug)]
pub struct WireEntry {
    pub index: LogIndex,
    pub term: Term,
    pub command: Vec<u8>,
    /// 1 for a membership change, 0 for everything else.
    pub entry_type: u32,
}

/// A request to a peer.
#[derive(Debug)]
pub enum Rpc {
    RequestVote {
        term: Term,
        candidate_id: NodeId,
        last_log_index: LogIndex,
        last_log_term: Term,
    },
    AppendEntries {
        term: Term,
        leader_id: NodeId,
        prev_log_index: LogIndex,
        prev_log_term: Term,
        entries: Vec<WireEntry>,
        leader_commit: LogIndex,
    },
    InstallSnapshot {
        term: Term,
        leader_id: NodeId,
        last_index: LogIndex,
        last_term: Term,
        data: Vec<u8>,
    },
}

/// A peer's answer.
#[derive(Debug, Clone, Copy, PartialEq, Eq, Structural)]
pub enum RpcReply {
    RequestVote { term: Term, vote_granted: bool },
    AppendEntries { term: Term, success: bool, match_index: LogIndex },
    InstallSnapshot { term: Term, success: bool, last_index: LogIndex },
}

pub ghost struct WireEntryView {
    pub index: LogIndex,
    pub term: Term,
    pub command: Seq<u8>,
    pub entry_type: u32,
}

pub ghost enum RpcView {
    RequestVote {
        term: Term,
        candidate_id: NodeId,
        last_log_index: LogIndex,
        last_log_term: Term,
    },
    AppendEntries {
        term: Term,
        leader_id: NodeId,
        prev_log_index: LogIndex,
        prev_log_term: Term,
        entries: Seq<WireEntryView>,
        leader_commit: LogIndex,
    },
    InstallSnapshot {
        term: Term,
        leader_id: NodeId,
        last_index: LogIndex,
        last_term: Term,
        data: Seq<u8>,
    },
}

impl View for WireEntry {
    type V = WireEntryView;

    open spec fn view(&self) -> WireEntryView {
        WireEntryView {
            index: self.index,
            term: self.term,
            command: self.command@,
            entry_type: self.entry_type,
        }
    }
}

pub open spec fn wire_entry_views(entries: Seq<WireEntry>) -> Seq<WireEntryView> {
    entries.map_values(|e: WireEntry| e@)
}

impl View for Rpc {
    type V = RpcView;

    open spec fn view(&self) -> RpcView {
        match *self {
            Rpc::RequestVote { term, candidate_id, last_log_index, last_log_term } => {
                RpcView::RequestVote { term, candidate_id, last_log_index, last_log_term }
            },
            Rpc::AppendEntries {
                term,
                leader_id,
                prev_log_index,
                prev_log_term,
                entries,
                leader_commit,
            } => RpcView::AppendEntries {
                term,
                leader_id,
                prev_log_index,
                prev_log_term,
                entries: wire_entry_views(entries@),
                leader_commit,
            },
            Rpc::InstallSnapshot { term, leader_id, last_index, last_term, data } => {
                RpcView::InstallSnapshot { term, leader_id, last_index, last_term, data: data@ }
            },
        }
    }
}

// ── Entries ────────────────────────────────────────────────────────────────

pub open spec fn entry_to_wire(entry: LogEntryView) -> WireEntryView {
    WireEntryView {
        index: entry.index,
        term: entry.term,
        command: entry.command,
        entry_type: if entry.entry_type == EntryType::ConfChange {
            1
        } else {
            0
        },
    }
}

pub open spec fn entry_from_wire(entry: WireEntryView) -> LogEntryView {
    LogEntryView {
        index: entry.index,
        term: entry.term,
        entry_type: if entry.entry_type == 1 {
            EntryType::ConfChange
        } else {
            EntryType::Normal
        },
        command: entry.command,
    }
}

fn entries_to_wire(entries: Vec<LogEntry>) -> (wire: Vec<WireEntry>)
    ensures
        wire_entry_views(wire@) == entry_views(entries@).map_values(
            |e: LogEntryView| entry_to_wire(e),
        ),
{
    let mut wire: Vec<WireEntry> = Vec::new();
    let mut i: usize = 0;
    while i < entries.len()
        invariant
            i <= entries@.len(),
            wire@.len() == i,
            forall|j: int| 0 <= j < i ==> (#[trigger] wire@[j])@ == entry_to_wire(entries@[j]@),
        decreases entries@.len() - i,
    {
        let command = entries[i].command.clone();
        assert(command@ =~= entries@[i as int].command@);
        let entry_type: u32 = match entries[i].entry_type {
            EntryType::ConfChange => 1,
            EntryType::Normal => 0,
        };
        wire.push(
            WireEntry { index: entries[i].index, term: entries[i].term, command, entry_type },
        );
        i += 1;
    }
    assert(wire_entry_views(wire@) =~= entry_views(entries@).map_values(
        |e: LogEntryView| entry_to_wire(e),
    ));
    wire
}

fn entries_from_wire(wire: Vec<WireEntry>) -> (entries: Vec<LogEntry>)
    ensures
        entry_views(entries@) == wire_entry_views(wire@).map_values(
            |e: WireEntryView| entry_from_wire(e),
        ),
{
    let mut entries: Vec<LogEntry> = Vec::new();
    let mut i: usize = 0;
    while i < wire.len()
        invariant
            i <= wire@.len(),
            entries@.len() == i,
            forall|j: int| 0 <= j < i ==> (#[trigger] entries@[j])@ == entry_from_wire(wire@[j]@),
        decreases wire@.len() - i,
    {
        let command = wire[i].command.clone();
        assert(command@ =~= wire@[i as int].command@);
        let entry_type = if wire[i].entry_type == 1 {
            EntryType::ConfChange
        } else {
            EntryType::Normal
        };
        entries.push(LogEntry { index: wire[i].index, term: wire[i].term, entry_type, command });
        i += 1;
    }
    assert(entry_views(entries@) =~= wire_entry_views(wire@).map_values(
        |e: WireEntryView| entry_from_wire(e),
    ));
    entries
}

// ── Requests ───────────────────────────────────────────────────────────────

/// The request for a message; messages that are no requests are not sent.
pub open spec fn to_wire(message: MessageView) -> Option<RpcView> {
    match message {
        MessageView::RequestVote { msg, .. } => Some(
            RpcView::RequestVote {
                term: msg.term,
                candidate_id: msg.candidate_id,
                last_log_index: msg.last_log_index,
                last_log_term: msg.last_log_term,
            },
        ),
        MessageView::AppendEntries { msg, .. } => Some(
            RpcView::AppendEntries {
                term: msg.term,
                leader_id: msg.leader_id,
                prev_log_index: msg.prev_log_index,
                prev_log_term: msg.prev_log_term,
                entries: msg.entries.map_values(|e: LogEntryView| entry_to_wire(e)),
                leader_commit: msg.leader_commit,
            },
        ),
        MessageView::InstallSnapshot { msg, .. } => Some(
            RpcView::InstallSnapshot {
                term: msg.term,
                leader_id: msg.leader_id,
                last_index: msg.snapshot.last_index,
                last_term: msg.snapshot.last_term,
                data: msg.snapshot.data,
            },
        ),
        _ => None,
    }
}

/// The message that a request stands for. Its sender is the candidate or leader that it names.
pub open spec fn from_wire(rpc: RpcView) -> MessageView {
    match rpc {
        RpcView::RequestVote { term, candidate_id, last_log_index, last_log_term } => {
            MessageView::RequestVote {
                from: candidate_id,
                msg: RequestVote { term, candidate_id, last_log_index, last_log_term },
            }
        },
        RpcView::AppendEntries {
            term,
            leader_id,
            prev_log_index,
            prev_log_term,
            entries,
            leader_commit,
        } => MessageView::AppendEntries {
            from: leader_id,
            msg: AppendEntriesView {
                term,
                leader_id,
                prev_log_index,
                prev_log_term,
                entries: entries.map_values(|e: WireEntryView| entry_from_wire(e)),
                leader_commit,
            },
        },
        RpcView::InstallSnapshot { term, leader_id, last_index, last_term, data } => {
            MessageView::InstallSnapshot {
                from: leader_id,
                msg: InstallSnapshotView {
                    term,
                    leader_id,
                    snapshot: SnapshotView { last_index, last_term, data },
                },
            }
        },
    }
}

impl Rpc {
    pub fn from_message(message: Message) -> (rpc: Option<Rpc>)
        ensures
            rpc is Some <==> to_wire(message@) is Some,
            rpc matches Some(r) ==> to_wire(message@) == Some(r@),
    {
        match message {
            Message::RequestVote { msg, .. } => Some(
                Rpc::RequestVote {
                    term: msg.term,
                    candidate_id: msg.candidate_id,
                    last_log_index: msg.last_log_index,
                    last_log_term: msg.last_log_term,
                },
            ),
            Message::AppendEntries { msg, .. } => Some(
                Rpc::AppendEntries {
                    term: msg.term,
                    leader_id: msg.leader_id,
                    prev_log_index: msg.prev_log_index,
                    prev_log_term: msg.prev_log_term,
                    entries: entries_to_wire(msg.entries),
                    leader_commit: msg.leader_commit,
                },
            ),
            Message::InstallSnapshot { msg, .. } => Some(
                Rpc::InstallSnapshot {
                    term: msg.term,
                    leader_id: msg.leader_id,
                    last_index: msg.snapshot.last_index,
                    last_term: msg.snapshot.last_term,
                    data: msg.snapshot.data,
                },
            ),
            _ => None,
        }
    }

    pub fn into_message(self) -> (message: Message)
        ensures
            message@ == from_wire(self@),
    {
        match self {
            Rpc::RequestVote { term, candidate_id, last_log_index, last_log_term } => {
                Message::RequestVote {
                    from: candidate_id,
                    msg: RequestVote { term, candidate_id, last_log_index, last_log_term },
                }
            },
            Rpc::AppendEntries {
                term,
                leader_id,
                prev_log_index,
                prev_log_term,
                entries,
                leader_commit,
            } => Message::AppendEntries {
                from: leader_id,
                msg: AppendEntries {
                    term,
                    leader_id,
                    prev_log_index,
                    prev_log_term,
                    entries: entries_from_wire(entries),
                    leader_commit,
                },
            },
            Rpc::InstallSnapshot { term, leader_id, last_index, last_term, data } => {
                Message::InstallSnapshot {
                    from: leader_id,
                    msg: InstallSnapshot {
                        term,
                        leader_id,
                        snapshot: Snapshot { last_index, last_term, data },
                    },
                }
            },
        }
    }
}

// ── Replies ────────────────────────────────────────────────────────────────

/// The message that the answer of a peer stands for.
pub open spec fn reply_message(peer: NodeId, reply: RpcReply) -> MessageView {
    match reply {
        RpcReply::RequestVote { term, vote_granted } => MessageView::RequestVoteResponse {
            from: peer,
            msg: RequestVoteResponse { term, vote_granted },
        },
        RpcReply::AppendEntries { term, success, match_index } => {
            MessageView::AppendEntriesResponse {
                from: peer,
                msg: AppendEntriesResponse { term, success, match_index },
            }
        },
        RpcReply::InstallSnapshot { term, success, last_index } => {
            MessageView::InstallSnapshotResponse {
                from: peer,
                msg: InstallSnapshotResponse { term, success, last_index },
            }
        },
    }
}

impl RpcReply {
    /// The answer that a response message stands for.
    pub fn from_message(message: &Message) -> (reply: Option<RpcReply>)
        ensures
            match reply {
                Some(r) => exists|from: NodeId| message@ == #[trigger] reply_message(from, r),
                None => forall|from: NodeId, r: RpcReply|
                    message@ != #[trigger] reply_message(from, r),
            },
    {
        match message {
            Message::RequestVoteResponse { from, msg } => {
                let reply = RpcReply::RequestVote {
                    term: msg.term,
                    vote_granted: msg.vote_granted,
                };
                assert(message@ == reply_message(*from, reply));
                Some(reply)
            },
            Message::AppendEntriesResponse { from, msg } => {
                let reply = RpcReply::AppendEntries {
                    term: msg.term,
                    success: msg.success,
                    match_index: msg.match_index,
                };
                assert(message@ == reply_message(*from, reply));
                Some(reply)
            },
            Message::InstallSnapshotResponse { from, msg } => {
                let reply = RpcReply::InstallSnapshot {
                    term: msg.term,
                    success: msg.success,
                    last_index: msg.last_index,
                };
                assert(message@ == reply_message(*from, reply));
                Some(reply)
            },
            _ => None,
        }
    }

    /// The response message of a peer.
    pub fn into_message(self, peer: NodeId) -> (message: Message)
        ensures
            message@ == reply_message(peer, self),
    {
        match self {
            RpcReply::RequestVote { term, vote_granted } => Message::RequestVoteResponse {
                from: peer,
                msg: RequestVoteResponse { term, vote_granted },
            },
            RpcReply::AppendEntries { term, success, match_index } => {
                Message::AppendEntriesResponse {
                    from: peer,
                    msg: AppendEntriesResponse { term, success, match_index },
                }
            },
            RpcReply::InstallSnapshot { term, success, last_index } => {
                Message::InstallSnapshotResponse {
                    from: peer,
                    msg: InstallSnapshotResponse { term, success, last_index },
                }
            },
        }
    }
}

// ── Laws ───────────────────────────────────────────────────────────────────

/// The message names its sender as candidate or leader, as every message of a node does.
pub open spec fn names_its_sender(message: MessageView) -> bool {
    match message {
        MessageView::RequestVote { from, msg } => msg.candidate_id == from,
        MessageView::AppendEntries { from, msg } => msg.leader_id == from,
        MessageView::InstallSnapshot { from, msg } => msg.leader_id == from,
        _ => true,
    }
}

/// A request arrives as the message that was sent: no entry loses its type, and the sender is the
/// one that it names.
pub proof fn law_requests_arrive_as_sent(message: MessageView)
    requires
        names_its_sender(message),
        to_wire(message) is Some,
    ensures
        from_wire(to_wire(message)->0) == message,
{
    if let MessageView::AppendEntries { msg, .. } = message {
        let wire = msg.entries.map_values(|e: LogEntryView| entry_to_wire(e));
        assert(wire.map_values(|e: WireEntryView| entry_from_wire(e)) =~= msg.entries);
    }
}

/// Every request can be sent, and only requests are. Its sender, its term and its entries go with
/// it, and no entry changes its type: a membership change is marked by a one, everything else by a
/// zero.
pub proof fn law_requests_and_nothing_else_are_sent(message: MessageView)
    ensures
        to_wire(message) is Some <==> message is RequestVote || message is AppendEntries
            || message is InstallSnapshot,
        message matches MessageView::RequestVote { msg, .. } ==> to_wire(message) == Some(
            RpcView::RequestVote {
                term: msg.term,
                candidate_id: msg.candidate_id,
                last_log_index: msg.last_log_index,
                last_log_term: msg.last_log_term,
            },
        ),
        message matches MessageView::AppendEntries { msg, .. } ==> {
            &&& to_wire(message) matches Some(
                RpcView::AppendEntries {
                    term,
                    leader_id,
                    prev_log_index,
                    prev_log_term,
                    entries,
                    leader_commit,
                },
            )
            &&& term == msg.term
            &&& leader_id == msg.leader_id
            &&& prev_log_index == msg.prev_log_index
            &&& prev_log_term == msg.prev_log_term
            &&& leader_commit == msg.leader_commit
            &&& entries.len() == msg.entries.len()
            &&& forall|i: int|
                #![trigger entries[i]]
                0 <= i < entries.len() ==> {
                    &&& entries[i].index == msg.entries[i].index
                    &&& entries[i].term == msg.entries[i].term
                    &&& entries[i].command == msg.entries[i].command
                    &&& msg.entries[i].entry_type == EntryType::ConfChange ==> entries[i].entry_type
                        == 1
                    &&& msg.entries[i].entry_type == EntryType::Normal ==> entries[i].entry_type
                        == 0
                }
        },
        message matches MessageView::InstallSnapshot { msg, .. } ==> to_wire(message) == Some(
            RpcView::InstallSnapshot {
                term: msg.term,
                leader_id: msg.leader_id,
                last_index: msg.snapshot.last_index,
                last_term: msg.snapshot.last_term,
                data: msg.snapshot.data,
            },
        ),
{
}

/// An answer arrives as it was given, of the same kind and from the peer that was asked.
pub proof fn law_answers_arrive_as_given(message: MessageView, peer: NodeId, reply: RpcReply)
    requires
        message == reply_message(peer, reply),
    ensures
        message is RequestVoteResponse || message is AppendEntriesResponse
            || message is InstallSnapshotResponse,
        message matches MessageView::RequestVoteResponse { from, msg } ==> from == peer && reply
            == (RpcReply::RequestVote { term: msg.term, vote_granted: msg.vote_granted }),
        message matches MessageView::AppendEntriesResponse { from, msg } ==> from == peer && reply
            == (RpcReply::AppendEntries {
            term: msg.term,
            success: msg.success,
            match_index: msg.match_index,
        }),
        message matches MessageView::InstallSnapshotResponse { from, msg } ==> from == peer
            && reply == (RpcReply::InstallSnapshot {
            term: msg.term,
            success: msg.success,
            last_index: msg.last_index,
        }),
{
}

/// Every answer of a node has a form in which it is sent.
pub proof fn law_every_answer_is_sent(message: MessageView) -> (sent: (NodeId, RpcReply))
    requires
        message is RequestVoteResponse || message is AppendEntriesResponse
            || message is InstallSnapshotResponse,
    ensures
        message == reply_message(sent.0, sent.1),
{
    match message {
        MessageView::RequestVoteResponse { from, msg } => (
            from,
            RpcReply::RequestVote { term: msg.term, vote_granted: msg.vote_granted },
        ),
        MessageView::AppendEntriesResponse { from, msg } => (
            from,
            RpcReply::AppendEntries {
                term: msg.term,
                success: msg.success,
                match_index: msg.match_index,
            },
        ),
        MessageView::InstallSnapshotResponse { from, msg } => (
            from,
            RpcReply::InstallSnapshot {
                term: msg.term,
                success: msg.success,
                last_index: msg.last_index,
            },
        ),
        _ => (0, RpcReply::RequestVote { term: 0, vote_granted: false }),
    }
}

/// What arrives is what was sent: an entry is a membership change exactly if it is marked by a one,
/// its other fields stay, and the sender is the candidate or leader that is named.
pub proof fn law_received_requests(rpc: RpcView, entry: WireEntryView)
    ensures
        entry_from_wire(entry).entry_type == EntryType::ConfChange <==> entry.entry_type == 1,
        entry_from_wire(entry).index == entry.index,
        entry_from_wire(entry).term == entry.term,
        entry_from_wire(entry).command == entry.command,
        rpc matches RpcView::RequestVote { term, candidate_id, last_log_index, last_log_term }
            ==> from_wire(rpc) == (MessageView::RequestVote {
            from: candidate_id,
            msg: RequestVote { term, candidate_id, last_log_index, last_log_term },
        }),
        rpc matches RpcView::AppendEntries {
            term,
            leader_id,
            prev_log_index,
            prev_log_term,
            entries,
            leader_commit,
        } ==> {
            &&& from_wire(rpc) matches MessageView::AppendEntries { from, msg }
            &&& from == leader_id
            &&& msg.term == term
            &&& msg.leader_id == leader_id
            &&& msg.prev_log_index == prev_log_index
            &&& msg.prev_log_term == prev_log_term
            &&& msg.leader_commit == leader_commit
            &&& msg.entries.len() == entries.len()
            &&& forall|i: int|
                #![trigger msg.entries[i]]
                0 <= i < entries.len() ==> msg.entries[i] == entry_from_wire(entries[i])
        },
        rpc matches RpcView::InstallSnapshot { term, leader_id, last_index, last_term, data }
            ==> from_wire(rpc) == (MessageView::InstallSnapshot {
            from: leader_id,
            msg: InstallSnapshotView {
                term,
                leader_id,
                snapshot: SnapshotView { last_index, last_term, data },
            },
        }),
{
}

} // verus!
