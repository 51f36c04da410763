//! What the operations around a node bring about: replies, records, addresses and compactions,
//! stated by the fields and messages themselves.
use vstd::prelude::*;

use crate::conf_change::conf_change_json;
use crate::config::Config;
use crate::events::{event_of, events_followed, events_of, law_membership_change_is_no_command};
use crate::handle::{
    compaction_due, entries_applied, entry_applied, first_response, is_response, max_index,
    records_of, resolved, routes, still_pending, superseded, HandleView, NodeHandleConfig,
};
use crate::json::json_parsed;
use crate::kv::{command_json, lemma_command_json, store_decoded, CommandView, TextMap};
use crate::message::{
    ConfChangeOp, ConfChangeView, EntryType, LogEntryView, LogIndex, MessageView, NodeId,
    SnapshotView, Term,
};
use crate::node::laws::lemma_commit_frame;
use crate::node::progress::{
    changed_by, law_restart_goes_on_from_durable_state, law_snapshot_replaces_the_log, votes_after,
};
use crate::node::{enumerates, NodeView, Ready, ReadyView};
use crate::replay::ReplayView;
use crate::wal::RecordView;

verus! {

// ── Replies ────────────────────────────────────────────────────────────────

/// The reply to an RPC is the first vote, acknowledgement or rejection among the messages, and
/// there is none only if no message is one.
pub proof fn law_first_reply_is_found(messages: Seq<(NodeId, MessageView)>)
    ensures
        match first_response(messages) {
            Some(reply) => {
                &&& reply is RequestVoteResponse || reply is AppendEntriesResponse
                    || reply is InstallSnapshotResponse
                &&& exists|i: int|
                    0 <= i < messages.len() && (#[trigger] messages[i]).1 == reply && forall|j: int|
                        0 <= j < i ==> !((#[trigger] messages[j]).1 is RequestVoteResponse
                            || messages[j].1 is AppendEntriesResponse
                            || messages[j].1 is InstallSnapshotResponse)
            },
            None => forall|i: int|
                0 <= i < messages.len() ==> !((#[trigger] messages[i]).1 is RequestVoteResponse
                    || messages[i].1 is AppendEntriesResponse
                    || messages[i].1 is InstallSnapshotResponse),
        },
    decreases messages.len(),
{
    if messages.len() > 0 {
        let first = messages[0];
        if !is_response(first.1) {
            let rest = messages.skip(1);
            law_first_reply_is_found(rest);
            assert forall|j: int| 0 <= j < rest.len() implies #[trigger] rest[j] == messages[j
                + 1] by {}
            assert forall|i: int| 1 <= i < messages.len() implies #[trigger] messages[i] == rest[i
                - 1] by {}
            match first_response(rest) {
                Some(reply) => {
                    let i = choose|i: int|
                        0 <= i < rest.len() && (#[trigger] rest[i]).1 == reply && forall|j: int|
                            0 <= j < i ==> !((#[trigger] rest[j]).1 is RequestVoteResponse
                                || rest[j].1 is AppendEntriesResponse
                                || rest[j].1 is InstallSnapshotResponse);
                    assert(messages[i + 1].1 == reply);
                    assert forall|j: int| 0 <= j < i + 1 implies !((
                    #[trigger] messages[j]).1 is RequestVoteResponse
                        || messages[j].1 is AppendEntriesResponse
                        || messages[j].1 is InstallSnapshotResponse) by {
                        if j > 0 {
                            assert(messages[j] == rest[j - 1]);
                        }
                    }
                },
                None => {},
            }
        } else {
            assert(messages[0].1 == first.1);
        }
    }
}

/// Every RPC gets a reply of its own kind, from this node to the one that sent it: a request for a
/// vote gets a vote or a refusal, entries and snapshots get an acknowledgement or a rejection. With
/// nothing pending the reply is the only message.
pub proof fn law_every_rpc_is_answered(
    s: NodeView,
    message: MessageView,
    timeout: u32,
    order: Seq<NodeId>,
)
    requires
        s.ready.messages.len() == 0,
    ensures
        ({
            let messages = s.handle(message, timeout, order).ready.messages;
            let reply = first_response(messages);
            &&& message matches MessageView::RequestVote { from, .. } ==> (reply matches Some(
                answer,
            ) && answer matches MessageView::RequestVoteResponse { from: by, .. } && by == s.id
                && messages == seq![(from, answer)])
            &&& message matches MessageView::AppendEntries { from, .. } ==> (reply matches Some(
                answer,
            ) && answer matches MessageView::AppendEntriesResponse { from: by, .. } && by == s.id
                && messages == seq![(from, answer)])
            &&& message matches MessageView::InstallSnapshot { from, .. } ==> (reply matches Some(
                answer,
            ) && answer matches MessageView::InstallSnapshotResponse { from: by, .. } && by == s.id
                && messages == seq![(from, answer)])
        }),
{
    let messages = s.handle(message, timeout, order).ready.messages;
    match message {
        MessageView::AppendEntries { from, msg } => {
            let merged = s.become_follower(msg.term, Some(from), timeout).merge(
                msg.prev_log_index,
                msg.entries,
            );
            lemma_commit_frame(merged, merged.commit_target(msg), timeout);
            assert(messages =~= seq![(from, messages[0].1)]);
        },
        MessageView::RequestVote { from, .. } => {
            assert(messages =~= seq![(from, messages[0].1)]);
        },
        MessageView::InstallSnapshot { from, .. } => {
            assert(messages =~= seq![(from, messages[0].1)]);
        },
        _ => {},
    }
}

/// Whatever a node does of its own accord, or on hearing an answer, is no reply to anybody.
pub proof fn law_only_rpcs_are_answered(
    s: NodeView,
    message: MessageView,
    timeout: u32,
    order: Seq<NodeId>,
)
    requires
        s.ready.messages.len() == 0,
        !(message is RequestVote || message is AppendEntries || message is InstallSnapshot),
    ensures
        first_response(s.handle(message, timeout, order).ready.messages) is None,
{
    let h = s.handle(message, timeout, order);
    let messages = h.ready.messages;
    match message {
        MessageView::AppendEntriesResponse { from, msg } => {
            let credited = s.credit(from, msg.match_index);
            lemma_commit_frame(credited, credited.quorum_index(), timeout);
        },
        MessageView::InstallSnapshotResponse { from, msg } => {
            let credited = s.credit(from, s.installed_index(msg));
            lemma_commit_frame(credited, credited.quorum_index(), timeout);
        },
        _ => {},
    }
    assert forall|i: int| 0 <= i < messages.len() implies !is_response(
        (#[trigger] messages[i]).1,
    ) by {}
    law_first_reply_is_found(messages);
}

/// A step changes nothing but the node, and what it hands over is what the node has put together.
pub proof fn law_step_leaves_the_rest(
    h: HandleView,
    message: MessageView,
    after: HandleView,
    ready: ReadyView,
)
    requires
        h.stepped(message, after, ready),
    ensures
        after.store == h.store,
        after.peers == h.peers,
        after.http_peers == h.http_peers,
        after.pending == h.pending,
        after.applied == h.applied,
        after.last_snapshot == h.last_snapshot,
        after.dir == h.dir,
        after.threshold == h.threshold,
        after.floor == h.floor,
        after.node.ready.messages.len() == 0,
        after.node.ready.to_apply.len() == 0,
        after.node.ready.to_persist.len() == 0,
        exists|timeout: u32, order: Seq<NodeId>|
            {
                &&& h.node.election_base <= timeout < 2 * h.node.election_base
                &&& enumerates(order, h.node.contacts(message))
                &&& ready == (#[trigger] h.node.handle(message, timeout, order)).ready
                &&& after.node == (NodeView {
                    ready: after.node.ready,
                    ..h.node.handle(message, timeout, order)
                })
            },
{
    let (timeout, order) = choose|timeout: u32, order: Seq<NodeId>|
        h.node.may_draw(timeout) && enumerates(order, h.node.contacts(message))
            && #[trigger] h.node.stepped(message, timeout, order, after.node, ready);
    assert(ready == h.node.handle(message, timeout, order).ready);
}

/// A proposal waits for the entry that it writes: at the end of the log, in the current term. The
/// others go on to wait.
pub proof fn law_proposal_waits_for_its_entry(h: HandleView, index: LogIndex, other: LogIndex)
    ensures
        h.waiting_for(index).pending == h.pending.insert(index, h.node.term),
        h.waiting_for(index).waits_for(index, h.node.term),
        other != index ==> forall|term: Term| #[trigger]
            h.waiting_for(index).waits_for(other, term) <==> h.pending.contains_key(other)
                && h.pending[other] == term,
        h.waiting_for(index).node == h.node,
        h.waiting_for(index).store == h.store,
        h.waiting_for(index).applied == h.applied,
        h.waiting_for(index).peers == h.peers,
        h.waiting_for(index).http_peers == h.http_peers,
        h.waiting_for(index).floor == h.floor,
        h.waiting_for(index).threshold == h.threshold,
        h.waiting_for(index).last_snapshot == h.last_snapshot,
{
}

/// The HTTP address of a node is the one registered for it.
pub proof fn law_registered_address_is_found(h: HandleView, id: NodeId)
    ensures
        h.http_peers.contains_key(id) ==> h.http_addr_of(Some(id)) == Some(h.http_peers[id]),
        !h.http_peers.contains_key(id) ==> h.http_addr_of(Some(id)) is None,
        h.http_addr_of(None) is None,
{
}

// ── Persisting and applying ────────────────────────────────────────────────

/// The hard state is persisted first, if there is any, and behind it every entry, in order.
pub proof fn law_everything_is_persisted_in_order(ready: ReadyView)
    ensures
        ({
            let records = records_of(ready);
            let n = ready.to_persist.len() as int;
            match ready.hard_state {
                Some(state) => {
                    &&& records.len() == n + 1
                    &&& records[0] == (RecordView::HardState {
                        term: state.term,
                        voted_for: state.voted_for,
                        commit: state.commit,
                    })
                    &&& forall|i: int|
                        0 <= i < n ==> records[i + 1] == RecordView::Entry(
                            #[trigger] ready.to_persist[i],
                        )
                },
                None => {
                    &&& records.len() == n
                    &&& forall|i: int|
                        0 <= i < n ==> records[i] == RecordView::Entry(
                            #[trigger] ready.to_persist[i],
                        )
                },
            }
        }),
{
}

/// A compaction is due once the log has grown by the threshold past the last snapshot, or always
/// if the threshold is zero.
pub proof fn law_compaction_is_due_at_the_threshold(
    max_index: LogIndex,
    floor: LogIndex,
    threshold: u64,
)
    ensures
        compaction_due(max_index, floor, threshold) <==> threshold == 0 || max_index >= floor
            + threshold,
{
}

/// The highest index is one that an entry carries, and no entry carries a higher one.
pub proof fn law_highest_index(entries: Seq<LogEntryView>)
    ensures
        forall|i: int| 0 <= i < entries.len() ==> (#[trigger] entries[i]).index <= max_index(entries),
        entries.len() > 0 ==> exists|i: int|
            0 <= i < entries.len() && (#[trigger] entries[i]).index == max_index(entries),
        entries.len() == 0 ==> max_index(entries) == 0,
    decreases entries.len(),
{
    if entries.len() > 0 {
        let rest = entries.drop_last();
        law_highest_index(rest);
        assert(entries[entries.len() - 1] == entries.last());
        assert forall|i: int| 0 <= i < rest.len() implies #[trigger] rest[i] == entries[i] by {}
        assert forall|i: int| 0 <= i < entries.len() implies (#[trigger] entries[i]).index
            <= max_index(entries) by {
            if i < rest.len() {
                assert(rest[i] == entries[i]);
            }
        }
        if entries.last().index <= max_index(rest) && rest.len() > 0 {
            let i = choose|i: int|
                0 <= i < rest.len() && (#[trigger] rest[i]).index == max_index(rest);
            assert(entries[i].index == max_index(entries));
        }
    }
}

/// Taking in the output of a step brings the applied index to the highest entry that was applied,
/// and leaves the node, the snapshots and the compaction trigger alone. The addresses of a node
/// that is added are learned, those of a node that is removed are forgotten, and all others stay.
pub proof fn law_output_is_taken_in(h: HandleView, ready: Ready)
    ensures
        ({
            let after = h.persisted(ready);
            &&& after.node == h.node
            &&& after.last_snapshot == h.last_snapshot
            &&& after.dir == h.dir
            &&& after.threshold == h.threshold
            &&& after.floor == h.floor
            &&& ready@.to_apply.len() == 0 ==> after.applied == h.applied && after.store == h.store
                && after.pending == h.pending
            &&& ready@.to_apply.len() > 0 ==> after.applied == max_index(ready@.to_apply)
            &&& after.store == entries_applied(h.store, ready@.to_apply)
            &&& ready.membership_change is None ==> after.peers == h.peers && after.http_peers
                == h.http_peers
            &&& ready.membership_change matches Some(cmd) ==> {
                &&& cmd.op == ConfChangeOp::Remove ==> after.peers == h.peers.remove(cmd.node_id)
                    && after.http_peers == h.http_peers.remove(cmd.node_id)
                &&& cmd.op == ConfChangeOp::Add ==> {
                    &&& cmd.raft_addr is None ==> after.peers == h.peers
                    &&& cmd.raft_addr matches Some(addr) ==> after.peers == h.peers.insert(
                        cmd.node_id,
                        addr,
                    )
                    &&& cmd.http_addr is None ==> after.http_peers == h.http_peers
                    &&& cmd.http_addr matches Some(addr) ==> after.http_peers
                        == h.http_peers.insert(cmd.node_id, addr)
                }
            }
        }),
{
}

/// An entry that holds a command carries it out: a written key has its value, a deleted key is
/// gone, and every other key is as it was. An entry that is empty or no JSON changes nothing, and
/// neither does a membership change.
pub proof fn law_entry_carries_out_its_command(
    store: TextMap,
    entry: LogEntryView,
    command: CommandView,
    cmd: ConfChangeView,
)
    ensures
        entry.command.len() > 0 && json_parsed(entry.command) == Some(command_json(command)) ==> {
            &&& command matches CommandView::Put { key, value } ==> entry_applied(store, entry)
                == store.insert(key, value)
            &&& command matches CommandView::Delete { key } ==> entry_applied(store, entry)
                == store.remove(key)
        },
        entry.command.len() == 0 || json_parsed(entry.command) is None ==> entry_applied(
            store,
            entry,
        ) == store,
        json_parsed(entry.command) == Some(conf_change_json(cmd)) ==> entry_applied(store, entry)
            == store,
{
    lemma_command_json(command);
    if json_parsed(entry.command) == Some(conf_change_json(cmd)) {
        law_membership_change_is_no_command(entry.command, cmd);
    }
}

/// The entries of a run are carried out one after the other, each once, in the order of the run.
pub proof fn law_entries_are_carried_out_in_order(
    store: TextMap,
    entries: Seq<LogEntryView>,
    states: Seq<TextMap>,
)
    requires
        states.len() == entries.len() + 1,
        states[0] == store,
        forall|i: int|
            0 <= i < entries.len() ==> states[i + 1] == entry_applied(
                states[i],
                #[trigger] entries[i],
            ),
    ensures
        entries_applied(store, entries) == states[entries.len() as int],
    decreases entries.len(),
{
    if entries.len() > 0 {
        let rest = entries.drop_last();
        assert forall|i: int| 0 <= i < rest.len() implies states.drop_last()[i + 1]
            == entry_applied(states.drop_last()[i], #[trigger] rest[i]) by {
            assert(rest[i] == entries[i]);
        }
        law_entries_are_carried_out_in_order(store, rest, states.drop_last());
        assert(entries[entries.len() - 1] == entries.last());
    }
}

/// A subscriber that follows the events of a run of entries ends up with the store that the node
/// has after the run.
pub proof fn law_following_the_events_gives_the_store(
    store: TextMap,
    entries: Seq<LogEntryView>,
)
    requires
        forall|i: int|
            0 <= i < entries.len() && (#[trigger] entries[i]).entry_type == EntryType::ConfChange
                ==> exists|cmd: ConfChangeView|
                json_parsed(entries[i].command) == Some(#[trigger] conf_change_json(cmd)),
    ensures
        events_followed(store, events_of(entries)) == entries_applied(store, entries),
    decreases entries.len(),
{
    if entries.len() > 0 {
        let rest = entries.drop_last();
        let last = entries[entries.len() - 1];
        assert forall|i: int|
            0 <= i < rest.len() && (#[trigger] rest[i]).entry_type
                == EntryType::ConfChange implies exists|cmd: ConfChangeView|
            json_parsed(rest[i].command) == Some(#[trigger] conf_change_json(cmd)) by {
            assert(rest[i] == entries[i]);
        }
        law_following_the_events_gives_the_store(store, rest);
        if last.entry_type == EntryType::ConfChange {
            let cmd = choose|cmd: ConfChangeView|
                json_parsed(last.command) == Some(#[trigger] conf_change_json(cmd));
            law_membership_change_is_no_command(last.command, cmd);
        }
        let earlier = events_of(rest);
        match event_of(last) {
            Some(event) => {
                assert(events_of(entries) =~= earlier.push(event));
                assert(earlier.push(event).drop_last() =~= earlier);
            },
            None => {
                assert(events_of(entries) =~= earlier);
            },
        }
    }
}

/// Waiting proposals are answered in the order in which the entries are applied, and how those are
/// cut into runs does not show in the answers.
pub proof fn law_answers_follow_the_entries(
    pending: Map<LogIndex, Term>,
    first: Seq<LogEntryView>,
    second: Seq<LogEntryView>,
)
    ensures
        resolved(pending, first + second) == resolved(pending, first) + resolved(
            still_pending(pending, first),
            second,
        ),
        superseded(pending, first + second) == superseded(pending, first) + superseded(
            still_pending(pending, first),
            second,
        ),
        still_pending(pending, first + second) == still_pending(
            still_pending(pending, first),
            second,
        ),
    decreases second.len(),
{
    let all = first + second;
    if second.len() == 0 {
        assert(all =~= first);
        assert(resolved(pending, first) + Seq::<LogIndex>::empty() =~= resolved(pending, first));
        assert(superseded(pending, first) + Seq::<LogIndex>::empty() =~= superseded(
            pending,
            first,
        ));
    } else {
        law_answers_follow_the_entries(pending, first, second.drop_last());
        assert(all.drop_last() =~= first + second.drop_last());
        assert(all.last() == second.last());
        let waiting = still_pending(pending, first);
        assert(resolved(pending, all) =~= resolved(pending, first) + resolved(waiting, second));
        assert(superseded(pending, all) =~= superseded(pending, first) + superseded(
            waiting,
            second,
        ));
    }
}

/// Messages go to the peers whose address is known, with that address and in the order in which
/// they were sent; only messages to unknown peers are dropped. `at` says which message stands
/// where.
pub proof fn law_known_peers_are_routed_to(
    peers: Map<NodeId, String>,
    messages: Seq<(NodeId, MessageView)>,
) -> (at: Seq<int>)
    ensures
        at.len() == routes(peers, messages).len(),
        forall|i: int, j: int| 0 <= i < j < at.len() ==> #[trigger] at[i] < #[trigger] at[j],
        forall|j: int|
            #![trigger at[j]]
            0 <= j < at.len() ==> 0 <= at[j] < messages.len() && peers.contains_key(
                messages[at[j]].0,
            ) && routes(peers, messages)[j] == (
                messages[at[j]].0,
                peers[messages[at[j]].0],
                messages[at[j]].1,
            ),
        forall|i: int|
            0 <= i < messages.len() && peers.contains_key((#[trigger] messages[i]).0)
                ==> at.contains(i),
    decreases messages.len(),
{
    if messages.len() == 0 {
        Seq::empty()
    } else {
        let rest = messages.drop_last();
        let n = messages.len() - 1;
        let earlier = law_known_peers_are_routed_to(peers, rest);
        let (to, message) = messages.last();
        assert(messages[n] == messages.last());
        let at = if peers.contains_key(to) {
            earlier.push(n)
        } else {
            earlier
        };
        assert forall|j: int|
            #![trigger at[j]]
            0 <= j < at.len() implies 0 <= at[j] < messages.len() && peers.contains_key(
            messages[at[j]].0,
        ) && routes(peers, messages)[j] == (
            messages[at[j]].0,
            peers[messages[at[j]].0],
            messages[at[j]].1,
        ) by {
            if j < earlier.len() {
                assert(at[j] == earlier[j]);
                assert(rest[earlier[j]] == messages[earlier[j]]);
            }
        }
        assert forall|i: int, j: int| 0 <= i < j < at.len() implies #[trigger] at[i]
            < #[trigger] at[j] by {
            assert(at[i] == earlier[i]);
            if j < earlier.len() {
                assert(at[j] == earlier[j]);
            }
        }
        assert forall|i: int|
            0 <= i < messages.len() && peers.contains_key(
                (#[trigger] messages[i]).0,
            ) implies at.contains(i) by {
            if i < n {
                assert(rest[i] == messages[i]);
                let k = choose|k: int| 0 <= k < earlier.len() && earlier[k] == i;
                assert(at[k] == i);
            } else {
                assert(at[at.len() - 1] == i);
            }
        }
        at
    }
}

// ── Snapshots ──────────────────────────────────────────────────────────────

/// A compaction goes as far as it is asked to, but not further than the store has got, and not at
/// all if there is nothing to cover, if the log no longer reaches back that far, or if the node
/// has not applied as much.
pub proof fn law_compaction_reaches_what_is_applied(
    h: HandleView,
    index: LogIndex,
    target: LogIndex,
)
    ensures
        h.compaction_target(index) == Some(target) <==> {
            &&& target <= index
            &&& target <= h.applied
            &&& target == index || target == h.applied
            &&& 0 < target
            &&& h.node.log.base <= target <= h.node.applied
        },
{
}

/// The snapshot on hand serves a peer as long as it reaches to where the log starts; otherwise one
/// is taken of everything that is applied.
pub proof fn law_snapshot_for_a_peer_covers_the_base(h: HandleView)
    ensures
        h.snapshot_covers_base() <==> h.last_snapshot is Some && h.last_snapshot->0.last_index
            >= h.node.log.base,
        h.peer_target() >= h.node.log.base,
        h.peer_target() >= h.node.applied,
        h.peer_target() == h.node.log.base || h.peer_target() == h.node.applied,
{
}

/// A snapshot from the leader replaces the store and the log: everything up to it is applied, and
/// the next compaction is measured from it.
pub proof fn law_installed_snapshot_replaces_everything(
    h: HandleView,
    snapshot: SnapshotView,
    timeout: u32,
    store: TextMap,
)
    requires
        store_decoded(snapshot.data) == Some(store),
        h.node.ready.to_apply.len() == 0,
    ensures
        ({
            let after = h.snapshot_installed(snapshot, timeout);
            &&& after.store == store
            &&& after.applied == snapshot.last_index
            &&& after.floor == snapshot.last_index
            &&& after.last_snapshot == Some(snapshot)
            &&& after.peers == h.peers
            &&& after.http_peers == h.http_peers
            &&& after.pending == h.pending
            &&& after.dir == h.dir
            &&& after.threshold == h.threshold
            &&& after.node.log.base == snapshot.last_index
            &&& after.node.log.base_term == snapshot.last_term
            &&& after.node.log.entries.len() == 0
            &&& after.node.commit == snapshot.last_index
            &&& after.node.applied == snapshot.last_index
            &&& after.node.term == h.node.term
            &&& after.node.voted_for == h.node.voted_for
            &&& after.node.members == h.node.members
        }),
{
    law_snapshot_replaces_the_log(h.node, snapshot, timeout);
}

/// A rotated log file holds the hard state and then every entry that the log still has, in order.
pub proof fn law_rotated_log_holds_the_rest(h: HandleView)
    ensures
        ({
            let records = h.rotated_records();
            &&& records.len() == h.node.log.entries.len() + 1
            &&& records[0] == (RecordView::HardState {
                term: h.node.term,
                voted_for: h.node.voted_for,
                commit: h.node.commit,
            })
            &&& forall|i: int|
                0 <= i < h.node.log.entries.len() ==> records[i + 1] == RecordView::Entry(
                    #[trigger] h.node.log.entries[i],
                )
        }),
{
}

/// Compacting the log changes nothing but where the log starts and what it still holds.
pub proof fn law_compaction_changes_only_the_log(h: HandleView, index: LogIndex, term: Term)
    ensures
        ({
            let after = h.log_compacted(index, term);
            let end = h.node.log.base + h.node.log.entries.len();
            &&& after == (HandleView { node: after.node, ..h })
            &&& after.node == (NodeView { log: after.node.log, ..h.node })
            &&& after.node.log.base == index
            &&& after.node.log.base_term == term
            &&& h.node.log.base <= index < end ==> after.node.log.entries
                == h.node.log.entries.skip(index - h.node.log.base)
            &&& index >= end ==> after.node.log.entries.len() == 0
        }),
{
}

// ── Startup ────────────────────────────────────────────────────────────────

/// A node that comes up knows no addresses and nobody waits for it. Its store is what the snapshot
/// holds, with the committed entries behind the snapshot applied; where there is no snapshot, or
/// one that does not decode, it is the given store. A threshold of zero stands for the default.
pub proof fn law_node_comes_up_with_its_store(
    raft: Config,
    replay: ReplayView,
    store: TextMap,
    dir: String,
    threshold: u64,
    learner: bool,
    drawn: u32,
    redrawn: u32,
)
    requires
        replay.entries.len() + (match replay.snapshot {
            Some(snapshot) => snapshot.last_index,
            None => 0,
        }) <= u64::MAX,
    ensures
        ({
            let h = HandleView::started(
                raft,
                replay,
                store,
                dir,
                threshold,
                learner,
                drawn,
                redrawn,
            );
            let base = match replay.snapshot {
                Some(snapshot) => snapshot.last_index,
                None => 0,
            };
            let end = base + replay.entries.len();
            let loaded = match replay.snapshot {
                Some(snapshot) => match store_decoded(snapshot.data) {
                    Some(restored) => restored,
                    None => store,
                },
                None => store,
            };
            let staged = replay.entries.take(h.node.commit - base);
            &&& h.peers == Map::<NodeId, String>::empty()
            &&& h.http_peers == Map::<NodeId, String>::empty()
            &&& h.pending == Map::<LogIndex, Term>::empty()
            &&& h.last_snapshot == replay.snapshot
            &&& h.dir == dir
            &&& h.threshold == (if threshold == 0 {
                5000
            } else {
                threshold
            })
            &&& h.floor == base
            &&& h.node.id == raft.id
            &&& h.node.ready.messages.len() == 0
            &&& h.node.ready.to_apply.len() == 0
            &&& h.node.ready.to_persist.len() == 0
            &&& !replay.has_state ==> {
                &&& h.node.term == 0
                &&& h.node.voted_for is None
                &&& h.node.commit == 0
                &&& h.node.is_voter == !learner
                &&& h.store == loaded
                &&& h.applied == base
            }
            &&& replay.has_state ==> {
                &&& h.node.term == replay.term
                &&& h.node.voted_for == replay.voted_for
                &&& h.node.log.base == base
                &&& h.node.log.entries == replay.entries
                &&& replay.commit <= base ==> h.node.commit == base
                &&& base <= replay.commit <= end ==> h.node.commit == replay.commit
                &&& replay.commit >= end ==> h.node.commit == end
                &&& h.node.applied == h.node.commit
                &&& h.store == entries_applied(loaded, staged)
                &&& h.applied == (if staged.len() > 0 {
                    max_index(staged)
                } else {
                    base
                })
                &&& h.node.members == changed_by(raft.peers@.to_set().insert(raft.id), staged)
                &&& h.node.is_voter == votes_after(!learner, raft.id, staged)
            }
        }),
{
    let fresh = NodeView::fresh(raft, !learner, drawn);
    if replay.has_state {
        law_restart_goes_on_from_durable_state(fresh, replay.restore_state(), redrawn);
    }
}

/// Every node can come up whose timeouts can be drawn and whose log leaves room for one more index.
pub proof fn law_configs_to_come_up_with(config: NodeHandleConfig)
    requires
        config.kv.wf(),
    ensures
        config.usable() <==> {
            &&& config.raft.election_timeout > 0
            &&& 2 * config.raft.election_timeout <= u32::MAX
            &&& (match config.replay@.snapshot {
                Some(snapshot) => snapshot.last_index,
                None => 0,
            }) + config.replay@.entries.len() < u64::MAX
        },
{
}

} // verus!
