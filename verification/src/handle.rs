//! The node as its host drives it: the Raft state machine, the store that it feeds, and the
//! bookkeeping around both.
//!
//! Nothing here waits or touches a disk or a network. Each operation says what the host has to
//! do: which records to append to the log, whom to notify, what to send where.
use std::collections::HashMap;

use vstd::prelude::*;

use crate::config::Config;
use crate::events::{event_views, events_of, Event, EventView};
use crate::json::json_map_text;
use crate::kv::{after_bytes, store_decoded, KvStore, TextMap};
use crate::log::LogView;
use crate::message::{
    clone_entries, entry_views, message_views, ConfChangeCmd, ConfChangeOp, ConfChangeView,
    LogEntry, LogEntryView, LogIndex, Message, MessageView, NodeId, Snapshot, SnapshotView, Term,
};
use crate::node::listing::keys_of;
use crate::node::{
    enumerates, snapshot_view, NodeView, RaftNode, Ready, ReadyView, Restore, RestoreView,
};
use crate::replay::{ReplayView, WalReplay};
use crate::snapshot::SnapshotStore;
use crate::wal::{record_views, RecordView, WalRecord};

pub mod disk;
pub mod effects;
pub mod laws;

verus! {

broadcast use vstd::std_specs::hash::group_hash_axioms;

/// How many log indexes the log may grow past the last snapshot before the next compaction. Every
/// compaction serializes the whole state machine, so this is a write-amplification knob as much
/// as a log-length one.
pub const DEFAULT_COMPACTION_THRESHOLD: u64 = 5000;

/// Snapshot files kept on disk. One is enough to restore; the previous one is insurance against
/// the newest being unreadable.
pub const SNAPSHOTS_KEPT: usize = 2;

pub struct NodeHandle {
    pub node: RaftNode,
    pub kv: KvStore,
    /// Raft addresses of the peers.
    pub peers: HashMap<NodeId, String>,
    /// HTTP addresses of the nodes, used to forward client requests to the leader.
    pub http_peers: HashMap<NodeId, String>,
    /// The log indexes whose commit somebody waits for, each with the term in which the entry was
    /// proposed: only that entry answers the one who waits.
    pub pending_proposals: HashMap<LogIndex, Term>,
    /// The highest log index applied to the store.
    pub applied: LogIndex,
    /// Last snapshot taken or installed (used to send to lagging peers).
    pub last_snapshot: Option<Snapshot>,
    /// Snapshot files under this node's data directory.
    pub snapshots: SnapshotStore,
    pub compaction_threshold: u64,
    /// Index of the last snapshot taken. The compaction trigger measures the distance from here.
    pub compaction_floor: LogIndex,
}

/// Everything a [`NodeHandle`] needs to come up.
pub struct NodeHandleConfig {
    pub raft: Config,
    pub replay: WalReplay,
    pub kv: KvStore,
    pub snapshots: SnapshotStore,
    /// `0` keeps [`DEFAULT_COMPACTION_THRESHOLD`].
    pub compaction_threshold: u64,
}

#[verifier::ext_equal]
pub ghost struct HandleView {
    pub node: NodeView,
    pub store: TextMap,
    pub peers: Map<NodeId, String>,
    pub http_peers: Map<NodeId, String>,
    pub pending: Map<LogIndex, Term>,
    pub applied: LogIndex,
    pub last_snapshot: Option<SnapshotView>,
    pub dir: String,
    pub threshold: u64,
    pub floor: LogIndex,
}

impl View for NodeHandle {
    type V = HandleView;

    open spec fn view(&self) -> HandleView {
        HandleView {
            node: self.node@,
            store: self.kv@,
            peers: self.peers@,
            http_peers: self.http_peers@,
            pending: self.pending_proposals@,
            applied: self.applied,
            last_snapshot: snapshot_view(self.last_snapshot),
            dir: self.snapshots.dir,
            threshold: self.compaction_threshold,
            floor: self.compaction_floor,
        }
    }
}

// ── The store ──────────────────────────────────────────────────────────────

/// The store after an entry. Entries that are not commands leave it alone.
pub open spec fn entry_applied(store: TextMap, entry: LogEntryView) -> TextMap {
    after_bytes(store, entry.command)
}

pub open spec fn entries_applied(store: TextMap, entries: Seq<LogEntryView>) -> TextMap
    decreases entries.len(),
{
    if entries.len() == 0 {
        store
    } else {
        entry_applied(entries_applied(store, entries.drop_last()), entries.last())
    }
}

/// The highest index among some entries, or 0.
pub open spec fn max_index(entries: Seq<LogEntryView>) -> LogIndex
    decreases entries.len(),
{
    if entries.len() == 0 {
        0
    } else {
        let rest = max_index(entries.drop_last());
        if entries.last().index > rest {
            entries.last().index
        } else {
            rest
        }
    }
}

/// The store that a snapshot restores; data that does not decode leaves the store alone.
pub open spec fn snapshot_restored(store: TextMap, data: Seq<u8>) -> TextMap {
    match store_decoded(data) {
        Some(restored) => restored,
        None => store,
    }
}

/// Applies entries to the store in order.
fn apply_entries(kv: &mut KvStore, entries: &[LogEntry])
    requires
        old(kv).wf(),
    ensures
        final(kv).wf(),
        final(kv)@ == entries_applied(old(kv)@, entry_views(entries@)),
{
    let ghost views = entry_views(entries@);
    let mut i: usize = 0;
    assert(views.take(0) =~= Seq::empty());
    while i < entries.len()
        invariant
            i <= entries@.len(),
            views == entry_views(entries@),
            kv.wf(),
            kv@ == entries_applied(old(kv)@, views.take(i as int)),
        decreases entries@.len() - i,
    {
        assert(views[i as int] == entries@[i as int]@);
        assert(views.take(i + 1).drop_last() =~= views.take(i as int));
        let _ = kv.apply(entries[i].command.as_slice());
        i += 1;
    }
    assert(views.take(i as int) =~= views);
}

fn highest_index(entries: &[LogEntry]) -> (index: LogIndex)
    ensures
        index == max_index(entry_views(entries@)),
{
    let ghost views = entry_views(entries@);
    let mut highest: LogIndex = 0;
    let mut i: usize = 0;
    assert(views.take(0) =~= Seq::empty());
    while i < entries.len()
        invariant
            i <= entries@.len(),
            views == entry_views(entries@),
            highest == max_index(views.take(i as int)),
        decreases entries@.len() - i,
    {
        assert(views[i as int] == entries@[i as int]@);
        assert(views.take(i + 1).drop_last() =~= views.take(i as int));
        if entries[i].index > highest {
            highest = entries[i].index;
        }
        i += 1;
    }
    assert(views.take(i as int) =~= views);
    highest
}

// ── Startup ────────────────────────────────────────────────────────────────

impl ReplayView {
    /// The durable state to hand to a new node.
    pub open spec fn restore_state(self) -> RestoreView {
        RestoreView {
            term: self.term,
            voted_for: self.voted_for,
            commit: self.commit,
            log: LogView {
                base: self.snapshot_index(),
                base_term: self.snapshot_term(),
                entries: self.entries,
            },
        }
    }
}

impl HandleView {
    /// A node that comes up: the store is rebuilt from the snapshot, and the committed entries
    /// above the snapshot are applied to it again before anyone can watch.
    pub open spec fn started(
        raft: Config,
        replay: ReplayView,
        store: TextMap,
        dir: String,
        threshold: u64,
        learner: bool,
        drawn: u32,
        redrawn: u32,
    ) -> HandleView {
        let fresh = NodeView::fresh(raft, !learner, drawn);
        let from_snapshot = match replay.snapshot {
            Some(snapshot) => snapshot_restored(store, snapshot.data),
            None => store,
        };
        let restored = if replay.has_state {
            fresh.restored(replay.restore_state(), redrawn)
        } else {
            fresh
        };
        let staged = restored.ready.to_apply;
        HandleView {
            node: restored.drained(),
            store: entries_applied(from_snapshot, staged),
            peers: Map::empty(),
            http_peers: Map::empty(),
            pending: Map::empty(),
            applied: if staged.len() > 0 {
                max_index(staged)
            } else {
                replay.snapshot_index()
            },
            last_snapshot: replay.snapshot,
            dir,
            threshold: if threshold == 0 {
                DEFAULT_COMPACTION_THRESHOLD
            } else {
                threshold
            },
            floor: replay.snapshot_index(),
        }
    }
}

impl NodeHandleConfig {
    pub open spec fn usable(self) -> bool {
        &&& self.raft.usable()
        &&& self.kv.wf()
        &&& self.replay@.restore_state().log.last_index() < u64::MAX
    }
}

impl NodeHandle {
    pub open spec fn wf(self) -> bool {
        self.node.wf() && self.kv.wf()
    }

    pub fn new(config: NodeHandleConfig) -> (handle: Self)
        requires
            config.usable(),
        ensures
            handle.wf(),
            exists|drawn: u32, redrawn: u32|
                config.raft.may_draw(drawn) && config.raft.may_draw(redrawn) && handle@
                    == #[trigger] HandleView::started(
                    config.raft,
                    config.replay@,
                    config.kv@,
                    config.snapshots.dir,
                    config.compaction_threshold,
                    false,
                    drawn,
                    redrawn,
                ),
    {
        Self::new_inner(false, config)
    }

    pub fn new_learner(config: NodeHandleConfig) -> (handle: Self)
        requires
            config.usable(),
        ensures
            handle.wf(),
            exists|drawn: u32, redrawn: u32|
                config.raft.may_draw(drawn) && config.raft.may_draw(redrawn) && handle@
                    == #[trigger] HandleView::started(
                    config.raft,
                    config.replay@,
                    config.kv@,
                    config.snapshots.dir,
                    config.compaction_threshold,
                    true,
                    drawn,
                    redrawn,
                ),
    {
        Self::new_inner(true, config)
    }

    fn new_inner(learner: bool, config: NodeHandleConfig) -> (handle: Self)
        requires
            config.usable(),
        ensures
            handle.wf(),
            exists|drawn: u32, redrawn: u32|
                config.raft.may_draw(drawn) && config.raft.may_draw(redrawn) && handle@
                    == #[trigger] HandleView::started(
                    config.raft,
                    config.replay@,
                    config.kv@,
                    config.snapshots.dir,
                    config.compaction_threshold,
                    learner,
                    drawn,
                    redrawn,
                ),
    {
        let ghost raft = config.raft;
        let ghost replayed = config.replay@;
        let ghost store = config.kv@;
        let ghost given_threshold = config.compaction_threshold;
        let NodeHandleConfig { raft: raft_config, replay, kv, snapshots, compaction_threshold } =
            config;
        let mut kv = kv;
        let mut node = if learner {
            RaftNode::new_learner(raft_config)
        } else {
            RaftNode::new(raft_config)
        };
        let ghost voter = !learner;
        let ghost drawn = choose|t: u32|
            raft.may_draw(t) && node@ == #[trigger] NodeView::fresh(raft, voter, t);
        let (snapshot_index, snapshot_term) = replay.snapshot_position();
        // The entries covered by the snapshot will never be applied again: the state machine is
        // rebuilt from the snapshot data.
        if let Some(snapshot) = &replay.snapshot {
            let _ = kv.restore(snapshot.data.as_slice());
        }
        let mut applied = snapshot_index;
        let ghost mut redrawn = drawn;
        let WalReplay { term, voted_for, commit, snapshot, entries, has_state, .. } = replay;
        if has_state {
            let state = Restore {
                term,
                voted_for,
                commit,
                snapshot_index,
                snapshot_term,
                entries,
            };
            assert(state@ == replayed.restore_state());
            let ghost before = node@;
            node.restore(state);
            proof {
                redrawn = choose|t: u32|
                    before.may_draw(t) && node@ == #[trigger] before.restored(state@, t);
            }
        }
        let ghost ready_node = node@;
        let staged = node.take_ready();
        proof {
            assert(ready_node.ready == staged@);
            assert(entry_views(staged.entries_to_apply@) == ready_node.ready.to_apply);
        }
        apply_entries(&mut kv, staged.entries_to_apply.as_slice());
        if staged.entries_to_apply.len() > 0 {
            applied = highest_index(staged.entries_to_apply.as_slice());
        }
        let handle = NodeHandle {
            node,
            kv,
            peers: HashMap::new(),
            http_peers: HashMap::new(),
            pending_proposals: HashMap::new(),
            applied,
            last_snapshot: snapshot,
            snapshots,
            compaction_threshold: if compaction_threshold == 0 {
                DEFAULT_COMPACTION_THRESHOLD
            } else {
                compaction_threshold
            },
            compaction_floor: snapshot_index,
        };
        proof {
            let wanted = HandleView::started(
                raft,
                replayed,
                store,
                config.snapshots.dir,
                given_threshold,
                learner,
                drawn,
                redrawn,
            );
            assert(handle@ =~= wanted);
        }
        handle
    }
}

// ── Steps ──────────────────────────────────────────────────────────────────

/// A message that answers an RPC.
pub open spec fn is_response(message: MessageView) -> bool {
    match message {
        MessageView::RequestVoteResponse { .. } => true,
        MessageView::AppendEntriesResponse { .. } => true,
        MessageView::InstallSnapshotResponse { .. } => true,
        _ => false,
    }
}

/// The first response among some messages.
pub open spec fn first_response(messages: Seq<(NodeId, MessageView)>) -> Option<MessageView>
    decreases messages.len(),
{
    if messages.len() == 0 {
        None
    } else if is_response(messages[0].1) {
        Some(messages[0].1)
    } else {
        first_response(messages.skip(1))
    }
}

fn is_reply(message: &Message) -> (res: bool)
    ensures
        res == is_response(message@),
{
    match message {
        Message::RequestVoteResponse { .. } => true,
        Message::AppendEntriesResponse { .. } => true,
        Message::InstallSnapshotResponse { .. } => true,
        _ => false,
    }
}

impl HandleView {
    /// The node has taken a message and handed over `ready`; nothing else has changed.
    pub open spec fn stepped(self, message: MessageView, after: HandleView, ready: ReadyView) -> bool {
        &&& after == HandleView { node: after.node, ..self }
        &&& exists|timeout: u32, order: Seq<NodeId>|
            self.node.may_draw(timeout) && enumerates(order, self.node.contacts(message))
                && #[trigger] self.node.stepped(message, timeout, order, after.node, ready)
    }
}

impl NodeHandle {
    pub fn register_peers(
        &mut self,
        raft_peers: HashMap<NodeId, String>,
        http_peers: HashMap<NodeId, String>,
    )
        requires
            old(self).wf(),
        ensures
            final(self).wf(),
            final(self)@ == (HandleView {
                peers: old(self)@.peers.union_prefer_right(raft_peers@),
                http_peers: old(self)@.http_peers.union_prefer_right(http_peers@),
                ..old(self)@
            }),
    {
        add_all(&mut self.peers, &raft_peers);
        add_all(&mut self.http_peers, &http_peers);
    }

    /// Advances the state machine by one message.
    pub fn step(&mut self, msg: Message) -> (ready: Ready)
        requires
            old(self).wf(),
            old(self)@.node.accepts(msg@),
        ensures
            final(self).wf(),
            old(self)@.stepped(msg@, final(self)@, ready@),
    {
        let ghost message = msg@;
        let ready = self.node.step(msg);
        proof {
            let (timeout, order) = choose|timeout: u32, order: Seq<NodeId>|
                old(self)@.node.may_draw(timeout) && enumerates(
                    order,
                    old(self)@.node.contacts(message),
                ) && #[trigger] old(self)@.node.stepped(
                    message,
                    timeout,
                    order,
                    self.node@,
                    ready@,
                );
            assert(old(self)@.node.stepped(message, timeout, order, self@.node, ready@));
        }
        ready
    }

    pub fn tick(&mut self) -> (ready: Ready)
        requires
            old(self).wf(),
            old(self)@.node.accepts(MessageView::Tick),
        ensures
            final(self).wf(),
            old(self)@.stepped(MessageView::Tick, final(self)@, ready@),
    {
        self.step(Message::Tick)
    }

    /// Submits a command to the replicated log. Returns the index to wait for, or `None` if this
    /// node is not the leader. The index is registered before the step: the entry must not be
    /// applied before somebody waits for it.
    pub fn propose(&mut self, command: Vec<u8>) -> (proposed: Option<(LogIndex, Ready)>)
        requires
            old(self).wf(),
            old(self)@.node.accepts(MessageView::Propose { command: command@ }),
        ensures
            final(self).wf(),
            match proposed {
                None => old(self)@.node.role !is Leader && final(self)@ == old(self)@,
                Some((index, ready)) => {
                    &&& old(self)@.node.role is Leader
                    &&& index == old(self)@.node.log.last_index() + 1
                    &&& old(self)@.waiting_for(index).stepped(
                        MessageView::Propose { command: command@ },
                        final(self)@,
                        ready@,
                    )
                },
            },
    {
        if !self.node.is_leader() {
            return None;
        }
        let index = self.node.log.last_index() + 1;
        self.pending_proposals.insert(index, self.node.current_term);
        assert(self@ =~= old(self)@.waiting_for(index));
        let ready = self.step(Message::Propose { command });
        Some((index, ready))
    }

    /// Proposes a membership change to the cluster. Returns the index to wait for, or `None` if
    /// this node is not the leader.
    pub fn propose_conf_change(
        &mut self,
        op: ConfChangeOp,
        node_id: NodeId,
        raft_addr: Option<String>,
        http_addr: Option<String>,
    ) -> (proposed: Option<(LogIndex, Ready)>)
        requires
            old(self).wf(),
            old(self)@.node.can_propose_change(),
        ensures
            final(self).wf(),
            match proposed {
                None => old(self)@.node.role !is Leader && final(self)@ == old(self)@,
                Some((index, ready)) => {
                    &&& old(self)@.node.role is Leader
                    &&& index == old(self)@.node.log.last_index() + 1
                    &&& old(self)@.waiting_for(index).stepped(
                        MessageView::ProposeConfChange {
                            cmd: ConfChangeView {
                                op,
                                node_id,
                                raft_addr: crate::message::text_view(raft_addr),
                                http_addr: crate::message::text_view(http_addr),
                            },
                        },
                        final(self)@,
                        ready@,
                    )
                },
            },
    {
        if !self.node.is_leader() {
            return None;
        }
        let index = self.node.log.last_index() + 1;
        self.pending_proposals.insert(index, self.node.current_term);
        assert(self@ =~= old(self)@.waiting_for(index));
        let ready = self.step(
            Message::ProposeConfChange { op, node_id, raft_addr, http_addr },
        );
        Some((index, ready))
    }

    /// Runs a single step for an incoming RPC and picks the reply out of its output. Every RPC
    /// finds its reply here; it goes back to the caller and not out to the peers.
    pub fn step_rpc(&mut self, msg: Message) -> (answered: (Option<Message>, Ready))
        requires
            old(self).wf(),
            old(self)@.node.accepts(msg@),
        ensures
            final(self).wf(),
            old(self)@.stepped(msg@, final(self)@, answered.1@),
            match answered.0 {
                Some(reply) => first_response(answered.1@.messages) == Some(reply@),
                None => first_response(answered.1@.messages) is None,
            },
            old(self)@.node.ready.messages.len() == 0 && msg is RequestVote
                ==> answered.0 is Some && answered.0->0 is RequestVoteResponse,
            old(self)@.node.ready.messages.len() == 0 && msg is AppendEntries
                ==> answered.0 is Some && answered.0->0 is AppendEntriesResponse,
            old(self)@.node.ready.messages.len() == 0 && msg is InstallSnapshot
                ==> answered.0 is Some && answered.0->0 is InstallSnapshotResponse,
    {
        let ready = self.step(msg);
        proof {
            let (timeout, order) = choose|timeout: u32, order: Seq<NodeId>|
                old(self)@.node.may_draw(timeout) && enumerates(
                    order,
                    old(self)@.node.contacts(msg@),
                ) && #[trigger] old(self)@.node.stepped(msg@, timeout, order, self@.node, ready@);
            if old(self)@.node.ready.messages.len() == 0 {
                effects::law_every_rpc_is_answered(old(self)@.node, msg@, timeout, order);
            }
        }
        let ghost views = ready@.messages;
        let mut i: usize = 0;
        assert(views.skip(0) =~= views);
        while i < ready.messages.len()
            invariant
                i <= ready.messages@.len(),
                views == message_views(ready.messages@),
                views == ready@.messages,
                first_response(views) == first_response(views.skip(i as int)),
                self.wf(),
                old(self)@.stepped(msg@, self@, ready@),
                old(self)@.node.ready.messages.len() == 0 && msg is RequestVote
                    ==> first_response(views) is Some && first_response(views)->0 is RequestVoteResponse,
                old(self)@.node.ready.messages.len() == 0 && msg is AppendEntries
                    ==> first_response(views) is Some && first_response(views)->0 is AppendEntriesResponse,
                old(self)@.node.ready.messages.len() == 0 && msg is InstallSnapshot
                    ==> first_response(views) is Some && first_response(views)->0 is InstallSnapshotResponse,
            decreases ready.messages@.len() - i,
        {
            assert(views.skip(i as int)[0] == views[i as int]);
            assert(views[i as int].1 == ready.messages@[i as int].1@);
            assert(views.skip(i as int).skip(1) =~= views.skip(i + 1));
            if is_reply(&ready.messages[i].1) {
                let reply = ready.messages[i].1.clone();
                return (Some(reply), ready);
            }
            i += 1;
        }
        (None, ready)
    }

    // ── Queries ───────────────────────────────────────────────────────────

    pub fn leader_id(&self) -> (leader: Option<NodeId>)
        ensures
            leader == self@.node.leader(),
    {
        self.node.leader_id()
    }

    pub fn is_leader(&self) -> (leader: bool)
        ensures
            leader == (self@.node.role is Leader),
    {
        self.node.is_leader()
    }

    /// Whether this node leads, and whom it takes for the leader, at the same instant.
    pub fn role_status(&self) -> (status: (bool, Option<NodeId>))
        ensures
            status == (self@.node.role is Leader, self@.node.leader()),
    {
        (self.node.is_leader(), self.node.leader_id())
    }

    /// The commit index to wait for before a linearizable read; only a leader serves those.
    pub fn read_index_if_leader(&self) -> (index: Option<LogIndex>)
        ensures
            index == (if self@.node.role is Leader {
                Some(self@.node.commit)
            } else {
                None
            }),
    {
        if self.node.is_leader() {
            Some(self.node.commit_index)
        } else {
            None
        }
    }

    /// Whether the store has reached the index that a read waits for.
    pub fn has_applied(&self, index: LogIndex) -> (reached: bool)
        ensures
            reached == (self@.applied >= index),
    {
        self.applied >= index
    }

    /// The HTTP address of a node, if it is known.
    pub fn http_addr_of(&self, id: Option<NodeId>) -> (addr: Option<String>)
        ensures
            addr == self@.http_addr_of(id),
    {
        match id {
            Some(id) => match self.http_peers.get(&id) {
                Some(addr) => Some(addr.clone()),
                None => None,
            },
            None => None,
        }
    }

    // ── Waiting proposals ─────────────────────────────────────────────────

    /// Drops every waiting proposal, so that those who wait fail fast instead of timing out.
    pub fn drain_pending_proposals(&mut self)
        requires
            old(self).wf(),
        ensures
            final(self).wf(),
            final(self)@ == (HandleView { pending: Map::empty(), ..old(self)@ }),
    {
        self.pending_proposals = HashMap::new();
        assert(self.pending_proposals@ =~= Map::empty());
    }

    /// Drains the waiting proposals if durable state just changed and this node does not lead.
    /// Returns whether it did.
    pub fn drain_if_lost_leadership(&mut self, ready: &Ready) -> (drained: bool)
        requires
            old(self).wf(),
        ensures
            final(self).wf(),
            drained == (ready@.hard_state is Some && old(self)@.node.role !is Leader),
            final(self)@ == (if drained {
                HandleView { pending: Map::empty(), ..old(self)@ }
            } else {
                old(self)@
            }),
    {
        if ready.hard_state.is_some() && !self.node.is_leader() {
            self.drain_pending_proposals();
            true
        } else {
            false
        }
    }
}

impl HandleView {
    /// Somebody waits for the entry that this node proposes at `index` to be committed.
    pub open spec fn waiting_for(self, index: LogIndex) -> HandleView {
        HandleView { pending: self.pending.insert(index, self.node.term), ..self }
    }

    /// Somebody waits for the entry that was proposed at `index` in the term.
    pub open spec fn waits_for(self, index: LogIndex, term: Term) -> bool {
        self.pending.contains_key(index) && self.pending[index] == term
    }

    pub open spec fn http_addr_of(self, id: Option<NodeId>) -> Option<String> {
        match id {
            Some(id) => if self.http_peers.contains_key(id) {
                Some(self.http_peers[id])
            } else {
                None
            },
            None => None,
        }
    }
}

/// Adds every entry of one map to another.
fn add_all(map: &mut HashMap<NodeId, String>, added: &HashMap<NodeId, String>)
    ensures
        final(map)@ == old(map)@.union_prefer_right(added@),
{
    let keys = keys_of(added);
    let mut i: usize = 0;
    while i < keys.len()
        invariant
            i <= keys@.len(),
            enumerates(keys@, added@.dom()),
            forall|k: NodeId| #[trigger]
                map@.contains_key(k) <==> old(map)@.contains_key(k) || keys@.take(
                    i as int,
                ).contains(k),
            forall|k: NodeId| #[trigger]
                map@.contains_key(k) ==> map@[k] == (if keys@.take(i as int).contains(k) {
                    added@[k]
                } else {
                    old(map)@[k]
                }),
        decreases keys@.len() - i,
    {
        let key = keys[i];
        assert(keys@.to_set().contains(key));
        assert(keys@.take(i + 1) =~= keys@.take(i as int).push(key));
        let ghost before = map@;
        if let Some(addr) = added.get(&key) {
            map.insert(key, addr.clone());
        }
        assert forall|k: NodeId| keys@.take(i + 1).contains(k) <==> keys@.take(i as int).contains(k)
            || k == key by {
            if keys@.take(i as int).contains(k) {
                let j = choose|j: int|
                    0 <= j < keys@.take(i as int).len() && keys@.take(i as int)[j] == k;
                assert(keys@.take(i + 1)[j] == k);
            }
            if k == key {
                assert(keys@.take(i + 1)[i as int] == k);
            }
        }
        i += 1;
    }
    proof {
        assert(keys@.take(i as int) =~= keys@);
        assert forall|k: NodeId| keys@.contains(k) <==> added@.contains_key(k) by {
            assert(keys@.contains(k) <==> keys@.to_set().contains(k));
        }
        assert(map@ =~= old(map)@.union_prefer_right(added@));
    }
}

// ── Persisting and applying ────────────────────────────────────────────────

/// What a step leaves for the host to do, in this order.
#[derive(Debug)]
pub struct Persisted {
    /// Records to append to the log under a single sync, before anything below.
    pub records: Vec<WalRecord>,
    /// Events to deliver.
    pub events: Vec<Event>,
    /// Waiting proposals that are now committed and applied.
    pub committed: Vec<LogIndex>,
    /// Waiting proposals that never will be: the entry of another leader has taken their place.
    pub dropped: Vec<LogIndex>,
    /// A compaction is due at this index.
    pub compact: Option<LogIndex>,
    /// A snapshot from the leader has to replace the store.
    pub snapshot: Option<Snapshot>,
}

/// The records of a step: the hard state first, then the entries.
pub open spec fn records_of(ready: ReadyView) -> Seq<RecordView> {
    (match ready.hard_state {
        Some(state) => seq![
            RecordView::HardState {
                term: state.term,
                voted_for: state.voted_for,
                commit: state.commit,
            },
        ],
        None => Seq::empty(),
    }) + ready.to_persist.map_values(|e: LogEntryView| RecordView::Entry(e))
}

/// The waiting proposals that a run of entries resolves, in the order of the entries: the entry
/// that is applied is the one that was proposed.
pub open spec fn resolved(pending: Map<LogIndex, Term>, entries: Seq<LogEntryView>) -> Seq<LogIndex>
    decreases entries.len(),
{
    if entries.len() == 0 {
        Seq::empty()
    } else {
        let earlier = resolved(pending, entries.drop_last());
        let waiting = still_pending(pending, entries.drop_last());
        let entry = entries.last();
        if waiting.contains_key(entry.index) && waiting[entry.index] == entry.term {
            earlier.push(entry.index)
        } else {
            earlier
        }
    }
}

/// The waiting proposals whose place the entry of another leader takes, in the order of the
/// entries.
pub open spec fn superseded(pending: Map<LogIndex, Term>, entries: Seq<LogEntryView>) -> Seq<
    LogIndex,
>
    decreases entries.len(),
{
    if entries.len() == 0 {
        Seq::empty()
    } else {
        let earlier = superseded(pending, entries.drop_last());
        let waiting = still_pending(pending, entries.drop_last());
        let entry = entries.last();
        if waiting.contains_key(entry.index) && waiting[entry.index] != entry.term {
            earlier.push(entry.index)
        } else {
            earlier
        }
    }
}

/// The proposals that still wait after a run of entries.
pub open spec fn still_pending(pending: Map<LogIndex, Term>, entries: Seq<LogEntryView>) -> Map<
    LogIndex,
    Term,
>
    decreases entries.len(),
{
    if entries.len() == 0 {
        pending
    } else {
        still_pending(pending, entries.drop_last()).remove(entries.last().index)
    }
}

/// Whether a batch of applied entries that ends at `max_index` triggers a compaction: the log has
/// grown `threshold` indexes past the last snapshot.
pub open spec fn compaction_due(max_index: LogIndex, floor: LogIndex, threshold: u64) -> bool {
    if max_index >= floor {
        max_index - floor >= threshold
    } else {
        threshold == 0
    }
}

pub fn should_compact(max_index: LogIndex, floor: LogIndex, threshold: u64) -> (due: bool)
    ensures
        due == compaction_due(max_index, floor, threshold),
{
    max_index.saturating_sub(floor) >= threshold
}

impl HandleView {
    /// The addresses after a membership change.
    pub open spec fn member_changed(self, cmd: ConfChangeView, raft: Option<String>, http: Option<String>) -> HandleView {
        match cmd.op {
            ConfChangeOp::Add => HandleView {
                peers: match raft {
                    Some(addr) => self.peers.insert(cmd.node_id, addr),
                    None => self.peers,
                },
                http_peers: match http {
                    Some(addr) => self.http_peers.insert(cmd.node_id, addr),
                    None => self.http_peers,
                },
                ..self
            },
            ConfChangeOp::Remove => HandleView {
                peers: self.peers.remove(cmd.node_id),
                http_peers: self.http_peers.remove(cmd.node_id),
                ..self
            },
        }
    }

    /// The store, the waiting proposals and the applied index after a step.
    pub open spec fn entries_taken(self, entries: Seq<LogEntryView>) -> HandleView {
        HandleView {
            store: entries_applied(self.store, entries),
            pending: still_pending(self.pending, entries),
            applied: if entries.len() > 0 {
                max_index(entries)
            } else {
                self.applied
            },
            ..self
        }
    }

    /// The handle after the output of a step was taken in.
    pub open spec fn persisted(self, ready: Ready) -> HandleView {
        let taken = self.entries_taken(ready@.to_apply);
        match ready.membership_change {
            Some(cmd) => taken.member_changed(cmd@, cmd.raft_addr, cmd.http_addr),
            None => taken,
        }
    }
}

fn records_to_persist(ready: &Ready) -> (records: Vec<WalRecord>)
    ensures
        record_views(records@) == records_of(ready@),
{
    let mut records: Vec<WalRecord> = Vec::new();
    if let Some(state) = ready.hard_state {
        records.push(
            WalRecord::HardState {
                term: state.term,
                voted_for: state.voted_for,
                commit: state.commit,
            },
        );
    }
    let ghost head = records@;
    let ghost wanted = records_of(ready@);
    let mut i: usize = 0;
    assert(record_views(records@) =~= wanted.take(head.len() as int));
    while i < ready.entries_to_persist.len()
        invariant
            i <= ready.entries_to_persist@.len(),
            wanted == records_of(ready@),
            wanted.len() == head.len() + ready.entries_to_persist@.len(),
            head.len() == (if ready@.hard_state is Some {
                1int
            } else {
                0int
            }),
            record_views(records@) == wanted.take(head.len() + i),
        decreases ready.entries_to_persist@.len() - i,
    {
        let ghost before = records@;
        let record = WalRecord::Entry(ready.entries_to_persist[i].clone());
        records.push(record);
        assert(record_views(records@) =~= record_views(before).push(record@));
        assert(wanted.take(head.len() + i + 1) =~= wanted.take(head.len() + i).push(record@));
        i += 1;
    }
    assert(wanted.take(head.len() + i) =~= wanted);
    records
}

fn events_to_send(entries: &[LogEntry]) -> (events: Vec<Event>)
    ensures
        event_views(events@) == events_of(entry_views(entries@)),
{
    let ghost views = entry_views(entries@);
    let mut events: Vec<Event> = Vec::new();
    let mut i: usize = 0;
    assert(views.take(0) =~= Seq::empty());
    assert(event_views(events@) =~= Seq::empty());
    while i < entries.len()
        invariant
            i <= entries@.len(),
            views == entry_views(entries@),
            event_views(events@) == events_of(views.take(i as int)),
        decreases entries@.len() - i,
    {
        assert(views[i as int] == entries@[i as int]@);
        assert(views.take(i + 1).drop_last() =~= views.take(i as int));
        let ghost before = events@;
        if let Some(event) = Event::of(&entries[i]) {
            events.push(event);
            assert(event_views(events@) =~= event_views(before) + seq![event@]);
        }
        i += 1;
    }
    assert(views.take(i as int) =~= views);
    events
}

impl NodeHandle {
    /// Takes in the output of a step: applies what is committed, resolves the proposals that
    /// waited for it, and learns the addresses of a new member. What is left to the host comes
    /// back, the records to make durable first.
    pub fn persist(&mut self, ready: &Ready) -> (left: Persisted)
        requires
            old(self).wf(),
        ensures
            final(self).wf(),
            final(self)@ == old(self)@.persisted(*ready),
            record_views(left.records@) == records_of(ready@),
            event_views(left.events@) == events_of(ready@.to_apply),
            left.committed@ == resolved(old(self)@.pending, ready@.to_apply),
            left.dropped@ == superseded(old(self)@.pending, ready@.to_apply),
            left.compact == (if ready@.to_apply.len() > 0 && compaction_due(
                max_index(ready@.to_apply),
                old(self)@.floor,
                old(self)@.threshold,
            ) {
                Some(max_index(ready@.to_apply))
            } else {
                None
            }),
            snapshot_view(left.snapshot) == ready@.snapshot_to_apply,
    {
        let records = records_to_persist(ready);
        let entries = ready.entries_to_apply.as_slice();
        apply_entries(&mut self.kv, entries);
        let events = events_to_send(entries);
        let (committed, dropped) = self.resolve_proposals(entries);
        let mut compact: Option<LogIndex> = None;
        if entries.len() > 0 {
            let highest = highest_index(entries);
            self.applied = highest;
            if should_compact(highest, self.compaction_floor, self.compaction_threshold) {
                compact = Some(highest);
            }
        }
        assert(self@ == old(self)@.entries_taken(ready@.to_apply));
        let snapshot = match &ready.snapshot_to_apply {
            Some(snapshot) => Some(snapshot.clone()),
            None => None,
        };
        if let Some(cmd) = &ready.membership_change {
            self.apply_membership_cmd(cmd);
        }
        Persisted { records, events, committed, dropped, compact, snapshot }
    }

    /// Which of the waiting proposals are committed, and which will never be.
    fn resolve_proposals(&mut self, entries: &[LogEntry]) -> (answered: (
        Vec<LogIndex>,
        Vec<LogIndex>,
    ))
        ensures
            answered.0@ == resolved(old(self)@.pending, entry_views(entries@)),
            answered.1@ == superseded(old(self)@.pending, entry_views(entries@)),
            final(self)@ == (HandleView {
                pending: still_pending(old(self)@.pending, entry_views(entries@)),
                ..old(self)@
            }),
            final(self).node == old(self).node,
            final(self).kv == old(self).kv,
    {
        let ghost views = entry_views(entries@);
        let mut committed: Vec<LogIndex> = Vec::new();
        let mut dropped: Vec<LogIndex> = Vec::new();
        let mut i: usize = 0;
        assert(views.take(0) =~= Seq::empty());
        assert(committed@ =~= Seq::empty());
        assert(dropped@ =~= Seq::empty());
        while i < entries.len()
            invariant
                i <= entries@.len(),
                views == entry_views(entries@),
                committed@ == resolved(old(self)@.pending, views.take(i as int)),
                dropped@ == superseded(old(self)@.pending, views.take(i as int)),
                self@ == (HandleView {
                    pending: still_pending(old(self)@.pending, views.take(i as int)),
                    ..old(self)@
                }),
                self.node == old(self).node,
                self.kv == old(self).kv,
            decreases entries@.len() - i,
        {
            assert(views[i as int] == entries@[i as int]@);
            assert(views.take(i + 1).drop_last() =~= views.take(i as int));
            let index = entries[i].index;
            if let Some(term) = self.pending_proposals.remove(&index) {
                if term == entries[i].term {
                    committed.push(index);
                } else {
                    dropped.push(index);
                }
            }
            i += 1;
        }
        assert(views.take(i as int) =~= views);
        (committed, dropped)
    }

    fn apply_membership_cmd(&mut self, cmd: &ConfChangeCmd)
        requires
            old(self).wf(),
        ensures
            final(self).wf(),
            final(self)@ == old(self)@.member_changed(cmd@, cmd.raft_addr, cmd.http_addr),
    {
        match cmd.op {
            ConfChangeOp::Add => {
                if let Some(addr) = &cmd.raft_addr {
                    self.peers.insert(cmd.node_id, addr.clone());
                }
                if let Some(addr) = &cmd.http_addr {
                    self.http_peers.insert(cmd.node_id, addr.clone());
                }
            },
            ConfChangeOp::Remove => {
                self.peers.remove(&cmd.node_id);
                self.http_peers.remove(&cmd.node_id);
            },
        }
    }
}

// ── Snapshots ──────────────────────────────────────────────────────────────

impl HandleView {
    /// The index at which a compaction up to `index` is possible: what the store has reached, and
    /// neither below the log's base nor beyond what the node has applied.
    pub open spec fn compaction_target(self, index: LogIndex) -> Option<LogIndex> {
        let target = if index < self.applied {
            index
        } else {
            self.applied
        };
        if target == 0 || target < self.node.log.base || target > self.node.applied {
            None
        } else {
            Some(target)
        }
    }

    /// The records of a log that keeps nothing a snapshot covers: the hard state and the tail.
    pub open spec fn rotated_records(self) -> Seq<RecordView> {
        seq![
            RecordView::HardState {
                term: self.node.term,
                voted_for: self.node.voted_for,
                commit: self.node.commit,
            },
        ] + self.node.log.entries.map_values(|e: LogEntryView| RecordView::Entry(e))
    }

    pub open spec fn log_compacted(self, index: LogIndex, term: Term) -> HandleView {
        HandleView {
            node: NodeView { log: self.node.log.compact(index, term), ..self.node },
            ..self
        }
    }
}

impl NodeHandle {
    /// The snapshot to write for a compaction up to `index`, if one is possible. It is labelled
    /// with the index that the store has reached: one labelled beyond that would restore a node
    /// into a state that it never had. Nothing is dropped before the snapshot is durable.
    pub fn try_compact(&self, index: LogIndex) -> (snapshot: Option<Snapshot>)
        requires
            self.wf(),
        ensures
            match snapshot {
                None => self@.compaction_target(index) is None,
                Some(s) => {
                    &&& self@.compaction_target(index) == Some(s@.last_index)
                    &&& s@.last_term == (match self@.node.log.term_at(s@.last_index as int) {
                        Some(term) => term,
                        None => 0,
                    })
                    &&& s@.data == json_map_text(self@.store)
                    &&& store_decoded(s@.data) == Some(self@.store)
                },
            },
    {
        let target = if index < self.applied {
            index
        } else {
            self.applied
        };
        if target == 0 || target < self.node.log.snapshot_index() || target
            > self.node.last_applied {
            return None;
        }
        let last_term = match self.node.log.term_at(target) {
            Some(term) => term,
            None => 0,
        };
        Some(Snapshot { last_index: target, last_term, data: self.kv.snapshot() })
    }

    /// Once the snapshot is durable: compacts the Raft log up to it and returns the records that
    /// replace the contents of the log file. The hard state stays among them: a node that comes
    /// back without its term and vote can vote twice in one term.
    pub fn rotate(&mut self, snapshot: &Snapshot) -> (records: Vec<WalRecord>)
        requires
            old(self).wf(),
            old(self)@.node.log.base <= snapshot@.last_index <= old(self)@.node.applied,
        ensures
            final(self).wf(),
            final(self)@ == old(self)@.log_compacted(snapshot@.last_index, snapshot@.last_term),
            record_views(records@) == final(self)@.rotated_records(),
    {
        self.node.log.compact(snapshot.last_index, snapshot.last_term);
        let mut records: Vec<WalRecord> = Vec::new();
        records.push(
            WalRecord::HardState {
                term: self.node.current_term,
                voted_for: self.node.voted_for,
                commit: self.node.commit_index,
            },
        );
        let tail = clone_entries(self.node.log.entries_from(snapshot.last_index + 1));
        let ghost wanted = self@.rotated_records();
        let mut i: usize = 0;
        proof {
            self.node.log.lemma_last_index_bounded();
            assert(self@.node.log.from(snapshot.last_index + 1) =~= self@.node.log.entries);
            assert(record_views(records@) =~= wanted.take(1));
        }
        while i < tail.len()
            invariant
                i <= tail@.len(),
                entry_views(tail@) == self@.node.log.entries,
                wanted == self@.rotated_records(),
                record_views(records@) == wanted.take(i + 1),
            decreases tail@.len() - i,
        {
            let ghost before = records@;
            let record = WalRecord::Entry(tail[i].clone());
            records.push(record);
            proof {
                assert(entry_views(tail@)[i as int] == tail@[i as int]@);
                assert(record_views(records@) =~= record_views(before).push(record@));
                assert(wanted.take(i + 2) =~= wanted.take(i + 1).push(record@));
            }
            i += 1;
        }
        proof {
            assert(entry_views(tail@).len() == tail@.len());
            assert(wanted.take(i + 1) =~= wanted);
        }
        records
    }

    /// Once the log file is rotated too: the compaction counts.
    pub fn finish_compaction(&mut self, snapshot: Snapshot)
        requires
            old(self).wf(),
        ensures
            final(self).wf(),
            final(self)@ == (HandleView {
                floor: snapshot@.last_index,
                last_snapshot: Some(snapshot@),
                ..old(self)@
            }),
    {
        self.compaction_floor = snapshot.last_index;
        self.last_snapshot = Some(snapshot);
    }
}

/// Where the snapshot for a lagging peer comes from.
#[derive(Debug)]
pub enum PeerSnapshot {
    /// The one in memory covers the compacted prefix.
    OnHand(Snapshot),
    /// One has to be taken first, by a compaction up to this index.
    Take(LogIndex),
}

impl HandleView {
    /// The last snapshot covers everything that the log no longer holds.
    pub open spec fn snapshot_covers_base(self) -> bool {
        self.last_snapshot matches Some(s) && s.last_index >= self.node.log.base
    }

    /// The index up to which a snapshot for a peer is taken: what the node has applied, which is
    /// at or above the compacted prefix.
    pub open spec fn peer_target(self) -> LogIndex {
        if self.node.applied >= self.node.log.base {
            self.node.applied
        } else {
            self.node.log.base
        }
    }

    /// The state after a snapshot from the leader has replaced the store.
    pub open spec fn snapshot_installed(self, snapshot: SnapshotView, timeout: u32) -> HandleView {
        HandleView {
            node: self.node.rebased(snapshot, timeout),
            store: store_decoded(snapshot.data)->0,
            applied: snapshot.last_index,
            floor: snapshot.last_index,
            last_snapshot: Some(snapshot),
            ..self
        }
    }
}

/// What installing a snapshot leaves for the host to do.
#[derive(Debug)]
pub struct Installed {
    /// The records that replace the contents of the log file once the snapshot is durable: every
    /// entry is covered, only the hard state has to survive.
    pub records: Vec<WalRecord>,
    /// The event to deliver: the whole store was replaced.
    pub event: Event,
}

impl NodeHandle {
    /// Replaces the store with snapshot data received from the leader and rebuilds the Raft log
    /// at the snapshot's position. Data that does not decode changes nothing, and nobody is told.
    pub fn apply_snapshot(&mut self, snapshot: Snapshot) -> (installed: Option<Installed>)
        requires
            old(self).wf(),
            old(self)@.node.role is Follower,
            snapshot@.last_index < u64::MAX,
        ensures
            final(self).wf(),
            match installed {
                None => store_decoded(snapshot@.data) is None && final(self)@ == old(self)@,
                Some(i) => {
                    &&& i.event@ == EventView::SnapshotApplied
                    &&& store_decoded(snapshot@.data) is Some
                    &&& exists|timeout: u32|
                        old(self)@.node.may_draw(timeout) && final(self)@ == #[trigger] old(
                            self,
                        )@.snapshot_installed(snapshot@, timeout)
                    &&& record_views(i.records@) == seq![
                        RecordView::HardState {
                            term: old(self)@.node.term,
                            voted_for: old(self)@.node.voted_for,
                            commit: snapshot@.last_index,
                        },
                    ]
                },
            },
    {
        if self.kv.restore(snapshot.data.as_slice()).is_err() {
            return None;
        }
        let term = self.node.current_term;
        let voted_for = self.node.voted_for;
        let state = Restore {
            term,
            voted_for,
            commit: snapshot.last_index,
            snapshot_index: snapshot.last_index,
            snapshot_term: snapshot.last_term,
            entries: Vec::new(),
        };
        let ghost before = self.node@;
        assert(state@.log.entries =~= Seq::empty());
        self.node.restore(state);
        let ghost timeout = choose|t: u32|
            before.may_draw(t) && self.node@ == #[trigger] before.restored(state@, t);
        let mut records: Vec<WalRecord> = Vec::new();
        records.push(WalRecord::HardState { term, voted_for, commit: self.node.commit_index });
        self.compaction_floor = snapshot.last_index;
        self.applied = snapshot.last_index;
        self.last_snapshot = Some(snapshot);
        proof {
            assert(self@ =~= old(self)@.snapshot_installed(snapshot@, timeout));
            assert(record_views(records@) =~= seq![
                RecordView::HardState { term, voted_for, commit: snapshot@.last_index },
            ]);
        }
        Some(Installed { records, event: Event::SnapshotApplied })
    }

    /// A snapshot that covers this node's compacted prefix, or where to take one. A peer whose
    /// position was compacted away is never silently abandoned.
    pub fn snapshot_for_peers(&self) -> (source: PeerSnapshot)
        ensures
            match source {
                PeerSnapshot::OnHand(s) => self@.snapshot_covers_base() && self@.last_snapshot
                    == Some(s@),
                PeerSnapshot::Take(index) => !self@.snapshot_covers_base() && index
                    == self@.peer_target(),
            },
    {
        let base = self.node.log.snapshot_index();
        if let Some(snapshot) = &self.last_snapshot {
            if snapshot.last_index >= base {
                return PeerSnapshot::OnHand(snapshot.clone());
            }
        }
        PeerSnapshot::Take(
            if self.node.last_applied >= base {
                self.node.last_applied
            } else {
                base
            },
        )
    }

    /// The InstallSnapshot RPC for a snapshot. This node is the leader it names, so that there is
    /// none when it does not lead any more.
    pub fn install_message(&self, snapshot: Snapshot) -> (message: Option<Message>)
        ensures
            message is Some <==> self@.node.role is Leader,
            message matches Some(m) ==> m@ == (MessageView::InstallSnapshot {
                from: self@.node.id,
                msg: crate::message::InstallSnapshotView {
                    term: self@.node.term,
                    leader_id: self@.node.id,
                    snapshot: snapshot@,
                },
            }),
    {
        if !self.node.is_leader() {
            return None;
        }
        let message = Message::InstallSnapshot {
            from: self.node.id,
            msg: crate::message::InstallSnapshot {
                term: self.node.current_term,
                leader_id: self.node.id,
                snapshot,
            },
        };
        Some(message)
    }

    /// Resolves destinations to addresses, dropping unknown peers.
    pub fn route(&self, messages: Vec<(NodeId, Message)>) -> (routed: Vec<
        (NodeId, String, Message),
    >)
        ensures
            routed_views(routed@) == routes(self@.peers, message_views(messages@)),
    {
        let ghost views = message_views(messages@);
        let mut routed: Vec<(NodeId, String, Message)> = Vec::new();
        let mut i: usize = 0;
        assert(views.take(0) =~= Seq::empty());
        assert(routed_views(routed@) =~= Seq::empty());
        while i < messages.len()
            invariant
                i <= messages@.len(),
                views == message_views(messages@),
                routed_views(routed@) == routes(self@.peers, views.take(i as int)),
            decreases messages@.len() - i,
        {
            assert(views[i as int] == (messages@[i as int].0, messages@[i as int].1@));
            assert(views.take(i + 1).drop_last() =~= views.take(i as int));
            let ghost before = routed@;
            let to = messages[i].0;
            if let Some(addr) = self.peers.get(&to) {
                let addr = addr.clone();
                let message = messages[i].1.clone();
                routed.push((to, addr, message));
                assert(routed_views(routed@) =~= routed_views(before).push((to, addr, message@)));
            }
            i += 1;
        }
        assert(views.take(i as int) =~= views);
        routed
    }
}

pub open spec fn routed_views(routed: Seq<(NodeId, String, Message)>) -> Seq<
    (NodeId, String, MessageView),
> {
    routed.map_values(|r: (NodeId, String, Message)| (r.0, r.1, r.2@))
}

/// The messages to known peers, with their addresses, in order.
pub open spec fn routes(
    peers: Map<NodeId, String>,
    messages: Seq<(NodeId, MessageView)>,
) -> Seq<(NodeId, String, MessageView)>
    decreases messages.len(),
{
    if messages.len() == 0 {
        Seq::empty()
    } else {
        let earlier = routes(peers, messages.drop_last());
        let (to, message) = messages.last();
        if peers.contains_key(to) {
            earlier.push((to, peers[to], message))
        } else {
            earlier
        }
    }
}

} // verus!
