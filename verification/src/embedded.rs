//! The facade for embedding a node inside another application.
use std::collections::HashMap;

use vstd::prelude::*;

use crate::config::{build_raft_config, Config};
use crate::handle::{HandleView, NodeHandle};
use crate::json::json_text;
use crate::kv::{command_bytes, command_decoded, command_json, pair_views, Command, CommandView};
use crate::message::{text_view, EntryType, LogEntryView, LogIndex, MessageView, NodeId};
use crate::node::listing::keys_of;
use crate::node::{enumerates, Ready, RoleView};
use crate::replay::WalReplay;
use crate::text::{decimal, lemma_decimal_reads_back, to_decimal};
use crate::wal::{Codec, Wal};

verus! {

broadcast use vstd::std_specs::hash::group_hash_axioms;

/// How long a write waits for quorum commit, and a read waits for apply, in seconds.
pub const COMMIT_TIMEOUT_SECS: u64 = 5;

/// The time between two ticks, in milliseconds.
pub const TICK_MILLIS: u64 = 10;

#[derive(Debug)]
pub struct RaftKvOptions {
    /// Unique node id within the cluster.
    pub id: NodeId,
    /// Address to bind the Raft gRPC server on (e.g. "127.0.0.1:7001").
    pub raft_addr: String,
    /// Raft gRPC address of every peer, keyed by node id.
    pub peers: HashMap<NodeId, String>,
    /// Application-level address of every peer, keyed by node id. The node never connects to
    /// these: it hands them back in [`RaftKvError::NotLeader`].
    pub app_addrs: HashMap<NodeId, String>,
    /// Directory for this node's log and snapshots.
    pub data_dir: String,
    /// Start as a non-voting learner (join via a membership change on the leader).
    pub learner: bool,
    /// Ticks before a follower starts an election. `0` keeps the built-in default.
    pub election_timeout: u32,
    /// Ticks between leader heartbeats. `0` keeps the built-in default.
    pub heartbeat_timeout: u32,
    /// Applied entries between snapshots. `0` keeps the built-in default.
    pub compaction_threshold: u64,
}

/// The name of a node's log file.
pub open spec fn wal_name(id: NodeId) -> Seq<char> {
    "node-"@ + decimal(id as nat) + ".wal"@
}

impl RaftKvOptions {
    /// The Raft config of the node: every peer, in no particular order, and the timeouts that
    /// were given.
    pub fn raft_config(&self) -> (config: Config)
        ensures
            config.id == self.id,
            enumerates(config.peers@, self.peers@.dom()),
            config.election_timeout == (if self.election_timeout > 0 {
                self.election_timeout
            } else {
                crate::config::DEFAULT_ELECTION_TIMEOUT
            }),
            config.heartbeat_timeout == (if self.heartbeat_timeout > 0 {
                self.heartbeat_timeout
            } else {
                crate::config::DEFAULT_HEARTBEAT_TIMEOUT
            }),
            config.max_entries_per_append == crate::config::DEFAULT_MAX_ENTRIES_PER_APPEND,
            config.usable() <==> self.election_timeout <= u32::MAX / 2,
    {
        build_raft_config(
            self.id,
            keys_of(&self.peers),
            self.election_timeout,
            self.heartbeat_timeout,
        )
    }

    /// The name of the log file under the data directory.
    pub fn wal_name(&self) -> (name: String)
        ensures
            name@ == wal_name(self.id),
    {
        let mut name: String = "node-".to_owned();
        let digits = to_decimal(self.id);
        name.append(digits.as_str());
        name.append(".wal");
        name
    }
}

#[derive(Debug)]
pub enum RaftKvError {
    /// This node is not the leader. Forward the operation to `leader_addr` (the leader's
    /// app-level address from [`RaftKvOptions::app_addrs`]).
    NotLeader { leader_id: Option<NodeId>, leader_addr: Option<String> },
    /// Leadership was lost after the proposal was accepted but before it committed. The write may
    /// or may not survive: retry idempotently.
    ProposalDropped,
    Timeout,
}

pub ghost enum ErrorView {
    NotLeader { leader_id: Option<NodeId>, leader_addr: Option<Seq<char>> },
    ProposalDropped,
    Timeout,
}

impl View for RaftKvError {
    type V = ErrorView;

    open spec fn view(&self) -> ErrorView {
        match *self {
            RaftKvError::NotLeader { leader_id, leader_addr } => ErrorView::NotLeader {
                leader_id,
                leader_addr: text_view(leader_addr),
            },
            RaftKvError::ProposalDropped => ErrorView::ProposalDropped,
            RaftKvError::Timeout => ErrorView::Timeout,
        }
    }
}

impl ErrorView {
    /// The error in words.
    pub open spec fn message(self) -> Seq<char> {
        match self {
            ErrorView::NotLeader { leader_id: Some(id), .. } => "not the leader (leader id: Some("@
                + decimal(id as nat) + "))"@,
            ErrorView::NotLeader {
                leader_id: None,
                ..
            } => "not the leader (leader id: None)"@,
            ErrorView::ProposalDropped => "proposal dropped: leadership lost before commit"@,
            ErrorView::Timeout => "timed out waiting for quorum"@,
        }
    }
}

impl RaftKvError {
    /// The error in words.
    pub fn message(&self) -> (message: String)
        ensures
            message@ == self@.message(),
    {
        match self {
            RaftKvError::NotLeader { leader_id, .. } => match leader_id {
                Some(id) => {
                    let mut message: String = "not the leader (leader id: Some(".to_owned();
                    let digits = to_decimal(*id);
                    message.append(digits.as_str());
                    message.append("))");
                    message
                },
                None => "not the leader (leader id: None)".to_owned(),
            },
            RaftKvError::ProposalDropped => "proposal dropped: leadership lost before commit".to_owned(),
            RaftKvError::Timeout => "timed out waiting for quorum".to_owned(),
        }
    }
}

#[derive(Debug)]
pub struct Status {
    pub id: NodeId,
    pub is_leader: bool,
    pub leader_id: Option<NodeId>,
    pub leader_addr: Option<String>,
}

/// How the wait for a proposal ended.
#[derive(Debug, Clone, Copy, PartialEq, Eq, Structural)]
pub enum Waited {
    /// The entry was committed and applied.
    Committed,
    /// Nobody will answer any more: leadership was lost.
    Dropped,
    TimedOut,
}

/// The outcome of a write, by how the wait for it ended.
pub fn write_outcome(waited: Waited) -> (outcome: Result<(), RaftKvError>)
    ensures
        match waited {
            Waited::Committed => outcome is Ok,
            Waited::Dropped => outcome == Err::<(), RaftKvError>(RaftKvError::ProposalDropped),
            Waited::TimedOut => outcome == Err::<(), RaftKvError>(RaftKvError::Timeout),
        },
{
    match waited {
        Waited::Committed => Ok(()),
        Waited::Dropped => Err(RaftKvError::ProposalDropped),
        Waited::TimedOut => Err(RaftKvError::Timeout),
    }
}

/// An embedded node.
pub struct RaftKv {
    pub handle: NodeHandle,
}

impl RaftKv {
    pub open spec fn wf(self) -> bool {
        self.handle.wf()
    }

    /// A write is accepted if and only if this node leads. The command then stands at the
    /// returned index of the log, waiting for a quorum.
    pub open spec fn accepted(
        before: HandleView,
        command: CommandView,
        after: HandleView,
        proposed: Result<(LogIndex, Ready), RaftKvError>,
    ) -> bool {
        match proposed {
            Ok((index, ready)) => {
                &&& before.node.role is Leader
                &&& index == before.node.log.last_index() + 1
                &&& before.waiting_for(index).stepped(
                    MessageView::Propose { command: command_bytes(command) },
                    after,
                    ready@,
                )
                &&& command_decoded(command_bytes(command)) == Some(command)
            },
            Err(error) => {
                &&& before.node.role !is Leader
                &&& after == before
                &&& error == not_leader_error(before)
            },
        }
    }

    /// Starts a replicated write. Leader only.
    pub fn put(&mut self, key: String, value: String) -> (proposed: Result<
        (LogIndex, Ready),
        RaftKvError,
    >)
        requires
            old(self).wf(),
            old(self).handle@.node.can_propose(),
        ensures
            final(self).wf(),
            Self::accepted(
                old(self).handle@,
                CommandView::Put { key: key@, value: value@ },
                final(self).handle@,
                proposed,
            ),
    {
        self.propose(Command::Put { key, value })
    }

    /// Starts a replicated delete. Leader only.
    pub fn delete(&mut self, key: String) -> (proposed: Result<(LogIndex, Ready), RaftKvError>)
        requires
            old(self).wf(),
            old(self).handle@.node.can_propose(),
        ensures
            final(self).wf(),
            Self::accepted(
                old(self).handle@,
                CommandView::Delete { key: key@ },
                final(self).handle@,
                proposed,
            ),
    {
        self.propose(Command::Delete { key })
    }

    fn propose(&mut self, command: Command) -> (proposed: Result<(LogIndex, Ready), RaftKvError>)
        requires
            old(self).wf(),
            old(self).handle@.node.can_propose(),
        ensures
            final(self).wf(),
            Self::accepted(old(self).handle@, command@, final(self).handle@, proposed),
    {
        let bytes = command.encode();
        match self.handle.propose(bytes) {
            Some(proposed) => Ok(proposed),
            None => Err(self.not_leader()),
        }
    }

    /// The index that a linearizable read has to wait for. Leader only.
    pub fn read_index(&self) -> (index: Result<LogIndex, RaftKvError>)
        ensures
            match index {
                Ok(i) => self.handle@.node.role is Leader && i == self.handle@.node.commit,
                Err(error) => self.handle@.node.role !is Leader && error == not_leader_error(
                    self.handle@,
                ),
            },
    {
        match self.handle.read_index_if_leader() {
            Some(index) => Ok(index),
            None => Err(self.not_leader()),
        }
    }

    /// A linearizable read, given whether the store reached the read index in time.
    pub fn get(&self, key: &str, reached: bool) -> (value: Result<Option<String>, RaftKvError>)
        requires
            self.wf(),
        ensures
            match value {
                Ok(v) => reached && text_view(v) == (if self.handle@.store.contains_key(key@) {
                    Some(self.handle@.store[key@])
                } else {
                    None
                }),
                Err(error) => !reached && error == RaftKvError::Timeout,
            },
    {
        if !reached {
            return Err(RaftKvError::Timeout);
        }
        Ok(self.get_local(key))
    }

    /// A linearizable prefix scan, given whether the store reached the read index in time.
    pub fn scan_prefix(&self, prefix: &str, reached: bool) -> (found: Result<
        Vec<(String, String)>,
        RaftKvError,
    >)
        requires
            self.wf(),
        ensures
            match found {
                Ok(pairs) => reached && pair_views(pairs@) == self.handle.kv.pairs().filter(
                    |p: (Seq<char>, Seq<char>)| prefix@.is_prefix_of(p.0),
                ),
                Err(error) => !reached && error == RaftKvError::Timeout,
            },
    {
        if !reached {
            return Err(RaftKvError::Timeout);
        }
        Ok(self.scan_prefix_local(prefix))
    }

    /// A local read from this node's applied state. Works on any node; may lag the leader.
    pub fn get_local(&self, key: &str) -> (value: Option<String>)
        requires
            self.wf(),
        ensures
            text_view(value) == (if self.handle@.store.contains_key(key@) {
                Some(self.handle@.store[key@])
            } else {
                None
            }),
    {
        match self.handle.kv.get(key) {
            Some(value) => Some(value.to_owned()),
            None => None,
        }
    }

    /// A local prefix scan. Same freshness caveat as `get_local`.
    pub fn scan_prefix_local(&self, prefix: &str) -> (found: Vec<(String, String)>)
        requires
            self.wf(),
        ensures
            pair_views(found@) == self.handle.kv.pairs().filter(
                |p: (Seq<char>, Seq<char>)| prefix@.is_prefix_of(p.0),
            ),
    {
        self.handle.kv.scan_prefix(prefix)
    }

    pub fn is_leader(&self) -> (leader: bool)
        ensures
            leader == (self.handle@.node.role is Leader),
    {
        self.handle.is_leader()
    }

    pub fn status(&self) -> (status: Status)
        ensures
            status.id == self.handle@.node.id,
            status.is_leader == (self.handle@.node.role is Leader),
            status.leader_id == self.handle@.node.leader(),
            status.leader_addr == self.handle@.http_addr_of(self.handle@.node.leader()),
    {
        let (is_leader, leader_id) = self.handle.role_status();
        let leader_addr = self.handle.http_addr_of(leader_id);
        Status { id: self.handle.node.id, is_leader, leader_id, leader_addr }
    }

    /// The error that tells a client where to go.
    pub fn not_leader(&self) -> (error: RaftKvError)
        ensures
            error == not_leader_error(self.handle@),
    {
        let leader_id = self.handle.leader_id();
        let leader_addr = self.handle.http_addr_of(leader_id);
        RaftKvError::NotLeader { leader_id, leader_addr }
    }
}

/// Names the leader and its address as far as the node knows them.
pub open spec fn not_leader_error(handle: HandleView) -> RaftKvError {
    RaftKvError::NotLeader {
        leader_id: handle.node.leader(),
        leader_addr: handle.http_addr_of(handle.node.leader()),
    }
}

// ── Moving an older log to the current layout ──────────────────────────────

/// Whether a log has to be moved to the current layout: its payloads are JSON, or it carries a
/// snapshot.
pub fn needs_migration(wal: &Wal, replay: &WalReplay) -> (needed: bool)
    ensures
        needed == (wal.codec == Codec::LegacyJson || replay@.snapshot_in_wal),
{
    wal.is_legacy() || replay.snapshot_in_wal
}

/// The steps of moving a log: its newest snapshot becomes a file, the log is renamed aside, and a
/// new one is written with what the snapshot does not cover.
#[derive(Debug, Clone, Copy, PartialEq, Eq, Structural)]
pub enum MigrationStep {
    /// Write the snapshot to a file of its own.
    SaveSnapshot,
    /// Rename the log aside. That costs no space.
    SetAside,
    /// Write the new log.
    Rewrite,
    /// No room for the new log: delete the old one that was set aside.
    DropLegacy,
    /// Write the new log a second time.
    RewriteAgain,
    /// Rename the old log back.
    PutBack,
    Done,
    Failed,
}

/// How a step of the host ended.
#[derive(Debug, Clone, Copy, PartialEq, Eq, Structural)]
pub enum StepOutcome {
    Succeeded,
    OutOfSpace,
    Failed,
}

/// The raw error number of a full volume.
pub const NO_SPACE_LEFT: i32 = 28;

pub fn is_out_of_space(raw_os_error: Option<i32>) -> (full: bool)
    ensures
        full == (raw_os_error == Some(NO_SPACE_LEFT)),
        full <==> raw_os_error == Some(28i32),
{
    match raw_os_error {
        Some(code) => code == NO_SPACE_LEFT,
        None => false,
    }
}

impl MigrationStep {
    /// The first step: the snapshot of the log is saved unless one at least as new is on disk.
    pub open spec fn first_of(snapshot: Option<LogIndex>, on_disk: Option<LogIndex>) -> MigrationStep {
        match snapshot {
            Some(index) => if on_disk is None || on_disk->0 < index {
                MigrationStep::SaveSnapshot
            } else {
                MigrationStep::SetAside
            },
            None => MigrationStep::SetAside,
        }
    }

    pub open spec fn next_of(self, outcome: StepOutcome) -> MigrationStep {
        match self {
            MigrationStep::SaveSnapshot => if outcome == StepOutcome::Succeeded {
                MigrationStep::SetAside
            } else {
                MigrationStep::Failed
            },
            MigrationStep::SetAside => if outcome == StepOutcome::Succeeded {
                MigrationStep::Rewrite
            } else {
                MigrationStep::Failed
            },
            MigrationStep::Rewrite => match outcome {
                StepOutcome::Succeeded => MigrationStep::Done,
                StepOutcome::OutOfSpace => MigrationStep::DropLegacy,
                StepOutcome::Failed => MigrationStep::PutBack,
            },
            MigrationStep::DropLegacy => if outcome == StepOutcome::Succeeded {
                MigrationStep::RewriteAgain
            } else {
                MigrationStep::Failed
            },
            MigrationStep::RewriteAgain => if outcome == StepOutcome::Succeeded {
                MigrationStep::Done
            } else {
                MigrationStep::Failed
            },
            MigrationStep::PutBack => MigrationStep::Failed,
            MigrationStep::Done => MigrationStep::Done,
            MigrationStep::Failed => MigrationStep::Failed,
        }
    }

    /// How many steps are left at most.
    pub open spec fn steps_left(self) -> nat {
        match self {
            MigrationStep::SaveSnapshot => 5,
            MigrationStep::SetAside => 4,
            MigrationStep::Rewrite => 3,
            MigrationStep::DropLegacy => 2,
            MigrationStep::RewriteAgain => 1,
            MigrationStep::PutBack => 1,
            MigrationStep::Done => 0,
            MigrationStep::Failed => 0,
        }
    }

    pub fn first(replay: &WalReplay, on_disk: Option<LogIndex>) -> (step: MigrationStep)
        ensures
            step == Self::first_of(
                match replay@.snapshot {
                    Some(s) => Some(s.last_index),
                    None => None,
                },
                on_disk,
            ),
    {
        if let Some(snapshot) = &replay.snapshot {
            let newer = match on_disk {
                Some(index) => index < snapshot.last_index,
                None => true,
            };
            if newer {
                return MigrationStep::SaveSnapshot;
            }
        }
        MigrationStep::SetAside
    }

    pub fn next(self, outcome: StepOutcome) -> (step: MigrationStep)
        ensures
            step == self.next_of(outcome),
    {
        let succeeded = match outcome {
            StepOutcome::Succeeded => true,
            _ => false,
        };
        match self {
            MigrationStep::SaveSnapshot => if succeeded {
                MigrationStep::SetAside
            } else {
                MigrationStep::Failed
            },
            MigrationStep::SetAside => if succeeded {
                MigrationStep::Rewrite
            } else {
                MigrationStep::Failed
            },
            MigrationStep::Rewrite => match outcome {
                StepOutcome::Succeeded => MigrationStep::Done,
                StepOutcome::OutOfSpace => MigrationStep::DropLegacy,
                StepOutcome::Failed => MigrationStep::PutBack,
            },
            MigrationStep::DropLegacy => if succeeded {
                MigrationStep::RewriteAgain
            } else {
                MigrationStep::Failed
            },
            MigrationStep::RewriteAgain => if succeeded {
                MigrationStep::Done
            } else {
                MigrationStep::Failed
            },
            MigrationStep::PutBack => MigrationStep::Failed,
            MigrationStep::Done => MigrationStep::Done,
            MigrationStep::Failed => MigrationStep::Failed,
        }
    }
}

/// A migration comes to an end, whatever the outcomes.
pub proof fn law_migration_ends(step: MigrationStep, outcome: StepOutcome)
    ensures
        step.steps_left() > 0 ==> step.next_of(outcome).steps_left() < step.steps_left(),
        step.steps_left() == 0 <==> step == MigrationStep::Done || step == MigrationStep::Failed,
{
}

/// The old log is deleted only when the volume is full; on any other failure of the first rewrite
/// it goes back under its own name.
pub proof fn law_migration_keeps_the_old_log(step: MigrationStep, outcome: StepOutcome)
    ensures
        step.next_of(outcome) == MigrationStep::DropLegacy <==> step == MigrationStep::Rewrite
            && outcome == StepOutcome::OutOfSpace,
        step == MigrationStep::Rewrite && outcome == StepOutcome::Failed ==> step.next_of(outcome)
            == MigrationStep::PutBack,
{
}

/// The log file of a node is named after its number.
pub proof fn law_log_files_are_named_by_node(id: NodeId, other: NodeId)
    ensures
        wal_name(id) == "node-"@ + decimal(id as nat) + ".wal"@,
        wal_name(id) == wal_name(other) ==> id == other,
{
    if wal_name(id) == wal_name(other) {
        let (a, b) = (decimal(id as nat), decimal(other as nat));
        let (n, m) = (wal_name(id), wal_name(other));
        let head = "node-"@.len() as int;
        let tail = ".wal"@.len() as int;
        assert(n.subrange(head, n.len() - tail) =~= a);
        assert(m.subrange(head, m.len() - tail) =~= b);
        lemma_decimal_reads_back(id);
        lemma_decimal_reads_back(other);
    }
}

/// A node that does not lead names the leader that it follows, with the address that is registered
/// for it.
pub proof fn law_leader_is_named_to_callers(handle: HandleView, leader: NodeId)
    ensures
        handle.node.role == (RoleView::Follower { leader_id: Some(leader) }) ==> {
            &&& not_leader_error(handle) matches RaftKvError::NotLeader { leader_id, leader_addr }
            &&& leader_id == Some(leader)
            &&& handle.http_peers.contains_key(leader) ==> leader_addr == Some(
                handle.http_peers[leader],
            )
            &&& !handle.http_peers.contains_key(leader) ==> leader_addr is None
        },
        handle.node.role is Candidate || handle.node.role == (RoleView::Follower {
            leader_id: None,
        }) ==> not_leader_error(handle) == (RaftKvError::NotLeader {
            leader_id: None,
            leader_addr: None,
        }),
{
}

/// Every error says in words what it is, and which leader is known.
pub proof fn law_errors_in_words(id: NodeId, addr: Option<Seq<char>>)
    ensures
        (ErrorView::NotLeader { leader_id: Some(id), leader_addr: addr }).message()
            == "not the leader (leader id: Some("@ + decimal(id as nat) + "))"@,
        (ErrorView::NotLeader { leader_id: None, leader_addr: addr }).message()
            == "not the leader (leader id: None)"@,
        ErrorView::ProposalDropped.message() == "proposal dropped: leadership lost before commit"@,
        ErrorView::Timeout.message() == "timed out waiting for quorum"@,
{
}

/// A migration saves the snapshot of the old log exactly if none as new is on disk, and begins with
/// setting the log aside otherwise.
pub proof fn law_migration_saves_a_newer_snapshot(
    snapshot: Option<LogIndex>,
    on_disk: Option<LogIndex>,
)
    ensures
        MigrationStep::first_of(snapshot, on_disk) == MigrationStep::SaveSnapshot <==> (
        snapshot is Some && (on_disk is None || on_disk->0 < snapshot->0)),
        MigrationStep::first_of(snapshot, on_disk) == MigrationStep::SaveSnapshot
            || MigrationStep::first_of(snapshot, on_disk) == MigrationStep::SetAside,
{
}

/// Each step of a migration is taken only when the one before it has succeeded: the log is set
/// aside after the snapshot is saved, the new log is written after the old one is out of the way,
/// and the migration is done once the new log is written, and only then. A migration that cannot
/// go on, and has nothing left to put back, has failed.
pub proof fn law_migration_goes_step_by_step(step: MigrationStep, outcome: StepOutcome)
    ensures
        ({
            let next = step.next_of(outcome);
            let ok = outcome == StepOutcome::Succeeded;
            &&& next == MigrationStep::SetAside <==> step == MigrationStep::SaveSnapshot && ok
            &&& next == MigrationStep::Rewrite <==> step == MigrationStep::SetAside && ok
            &&& next == MigrationStep::PutBack <==> step == MigrationStep::Rewrite && outcome
                == StepOutcome::Failed
            &&& next == MigrationStep::RewriteAgain <==> step == MigrationStep::DropLegacy && ok
            &&& next == MigrationStep::Done <==> step == MigrationStep::Done || ok && (step
                == MigrationStep::Rewrite || step == MigrationStep::RewriteAgain)
            &&& next != MigrationStep::SaveSnapshot
            &&& next == MigrationStep::Failed <==> step == MigrationStep::Failed || step
                == MigrationStep::PutBack || !ok && (step == MigrationStep::SaveSnapshot || step
                == MigrationStep::SetAside || step == MigrationStep::DropLegacy || step
                == MigrationStep::RewriteAgain)
        }),
{
}

/// A write that is accepted stands at the end of the leader's log, in its term, as the JSON text of
/// its command; it is persisted, and somebody waits for it. Nothing is applied yet. A write that is
/// not accepted leaves no trace, and only a node that does not lead turns one down.
pub proof fn law_accepted_write_stands_in_the_log(
    before: HandleView,
    command: CommandView,
    after: HandleView,
    proposed: Result<(LogIndex, Ready), RaftKvError>,
)
    requires
        RaftKv::accepted(before, command, after, proposed),
        before.node.log.base + before.node.log.entries.len() + 1 < u64::MAX,
    ensures
        proposed is Ok <==> before.node.role is Leader,
        proposed is Err ==> after == before,
        proposed matches Ok((index, ready)) ==> {
            let entry = LogEntryView {
                index,
                term: before.node.term,
                entry_type: EntryType::Normal,
                command: json_text(command_json(command)),
            };
            &&& index == before.node.log.base + before.node.log.entries.len() + 1
            &&& after.node.log.entries == before.node.log.entries.push(entry)
            &&& after.node.log.base == before.node.log.base
            &&& ready@.to_persist == before.node.ready.to_persist.push(entry)
            &&& ready@.to_apply == before.node.ready.to_apply
            &&& after.pending == before.pending.insert(index, before.node.term)
            &&& after.store == before.store
            &&& after.applied == before.applied
            &&& after.node.term == before.node.term
            &&& after.node.commit == before.node.commit
            &&& after.node.role is Leader
        },
{
    if let Ok((index, ready)) = proposed {
        let message = MessageView::Propose { command: command_bytes(command) };
        let waiting = before.waiting_for(index);
        let (timeout, order) = choose|timeout: u32, order: Seq<NodeId>|
            waiting.node.may_draw(timeout) && enumerates(order, waiting.node.contacts(message))
                && #[trigger] waiting.node.stepped(message, timeout, order, after.node, ready@);
        assert(waiting.node.stepped(message, timeout, order, after.node, ready@));
    }
}

} // verus!
