//! The node as its host drives it, with the disk in memory.
use std::collections::{BTreeMap, HashMap};

use raft_kv::config::Config;
use raft_kv::embedded::{needs_migration, MigrationStep, StepOutcome};
use raft_kv::events::Event;
use raft_kv::handle::disk::{CompactionStep, InstallStep};
use raft_kv::handle::{
    should_compact, NodeHandle, NodeHandleConfig, PeerSnapshot, DEFAULT_COMPACTION_THRESHOLD,
    SNAPSHOTS_KEPT,
};
use raft_kv::kv::{Command, KvStore};
use raft_kv::message::{
    ConfChangeCmd, ConfChangeOp, EntryType, HardState, InstallSnapshot, LogEntry, Message, Snapshot,
};
use raft_kv::node::{Ready, Role};
use raft_kv::replay::WalReplay;
use raft_kv::snapshot::{SnapshotFile, SnapshotStore};
use raft_kv::wal::{marker, Wal, WalRecord};

/// A data directory in memory.
struct Disk {
    log: Vec<u8>,
    snapshots: Vec<SnapshotFile>,
}

impl Disk {
    fn new() -> Disk {
        Disk {
            log: marker(),
            snapshots: vec![],
        }
    }

    fn wal(&self) -> Wal {
        Wal::open(&self.log).unwrap().wal
    }

    fn append(&mut self, records: &[WalRecord]) {
        let bytes = self.wal().append_batch(records);
        self.log.extend(bytes);
    }

    fn replay(&self) -> WalReplay {
        let mut replay = WalReplay::default();
        for record in Wal::open(&self.log).unwrap().records {
            replay.push(record);
        }
        replay
    }

    fn save(&mut self, store: &SnapshotStore, snapshot: &Snapshot) {
        self.snapshots.push(store.save(snapshot));
    }

    fn has(&self, name: &str) -> bool {
        self.snapshots.iter().any(|file| file.path == name)
    }
}

/// A whole compaction, the way a host carries it out.
fn compact(handle: &mut NodeHandle, disk: &mut Disk, index: u64) {
    let Some(snapshot) = handle.try_compact(index) else {
        return;
    };
    disk.save(&handle.snapshots, &snapshot);
    let records = handle.rotate(&snapshot);
    let mut wal = disk.wal();
    disk.log = wal.rewrite(&records);
    let names: Vec<String> = disk.snapshots.iter().map(|f| f.path.clone()).collect();
    let doomed = handle.snapshots.prune(&names, SNAPSHOTS_KEPT);
    disk.snapshots.retain(|f| !doomed.contains(&f.path));
    handle.finish_compaction(snapshot);
}

fn handle_with(replay: WalReplay, id: u64, peers: Vec<u64>, threshold: u64) -> NodeHandle {
    NodeHandle::new(NodeHandleConfig {
        raft: Config::new(id, peers),
        replay,
        kv: KvStore::default(),
        snapshots: SnapshotStore::new("data".to_string()),
        compaction_threshold: threshold,
    })
}

fn make_handle(id: u64, peers: Vec<u64>) -> NodeHandle {
    handle_with(WalReplay::default(), id, peers, 0)
}

fn restarted(replay: WalReplay) -> NodeHandle {
    handle_with(replay, 1, vec![2, 3], 50)
}

fn board(pairs: &[(&str, &str)]) -> Vec<u8> {
    let mut map: BTreeMap<String, String> = BTreeMap::new();
    for (key, value) in pairs {
        map.insert(key.to_string(), value.to_string());
    }
    serde_json::to_vec(&map).unwrap()
}

fn pixel(i: u64, column: &str, value: &str) -> Vec<u8> {
    Command::Put {
        key: format!("px:{i:03}:{column}"),
        value: value.to_string(),
    }
    .encode()
}

fn entry(index: u64, term: u64, command: Vec<u8>) -> LogEntry {
    LogEntry {
        index,
        term,
        entry_type: EntryType::Normal,
        command,
    }
}

#[test]
fn node_handle_propose_returns_none_if_not_leader() {
    let mut handle = make_handle(1, vec![2, 3]);
    assert!(
        handle.propose(b"set foo bar".to_vec()).is_none(),
        "follower must not accept proposals"
    );
    assert!(handle.pending_proposals.is_empty());
}

#[test]
fn node_handle_drain_clears_all_pending_proposals() {
    let mut handle = make_handle(1, vec![2, 3]);
    handle.pending_proposals.insert(1, 0);
    handle.pending_proposals.insert(2, 0);
    handle.drain_pending_proposals();
    assert!(
        handle.pending_proposals.is_empty(),
        "pending_proposals must be empty after drain"
    );
}

#[test]
fn node_handle_drain_if_lost_leadership_drains_when_not_leader() {
    let mut handle = make_handle(1, vec![2, 3]);
    handle.pending_proposals.insert(1, 0);
    let ready = Ready {
        hard_state: Some(HardState {
            term: 3,
            voted_for: Some(2),
            commit: 0,
        }),
        ..Default::default()
    };
    assert!(
        handle.drain_if_lost_leadership(&ready),
        "proposal must be drained on leadership loss"
    );
    assert!(handle.pending_proposals.is_empty());
}

#[test]
fn node_handle_drain_if_lost_leadership_noop_when_hard_state_absent() {
    let mut handle = make_handle(1, vec![2, 3]);
    handle.pending_proposals.insert(1, 0);
    let ready = Ready {
        hard_state: None,
        ..Default::default()
    };
    handle.drain_if_lost_leadership(&ready);
    assert_eq!(
        handle.pending_proposals.len(),
        1,
        "proposals must survive when no role change occurred"
    );
}

#[test]
fn node_handle_read_index_if_leader_returns_none_for_follower() {
    let handle = make_handle(1, vec![2, 3]);
    assert!(
        handle.read_index_if_leader().is_none(),
        "follower must return None for read_index"
    );
}

#[test]
fn node_handle_applied_watch_advances_on_entry_apply() {
    let mut handle = make_handle(1, vec![2, 3]);
    assert_eq!(handle.applied, 0, "initial applied index must be 0");

    let ready = Ready {
        entries_to_apply: vec![entry(1, 1, vec![]), entry(2, 1, vec![])],
        ..Default::default()
    };
    handle.persist(&ready);
    assert_eq!(
        handle.applied, 2,
        "applied watch must advance to max applied index"
    );
    assert!(handle.has_applied(2));
    assert!(!handle.has_applied(3));
}

#[test]
fn replay_after_compaction_reindexes_log_and_restores_kv() {
    let mut records: Vec<WalRecord> = (1..=60u64)
        .map(|i| WalRecord::Entry(entry(i, 1, vec![])))
        .collect();
    records.push(WalRecord::Snapshot {
        last_index: 50,
        last_term: 1,
        data: board(&[("px:001:001", "5"), ("px:002:002", "9")]),
    });

    let handle = handle_with(WalReplay::from_records(records), 1, vec![2, 3], 0);
    assert_eq!(handle.node.log.snapshot_index(), 50, "snapshot base must be 50");
    assert_eq!(
        handle.node.log.last_index(),
        60,
        "log must end at 60, not snapshot_base + every replayed entry"
    );
    assert_eq!(
        handle.node.log.term_at(60),
        Some(1),
        "entry 60 must remain addressable"
    );
    assert_eq!(
        handle.kv.get("px:001:001"),
        Some("5"),
        "KV must be rehydrated from the snapshot data on restart"
    );
    assert_eq!(handle.kv.get("px:002:002"), Some("9"));
}

#[test]
fn a_batch_straddling_the_threshold_still_compacts() {
    assert!(
        should_compact(52, 0, 50),
        "the boundary must be crossed, not landed on"
    );
    assert!(!should_compact(60, 52, 50));
    assert!(should_compact(102, 52, 50));
}

#[test]
fn compaction_does_not_fire_below_the_threshold() {
    assert!(!should_compact(49, 0, 50));
    assert!(should_compact(50, 0, 50), "exactly at the threshold counts");
    assert!(
        !should_compact(10, 50, 50),
        "a stale batch cannot underflow"
    );
}

#[test]
fn compacting_writes_a_snapshot_file_and_shrinks_the_wal() {
    let mut disk = Disk::new();
    let mut handle = handle_with(disk.replay(), 1, vec![2, 3], 50);
    let entries: Vec<LogEntry> = (1..=60u64)
        .map(|i| entry(i, 1, pixel(i, "001", "7")))
        .collect();
    for e in &entries {
        handle.node.log.append(e.clone());
    }
    handle.node.commit_index = 60;
    handle.node.last_applied = 60;
    for e in &entries {
        handle.kv.apply(&e.command).unwrap();
    }
    let records: Vec<WalRecord> = entries.iter().cloned().map(WalRecord::Entry).collect();
    disk.append(&records);
    let before = disk.log.len();
    handle.applied = 60;

    compact(&mut handle, &mut disk, 60);

    assert!(
        disk.has("snapshot-60.bin"),
        "the snapshot must land in its own file"
    );
    assert!(
        disk.log.len() < before,
        "the WAL must be rotated down, not appended to"
    );
    assert_eq!(
        handle.node.log.snapshot_index(),
        60,
        "the in-memory log is compacted to the snapshot base"
    );
    assert_eq!(handle.compaction_floor, 60);

    let mut replay = disk.replay();
    assert!(
        replay.entries.is_empty(),
        "the rotated WAL keeps no entry the snapshot covers"
    );
    assert!(
        !replay.snapshot_in_wal,
        "and no snapshot blob inside the WAL either"
    );
    let store = SnapshotStore::new("data".to_string());
    replay.adopt(store.load_latest(&disk.snapshots).expect("a snapshot file"));

    let again = restarted(replay);
    assert_eq!(again.node.log.snapshot_index(), 60);
    assert_eq!(
        again.kv.get("px:060:001"),
        Some("7"),
        "the state machine is rebuilt from the snapshot file"
    );
}

#[test]
fn a_restart_recovers_the_commit_index_and_re_applies_above_the_snapshot() {
    let mut records = vec![WalRecord::Snapshot {
        last_index: 50,
        last_term: 3,
        data: board(&[("px:001:001", "1")]),
    }];
    records.extend((51..=55u64).map(|i| WalRecord::Entry(entry(i, 3, pixel(i, "002", "9")))));
    records.push(WalRecord::HardState {
        term: 3,
        voted_for: Some(1),
        commit: 55,
    });

    let handle = restarted(WalReplay::from_records(records));
    assert_eq!(
        handle.node.commit_index, 55,
        "the durable commit index is recovered, not reset to the snapshot base"
    );
    assert_eq!(
        handle.kv.get("px:001:001"),
        Some("1"),
        "state up to the snapshot comes from the snapshot"
    );
    assert_eq!(
        handle.kv.get("px:055:002"),
        Some("9"),
        "and the committed entries above it are re-applied from the WAL"
    );
    assert_eq!(
        handle.applied, 55,
        "a linearizable read must not be satisfied by a stale wait"
    );
}

#[test]
fn a_leader_without_a_snapshot_in_memory_takes_one_for_a_lagging_peer() {
    let mut disk = Disk::new();
    let mut handle = handle_with(disk.replay(), 1, vec![2, 3], 5_000);
    for index in 1..=20u64 {
        handle
            .node
            .log
            .append(entry(index, 1, pixel(index, "001", "7")));
    }
    handle.node.commit_index = 20;
    handle.node.last_applied = 20;
    handle.node.log.compact(10, 1);
    handle.kv.apply(&pixel(20, "001", "7")).unwrap();
    handle.applied = 20;
    assert!(handle.last_snapshot.is_none());

    let PeerSnapshot::Take(index) = handle.snapshot_for_peers() else {
        panic!("there is no snapshot on hand");
    };
    compact(&mut handle, &mut disk, index);
    let PeerSnapshot::OnHand(snap) = handle.snapshot_for_peers() else {
        panic!("a snapshot must be produced on demand");
    };
    assert!(
        snap.last_index >= 10,
        "the snapshot must cover the compacted prefix the peer is missing"
    );
    assert!(
        disk.has(&format!("snapshot-{}.bin", snap.last_index)),
        "and it must be durable before it is sent"
    );
}

#[test]
fn step_rpc_answers_an_install_snapshot() {
    let mut handle = make_handle(1, vec![2, 3]);
    let (response, ready) = handle.step_rpc(Message::InstallSnapshot {
        from: 2,
        msg: InstallSnapshot {
            term: 5,
            leader_id: 2,
            snapshot: Snapshot {
                last_index: 30,
                last_term: 5,
                data: board(&[("px:001:001", "7")]),
            },
        },
    });
    let left = handle.persist(&ready);
    let installed = handle
        .apply_snapshot(left.snapshot.expect("a snapshot to apply"))
        .expect("the data decodes");
    let records = installed.records;
    assert_eq!(installed.event, Event::SnapshotApplied);

    match response {
        Some(Message::InstallSnapshotResponse { msg, .. }) => {
            assert!(msg.success);
            assert_eq!(
                msg.last_index, 30,
                "the follower reports the snapshot it installed"
            );
        }
        other => panic!("InstallSnapshot must produce a reply, got {other:?}"),
    }
    assert_eq!(
        handle.kv.get("px:001:001"),
        Some("7"),
        "and the snapshot really is applied"
    );
    assert_eq!(
        records,
        vec![WalRecord::HardState {
            term: 5,
            voted_for: None,
            commit: 30
        }]
    );
    assert_eq!(handle.applied, 30);
    assert_eq!(handle.compaction_floor, 30);
}

#[test]
fn migrating_moves_the_wal_snapshot_into_a_file_and_shrinks_the_log() {
    let mut disk = Disk::new();
    let store = SnapshotStore::new("data".to_string());
    let data = board(&[("px:001:001", "7")]);
    disk.append(&[WalRecord::HardState {
        term: 4,
        voted_for: Some(1),
        commit: 51,
    }]);
    for index in 1..=50 {
        disk.append(&[WalRecord::Entry(entry(index, 4, pixel(index, "001", "7")))]);
    }
    disk.append(&[WalRecord::Snapshot {
        last_index: 50,
        last_term: 4,
        data: data.clone(),
    }]);
    disk.append(&[WalRecord::Entry(entry(51, 4, pixel(51, "001", "7")))]);
    let before = disk.log.len();

    let replay = disk.replay();
    assert!(replay.snapshot_in_wal, "the old layout must be detected");
    assert!(needs_migration(&disk.wal(), &replay));

    let names: Vec<String> = disk.snapshots.iter().map(|f| f.path.clone()).collect();
    let mut step = MigrationStep::first(&replay, store.latest_index(&names));
    assert_eq!(step, MigrationStep::SaveSnapshot);
    let mut legacy: Option<Vec<u8>> = None;
    while step != MigrationStep::Done {
        match step {
            MigrationStep::SaveSnapshot => disk.save(&store, replay.snapshot.as_ref().unwrap()),
            MigrationStep::SetAside => legacy = Some(std::mem::take(&mut disk.log)),
            MigrationStep::Rewrite => {
                let mut wal = Wal::open(legacy.as_ref().unwrap()).unwrap().wal;
                disk.log = wal.rewrite(&replay.to_records());
            }
            other => panic!("unexpected step {other:?}"),
        }
        step = step.next(StepOutcome::Succeeded);
    }

    assert_eq!(
        store.load_latest(&disk.snapshots).unwrap().data,
        data,
        "the snapshot moves into a file of its own"
    );
    assert!(
        legacy.is_some(),
        "the old file is renamed aside, not deleted"
    );
    assert!(
        disk.log.len() < before,
        "and the live WAL is rewritten down"
    );

    let mut replay = disk.replay();
    assert!(!replay.snapshot_in_wal);
    assert_eq!(replay.term, 4);
    assert_eq!(
        replay.commit, 51,
        "the persisted commit index must survive the rotation too"
    );
    assert_eq!(
        replay.voted_for,
        Some(1),
        "a node that comes back without its vote can vote twice in one term"
    );
    replay.adopt(store.load_latest(&disk.snapshots).unwrap());
    assert_eq!(replay.snapshot_index(), 50);
    assert_eq!(
        replay.entries.iter().map(|e| e.index).collect::<Vec<_>>(),
        vec![51],
        "only the entries the snapshot does not cover survive"
    );
}

/// A handle that leads term 1, with nothing committed yet.
fn leader() -> NodeHandle {
    let mut handle = make_handle(1, vec![2, 3]);
    while !matches!(handle.node.role, Role::Candidate { .. }) {
        handle.tick();
    }
    handle.step(Message::RequestVoteResponse {
        from: 2,
        msg: raft_kv::message::RequestVoteResponse {
            term: handle.node.current_term,
            vote_granted: true,
        },
    });
    assert!(handle.is_leader());
    handle
}

#[test]
fn a_committed_proposal_is_applied_announced_and_resolved() {
    let mut handle = leader();
    let term = handle.node.current_term;
    let command = Command::Put {
        key: "city".to_string(),
        value: "monterrey".to_string(),
    };
    let (index, ready) = handle.propose(command.encode()).expect("the leader accepts");
    assert_eq!(index, 2, "behind the no-op");
    let left = handle.persist(&ready);
    assert_eq!(left.records.len(), 1);
    assert!(left.committed.is_empty());
    assert_eq!(handle.pending_proposals.get(&2), Some(&term));

    let ready = handle.step(Message::AppendEntriesResponse {
        from: 2,
        msg: raft_kv::message::AppendEntriesResponse {
            term,
            success: true,
            match_index: 2,
        },
    });
    let left = handle.persist(&ready);
    assert_eq!(
        left.records,
        vec![WalRecord::HardState {
            term,
            voted_for: Some(1),
            commit: 2
        }]
    );
    assert_eq!(left.committed, vec![2]);
    assert_eq!(
        left.events,
        vec![Event::Put {
            key: "city".to_string(),
            value: "monterrey".to_string()
        }]
    );
    assert_eq!(left.compact, None);
    assert_eq!(handle.kv.get("city"), Some("monterrey"));
    assert_eq!(handle.applied, 2);
    assert_eq!(handle.read_index_if_leader(), Some(2));
    assert!(handle.pending_proposals.is_empty());
}

/// A leader of term 1 with a write at index 2 that nobody has acknowledged yet.
fn waiting_leader() -> NodeHandle {
    let mut handle = leader();
    let command = Command::Put {
        key: "city".to_string(),
        value: "monterrey".to_string(),
    };
    let (index, ready) = handle.propose(command.encode()).unwrap();
    assert_eq!(index, 2);
    assert!(handle.persist(&ready).committed.is_empty());
    handle
}

fn append(term: u64, prev: (u64, u64), entries: Vec<LogEntry>, commit: u64) -> Message {
    Message::AppendEntries {
        from: 2,
        msg: raft_kv::message::AppendEntries {
            term,
            leader_id: 2,
            prev_log_index: prev.0,
            prev_log_term: prev.1,
            entries,
            leader_commit: commit,
        },
    }
}

#[test]
fn a_write_whose_place_another_leader_takes_is_not_acknowledged() {
    let mut handle = waiting_leader();
    let term = handle.node.current_term;
    let other = entry(2, term + 1, pixel(1, "001", "7"));
    let (_, ready) = handle.step_rpc(append(term + 1, (1, term), vec![other], 2));
    assert!(!handle.is_leader());
    assert_eq!(ready.entries_to_apply.last().unwrap().index, 2);
    let left = handle.persist(&ready);
    assert!(left.committed.is_empty(), "the entry at the index is somebody else's");
    assert_eq!(left.dropped, vec![2]);
    assert!(handle.pending_proposals.is_empty());
    assert_eq!(handle.kv.get("city"), None);
    assert_eq!(handle.kv.get("px:001:001"), Some("7"));
}

#[test]
fn a_write_that_the_next_leader_commits_is_acknowledged() {
    let mut handle = waiting_leader();
    let term = handle.node.current_term;
    let noop = entry(3, term + 1, vec![]);
    let (_, ready) = handle.step_rpc(append(term + 1, (2, term), vec![noop], 3));
    assert!(!handle.is_leader());
    let left = handle.persist(&ready);
    assert_eq!(left.committed, vec![2]);
    assert!(left.dropped.is_empty());
    assert_eq!(handle.kv.get("city"), Some("monterrey"));
}

#[test]
fn a_leader_that_removes_itself_still_answers_for_it() {
    let mut handle = leader();
    let term = handle.node.current_term;
    let (index, ready) = handle
        .propose_conf_change(ConfChangeOp::Remove, 1, None, None)
        .unwrap();
    handle.persist(&ready);
    let ready = handle.step(Message::AppendEntriesResponse {
        from: 2,
        msg: raft_kv::message::AppendEntriesResponse {
            term,
            success: true,
            match_index: index,
        },
    });
    assert!(!handle.is_leader(), "it steps down in the same term");
    let left = handle.persist(&ready);
    assert_eq!(left.committed, vec![index]);
    assert!(handle.drain_if_lost_leadership(&ready));
}

#[test]
fn the_hard_state_comes_first_in_a_batch() {
    let mut handle = make_handle(1, vec![2, 3]);
    let ready = Ready {
        hard_state: Some(HardState {
            term: 1,
            voted_for: None,
            commit: 0,
        }),
        entries_to_persist: vec![entry(1, 1, vec![]), entry(2, 1, vec![])],
        ..Default::default()
    };
    let left = handle.persist(&ready);
    assert_eq!(left.records.len(), 3);
    assert!(matches!(left.records[0], WalRecord::HardState { .. }));
    assert!(matches!(&left.records[1], WalRecord::Entry(e) if e.index == 1));
    assert!(matches!(&left.records[2], WalRecord::Entry(e) if e.index == 2));
}

#[test]
fn a_batch_past_the_threshold_asks_for_a_compaction() {
    let mut handle = handle_with(WalReplay::default(), 1, vec![2, 3], 2);
    let ready = Ready {
        entries_to_apply: vec![entry(1, 1, vec![]), entry(2, 1, vec![])],
        ..Default::default()
    };
    assert_eq!(handle.persist(&ready).compact, Some(2));
    assert_eq!(
        make_handle(1, vec![2]).compaction_threshold,
        DEFAULT_COMPACTION_THRESHOLD
    );
    assert_eq!(DEFAULT_COMPACTION_THRESHOLD, 5_000);
}

#[test]
fn no_ops_membership_changes_and_garbage_make_no_events() {
    let mut handle = make_handle(1, vec![2, 3]);
    let mut conf = entry(3, 1, Command::Delete { key: "a".to_string() }.encode());
    conf.entry_type = EntryType::ConfChange;
    let ready = Ready {
        entries_to_apply: vec![
            entry(1, 1, vec![]),
            entry(2, 1, b"garbage".to_vec()),
            conf,
            entry(4, 1, Command::Delete { key: "b".to_string() }.encode()),
        ],
        ..Default::default()
    };
    assert_eq!(
        handle.persist(&ready).events,
        vec![Event::Delete {
            key: "b".to_string()
        }]
    );
}

#[test]
fn a_membership_change_updates_the_address_books() {
    let mut handle = make_handle(1, vec![2]);
    handle.register_peers(
        HashMap::from([(2, "two:7".to_string())]),
        HashMap::from([(2, "two:8".to_string())]),
    );
    let change = |op, raft_addr: Option<&str>, http_addr: Option<&str>| Ready {
        membership_change: Some(ConfChangeCmd {
            op,
            node_id: 4,
            raft_addr: raft_addr.map(str::to_string),
            http_addr: http_addr.map(str::to_string),
        }),
        ..Default::default()
    };
    handle.persist(&change(ConfChangeOp::Add, Some("four:7"), None));
    assert_eq!(handle.peers.get(&4).map(String::as_str), Some("four:7"));
    assert_eq!(handle.http_peers.get(&4), None);
    handle.persist(&change(ConfChangeOp::Add, None, Some("four:8")));
    assert_eq!(handle.http_addr_of(Some(4)), Some("four:8".to_string()));
    handle.persist(&change(ConfChangeOp::Remove, None, None));
    assert!(!handle.peers.contains_key(&4));
    assert_eq!(handle.http_addr_of(Some(4)), None);
    assert_eq!(handle.http_addr_of(Some(2)), Some("two:8".to_string()));
}

#[test]
fn messages_are_routed_to_known_peers_only() {
    let mut handle = leader();
    handle.register_peers(HashMap::from([(3, "three:7".to_string())]), HashMap::new());
    let (_, ready) = handle.propose(vec![1]).unwrap();
    assert_eq!(ready.messages.len(), 2);
    let routed = handle.route(ready.messages);
    assert_eq!(routed.len(), 1);
    assert_eq!(routed[0].0, 3);
    assert_eq!(routed[0].1, "three:7");
    assert!(matches!(routed[0].2, Message::AppendEntries { .. }));
}

#[test]
fn an_install_message_names_this_node_as_leader() {
    let handle = leader();
    let snapshot = Snapshot {
        last_index: 9,
        last_term: 1,
        data: vec![1, 2],
    };
    let follower = make_handle(1, vec![2, 3]);
    assert!(follower.install_message(snapshot.clone()).is_none());
    match handle.install_message(snapshot).unwrap() {
        Message::InstallSnapshot { from, msg } => {
            assert_eq!(from, 1);
            assert_eq!(msg.leader_id, 1);
            assert_eq!(msg.term, handle.node.current_term);
            assert_eq!(msg.snapshot.data, vec![1, 2]);
        }
        other => panic!("unexpected {other:?}"),
    }
}

#[test]
fn a_snapshot_that_does_not_decode_changes_nothing() {
    let mut handle = make_handle(1, vec![2, 3]);
    handle.kv.apply(&pixel(1, "001", "7")).unwrap();
    let installed = handle.apply_snapshot(Snapshot {
        last_index: 9,
        last_term: 1,
        data: b"not a store".to_vec(),
    });
    assert!(installed.is_none(), "and nobody is told");
    assert_eq!(handle.kv.get("px:001:001"), Some("7"));
    assert_eq!(handle.applied, 0);
    assert_eq!(handle.node.log.snapshot_index(), 0);
}

#[test]
fn no_compaction_beyond_what_the_store_has_reached() {
    let mut handle = make_handle(1, vec![2, 3]);
    assert!(handle.try_compact(10).is_none(), "nothing is applied yet");
    for index in 1..=5u64 {
        handle.node.log.append(entry(index, 2, vec![]));
    }
    handle.node.commit_index = 5;
    handle.node.last_applied = 5;
    handle.applied = 3;
    let snapshot = handle.try_compact(10).expect("up to the applied index");
    assert_eq!((snapshot.last_index, snapshot.last_term), (3, 2));
    assert_eq!(snapshot.data, b"{}");
    let records = handle.rotate(&snapshot);
    assert_eq!(records.len(), 3, "the hard state and the two entries left");
}

#[test]
fn a_learner_handle_starts_without_a_vote() {
    let handle = NodeHandle::new_learner(NodeHandleConfig {
        raft: Config::new(4, vec![1, 2, 3]),
        replay: WalReplay::default(),
        kv: KvStore::default(),
        snapshots: SnapshotStore::new("data".to_string()),
        compaction_threshold: 0,
    });
    assert!(!handle.node.is_voter);
    assert_eq!(handle.role_status(), (false, None));
    assert_eq!(handle.leader_id(), None);
}

#[test]
fn the_log_is_rotated_only_after_the_snapshot_is_saved() {
    let after = |outcomes: &[bool]| {
        outcomes
            .iter()
            .fold(CompactionStep::first(), |step, ok| step.next(*ok))
    };
    assert_eq!(after(&[]), CompactionStep::Save);
    assert_eq!(after(&[false]), CompactionStep::Abandoned);
    assert_eq!(after(&[true]), CompactionStep::Rotate);
    assert_eq!(after(&[true, false]), CompactionStep::Abandoned);
    assert_eq!(after(&[true, true]), CompactionStep::Prune);
    assert_eq!(after(&[true, true, false]), CompactionStep::Finish);
    assert_eq!(after(&[true, true, true, true]), CompactionStep::Done);
    assert_eq!(after(&[false, true, true]), CompactionStep::Abandoned);
}

#[test]
fn an_installed_snapshot_is_announced_and_the_log_rewritten_only_once_saved() {
    let after = |outcomes: &[bool]| {
        outcomes
            .iter()
            .fold(InstallStep::first(), |step, ok| step.next(*ok))
    };
    assert_eq!(after(&[]), InstallStep::Apply);
    assert_eq!(after(&[false]), InstallStep::Refused);
    assert_eq!(after(&[true]), InstallStep::Save);
    assert_eq!(after(&[true, false]), InstallStep::Announce);
    assert_eq!(after(&[true, true]), InstallStep::Rewrite);
    assert_eq!(after(&[true, true, false]), InstallStep::Announce);
    assert_eq!(after(&[true, true, true, true]), InstallStep::Done);
}
