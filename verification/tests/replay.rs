//! Folding log records into the state of a restarted node.
use raft_kv::message::{EntryType, LogEntry, Snapshot};
use raft_kv::replay::{replay_entries, replay_hard_state, replay_snapshot, WalReplay};
use raft_kv::wal::WalRecord;

fn entry(index: u64, term: u64) -> WalRecord {
    WalRecord::Entry(LogEntry {
        index,
        term,
        entry_type: EntryType::Normal,
        command: vec![],
    })
}

fn hard_state(term: u64, voted_for: Option<u64>) -> WalRecord {
    WalRecord::HardState {
        term,
        voted_for,
        commit: 0,
    }
}

fn snapshot(last_index: u64, last_term: u64, data: &[u8]) -> WalRecord {
    WalRecord::Snapshot {
        last_index,
        last_term,
        data: data.to_vec(),
    }
}

fn indexes(entries: &[LogEntry]) -> Vec<u64> {
    entries.iter().map(|e| e.index).collect()
}

#[test]
fn replay_takes_the_last_hard_state() {
    let replay = WalReplay::from_records(vec![
        hard_state(1, Some(2)),
        hard_state(2, None),
        hard_state(3, Some(1)),
    ]);
    assert_eq!(replay.term, 3);
    assert_eq!(replay.voted_for, Some(1));
}

#[test]
fn replay_of_an_empty_wal_has_no_state() {
    let replay = WalReplay::from_records(vec![]);
    assert_eq!(replay.term, 0);
    assert_eq!(replay.voted_for, None);
    assert!(!replay.has_state, "a fresh node has nothing to restore");
}

#[test]
fn node_handle_replay_entries_basic_sequence() {
    let replay = WalReplay::from_records(vec![entry(1, 1), entry(2, 1), entry(3, 1)]);
    assert_eq!(replay.entries.len(), 3);
    assert_eq!(replay.entries[0].index, 1);
    assert_eq!(replay.entries[2].index, 3);

    let records = vec![entry(1, 1), entry(2, 1), entry(3, 1)];
    let entries = replay_entries(&records);
    assert_eq!(entries.len(), 3);
    assert_eq!(entries[0].index, 1);
    assert_eq!(entries[2].index, 3);
}

#[test]
fn node_handle_replay_entries_conflict_truncates_forward() {
    // Indexes 2 and 3 were overwritten by a new leader.
    let records = vec![
        entry(1, 1),
        entry(2, 1),
        entry(3, 1),
        entry(2, 2),
        entry(3, 2),
    ];
    let entries = replay_entries(&records);
    assert_eq!(entries.len(), 3);
    assert_eq!(entries[1].index, 2);
    assert_eq!(
        entries[1].term, 2,
        "conflict at index 2: term 2 must win over term 1"
    );
    assert_eq!(entries[2].term, 2, "entry 3 from term 2 must be kept");

    let replay = WalReplay::from_records(records);
    assert_eq!(replay.entries.len(), 3);
    assert_eq!(replay.entries[1].index, 2);
    assert_eq!(
        replay.entries[1].term, 2,
        "conflict at index 2: term 2 must win over term 1"
    );
    assert_eq!(
        replay.entries[2].term, 2,
        "entry 3 from term 2 must be kept"
    );
}

#[test]
fn replay_drops_entries_covered_by_a_snapshot_as_it_goes() {
    let replay = WalReplay::from_records(vec![
        hard_state(1, Some(2)),
        entry(1, 1),
        snapshot(5, 1, b""),
        entry(6, 2),
    ]);
    assert_eq!(replay.entries.len(), 1);
    assert_eq!(replay.entries[0].index, 6);
    assert!(replay.snapshot_in_wal, "the older layout must be flagged");
}

#[test]
fn replay_keeps_only_the_newest_snapshot() {
    let replay = WalReplay::from_records(vec![
        snapshot(10, 2, b"old"),
        entry(15, 3),
        snapshot(20, 3, b"new"),
        entry(21, 3),
    ]);
    let kept = replay.snapshot.as_ref().expect("a snapshot must survive");
    assert_eq!(kept.last_index, 20);
    assert_eq!(kept.last_term, 3);
    assert_eq!(kept.data, b"new", "the newest snapshot's data must win");
    assert_eq!(
        indexes(&replay.entries),
        vec![21],
        "entry 15 is covered by the newer snapshot"
    );
}

#[test]
fn replay_without_a_snapshot_has_no_base() {
    let replay = WalReplay::from_records(vec![hard_state(1, None)]);
    assert!(replay.snapshot.is_none());
    assert_eq!(replay.snapshot_index(), 0);
}

#[test]
fn an_adopted_snapshot_wins_only_when_it_is_newer() {
    let mut replay = WalReplay::from_records(vec![
        snapshot(20, 3, b"wal"),
        entry(21, 3),
        entry(31, 3),
    ]);
    replay.adopt(Snapshot {
        last_index: 10,
        last_term: 2,
        data: b"older file".to_vec(),
    });
    assert_eq!(replay.snapshot.as_ref().unwrap().data, b"wal");

    replay.adopt(Snapshot {
        last_index: 30,
        last_term: 4,
        data: b"newer file".to_vec(),
    });
    assert_eq!(replay.snapshot.as_ref().unwrap().data, b"newer file");
    assert_eq!(
        indexes(&replay.entries),
        vec![31],
        "adopting a newer snapshot drops the entries it covers"
    );
}

#[test]
fn replay_hard_state_returns_last_record() {
    let records = vec![
        hard_state(1, Some(2)),
        hard_state(2, None),
        hard_state(3, Some(1)),
    ];
    let (term, voted_for) = replay_hard_state(&records);
    assert_eq!(term, 3);
    assert_eq!(voted_for, Some(1));
}

#[test]
fn replay_hard_state_empty_returns_zero() {
    let (term, voted_for) = replay_hard_state(&[]);
    assert_eq!(term, 0);
    assert_eq!(voted_for, None);
}

#[test]
fn replay_entries_ignores_non_entry_records() {
    let records = vec![
        hard_state(1, Some(2)),
        entry(1, 1),
        snapshot(5, 1, b""),
        entry(6, 2),
    ];
    let entries = replay_entries(&records);
    // Snapshots do not filter entries in this pass.
    assert_eq!(entries.len(), 2);
    assert_eq!(entries[0].index, 1);
    assert_eq!(entries[1].index, 6);
}

#[test]
fn replay_snapshot_returns_last() {
    let records = vec![snapshot(10, 2, b""), snapshot(20, 3, b"")];
    let (idx, term) = replay_snapshot(&records);
    assert_eq!(idx, 20);
    assert_eq!(term, 3);
}

#[test]
fn replay_snapshot_none_returns_zero() {
    let (idx, term) = replay_snapshot(&[hard_state(1, None)]);
    assert_eq!(idx, 0);
    assert_eq!(term, 0);
}

#[test]
fn the_commit_index_of_a_replay_never_goes_down() {
    let state = |commit| WalRecord::HardState {
        term: 1,
        voted_for: None,
        commit,
    };
    let replay = WalReplay::from_records(vec![state(3), state(9), state(4)]);
    assert_eq!(replay.commit, 9);
}

#[test]
fn the_records_of_a_replay_reproduce_it() {
    let mut replay = WalReplay::from_records(vec![
        WalRecord::HardState {
            term: 4,
            voted_for: Some(2),
            commit: 7,
        },
        snapshot(5, 3, b"{}"),
        entry(6, 4),
        entry(7, 4),
    ]);
    let records = replay.to_records();
    assert_eq!(records.len(), 3);
    let mut again = WalReplay::from_records(records);
    again.adopt(replay.snapshot.take().unwrap());
    assert_eq!(again.term, 4);
    assert_eq!(again.voted_for, Some(2));
    assert_eq!(again.commit, 7);
    assert_eq!(again.snapshot_position(), (5, 3));
    assert_eq!(again.entries, replay.entries);
    assert!(!again.snapshot_in_wal);
}
