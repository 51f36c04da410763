//! Snapshot files and the names they are kept under.
use raft_kv::message::{LogIndex, Snapshot};
use raft_kv::snapshot::{SnapshotError, SnapshotFile, SnapshotStore, HEADER_LEN};

fn snapshot(last_index: LogIndex, data: &[u8]) -> Snapshot {
    Snapshot {
        last_index,
        last_term: 3,
        data: data.to_vec(),
    }
}

fn store() -> SnapshotStore {
    SnapshotStore::new("data".to_string())
}

fn names(list: &[&str]) -> Vec<String> {
    list.iter().map(|n| n.to_string()).collect()
}

#[test]
fn a_saved_snapshot_round_trips() {
    let store = store();
    assert!(
        store.load_latest(&[]).is_none(),
        "empty dir, no snapshot"
    );

    let file = store.save(&snapshot(50, b"{\"px:1:1\":\"7\"}"));
    let saved = file.path.clone();
    let loaded = store
        .load_latest(&[file])
        .expect("the snapshot must load");
    assert_eq!(loaded.last_index, 50);
    assert_eq!(loaded.last_term, 3);
    assert_eq!(loaded.data, b"{\"px:1:1\":\"7\"}");
    assert_eq!(saved, "snapshot-50.bin");
    assert_eq!(store.latest_index(&[saved]), Some(50));
}

#[test]
fn the_newest_snapshot_wins_and_a_damaged_one_is_skipped() {
    let store = store();
    let mut files = vec![
        store.save(&snapshot(50, b"older")),
        store.save(&snapshot(100, b"newer")),
    ];
    assert_eq!(store.load_latest(&files).unwrap().data, b"newer");

    let last = files[1].contents.len() - 1;
    files[1].contents[last] ^= 0xFF;
    assert_eq!(store.load_latest(&files).unwrap().data, b"older");
}

#[test]
fn prune_keeps_the_newest_and_sweeps_temp_files() {
    let store = store();
    let mut left = names(&[
        "snapshot-10.bin",
        "snapshot-20.bin",
        "snapshot-30.bin",
        "snapshot-40.bin",
        "snapshot-99.bin.tmp",
    ]);

    let doomed = store.prune(&left, 2);
    left.retain(|name| !doomed.contains(name));
    left.sort();
    assert_eq!(left, vec!["snapshot-30.bin", "snapshot-40.bin"]);
}

#[test]
fn pruning_fewer_than_are_kept_deletes_nothing() {
    let doomed = store().prune(&names(&["snapshot-1.bin", "node-1.wal"]), 2);
    assert!(doomed.is_empty());
}

#[test]
fn the_listing_is_newest_first_and_skips_other_files() {
    let listed = store().list(&names(&[
        "snapshot-7.bin",
        "node-1.wal",
        "snapshot-1000.bin",
        "snapshot-x.bin",
        "snapshot-.bin",
        "snapshot-20.bin",
        "snapshot-20.bin.tmp",
        "snapshot-99999999999999999999.bin",
    ]));
    let indexes: Vec<u64> = listed.iter().map(|(index, _)| *index).collect();
    assert_eq!(indexes, vec![1000, 20, 7]);
    assert_eq!(listed[0].1, "snapshot-1000.bin");
}

#[test]
fn a_snapshot_name_reads_back() {
    for index in [0u64, 9, 10, 12345, u64::MAX] {
        let name = SnapshotStore::file_name(index);
        assert_eq!(name, format!("snapshot-{index}.bin"));
        assert_eq!(SnapshotStore::named_index(&name), Some(index));
    }
    assert_eq!(SnapshotStore::named_index("snapshot-+5.bin"), Some(5));
    assert_eq!(SnapshotStore::named_index("snapshot-007.bin"), Some(7));
    assert_eq!(SnapshotStore::named_index("snapshot--5.bin"), None);
    assert_eq!(SnapshotStore::named_index("snapshot-.bi"), None);
}

fn reason(bytes: &[u8]) -> &'static str {
    match Snapshot::from_file("here", bytes) {
        Err(SnapshotError::Corrupt { path, reason }) => {
            assert_eq!(path, "here");
            reason
        }
        Ok(_) => panic!("the file must not be readable"),
    }
}

#[test]
fn each_defect_of_a_file_is_named() {
    let good = snapshot(5, b"abc").to_file();
    assert_eq!(good.len(), HEADER_LEN + 3);
    assert_eq!(&good[..8], b"RKVSNAP\x01");
    assert_eq!(&good[8..16], &5u64.to_le_bytes());
    assert_eq!(&good[16..24], &3u64.to_le_bytes());
    assert_eq!(&good[24..28], &crc32fast::hash(b"abc").to_le_bytes());
    assert_eq!(&good[28..36], &3u64.to_le_bytes());

    assert_eq!(reason(&good[..35]), "shorter than its header");
    let mut bad = good.clone();
    bad[0] ^= 1;
    assert_eq!(reason(&bad), "bad magic");
    assert_eq!(reason(&good[..38]), "length does not match the file");
    let mut bad = good.clone();
    bad[36] ^= 1;
    assert_eq!(reason(&bad), "checksum mismatch");
}

#[test]
fn files_are_ranked_by_the_index_in_their_name() {
    let store = store();
    let mut file = store.save(&snapshot(1, b"low index inside"));
    file.index = 200;
    let other = SnapshotFile {
        index: 100,
        ..store.save(&snapshot(100, b"other"))
    };
    assert_eq!(
        store.load_latest(&[other, file]).unwrap().data,
        b"low index inside"
    );
}
