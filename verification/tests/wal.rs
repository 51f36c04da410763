//! Log files as images in memory: frames, replay, torn tails, both encodings.
use raft_kv::json::JsonError;
use raft_kv::kv::Command;
use raft_kv::message::{EntryType, LogEntry};
use raft_kv::wal::{
    marker, Codec, OpenedWal, Wal, WalError, WalReader, WalRecord, MAX_RECORD_LEN,
    RECORD_HEADER_LEN, WAL_MAGIC_V2,
};

/// A log file in memory.
struct File {
    bytes: Vec<u8>,
}

impl File {
    fn new() -> File {
        File { bytes: vec![] }
    }

    /// Opens the file the way a host does: cut it back, mark it.
    fn open(&mut self) -> Result<(Wal, Vec<WalRecord>), WalError> {
        let opened: OpenedWal = Wal::open(&self.bytes)?;
        self.bytes.truncate(opened.keep);
        if opened.needs_marker {
            self.bytes.extend(marker());
        }
        Ok((opened.wal, opened.records))
    }

    fn append(&mut self, wal: &Wal, record: &WalRecord) {
        self.bytes.extend(wal.append(record));
    }

    fn len(&self) -> usize {
        self.bytes.len()
    }
}

fn entry(index: u64, command: &[u8]) -> WalRecord {
    WalRecord::Entry(LogEntry {
        index,
        term: 7,
        entry_type: EntryType::Normal,
        command: command.to_vec(),
    })
}

/// A file with a hard state and two entries, the length after the first two records, and the
/// total length.
fn wal_with_three_records() -> (File, usize, usize) {
    let mut file = File::new();
    let (wal, _) = file.open().unwrap();
    file.append(
        &wal,
        &WalRecord::HardState {
            term: 7,
            voted_for: Some(2),
            commit: 0,
        },
    );
    file.append(&wal, &entry(1, b"set a 1"));
    let two = file.len();
    file.append(&wal, &entry(2, b"set b 2"));
    let total = file.len();
    (file, two, total)
}

fn pixel_entry(index: u64) -> WalRecord {
    let command = Command::Put {
        key: "px:012:034".to_string(),
        value: "7".to_string(),
    }
    .encode();
    WalRecord::Entry(LogEntry {
        index,
        term: 4,
        entry_type: EntryType::Normal,
        command,
    })
}

fn legacy_file(records: &[WalRecord]) -> File {
    let wal = Wal {
        codec: Codec::LegacyJson,
    };
    File {
        bytes: wal.append_batch(records),
    }
}

#[test]
fn append_batch_round_trips_all_records() {
    let mut file = File::new();
    let batch = vec![
        WalRecord::HardState {
            term: 7,
            voted_for: Some(2),
            commit: 0,
        },
        entry(1, b"set a 1"),
        entry(2, b"set b 2"),
    ];
    {
        let (wal, existing) = file.open().unwrap();
        assert!(existing.is_empty(), "a fresh WAL starts empty");
        let bytes = wal.append_batch(&batch);
        file.bytes.extend(bytes);
    }
    let (_wal, recovered) = file.open().unwrap();
    assert_eq!(
        recovered.len(),
        3,
        "all batched records must survive a reopen"
    );
    assert!(
        matches!(
            recovered[0],
            WalRecord::HardState {
                term: 7,
                voted_for: Some(2),
                commit: 0,
            }
        ),
        "HardState must round-trip"
    );
    match &recovered[1] {
        WalRecord::Entry(e) => {
            assert_eq!(e.index, 1);
            assert_eq!(e.term, 7);
        }
        other => panic!("expected an Entry at position 1, got {other:?}"),
    }
    assert_eq!(recovered, batch);
}

#[test]
fn a_tail_cut_at_any_boundary_is_dropped_and_the_wal_keeps_working() {
    for cut in [2usize, 6, 10] {
        let (mut file, two, total) = wal_with_three_records();
        assert!(two + cut < total, "the cut must land inside record 3");
        file.bytes.truncate(two + cut);

        let (wal, records) = file
            .open()
            .unwrap_or_else(|e| panic!("a tail cut at +{cut} must not brick the node: {e:?}"));
        assert_eq!(records.len(), 2, "every record before the tear survives");
        assert_eq!(
            file.len(),
            two,
            "the file is truncated back to the last intact record"
        );

        file.append(&wal, &entry(3, b"set c 3"));
        let (_wal, records) = file.open().unwrap();
        assert_eq!(records.len(), 3, "the post-recovery append round-trips");
        match &records[2] {
            WalRecord::Entry(e) => assert_eq!(e.index, 3),
            other => panic!("expected Entry(3), got {other:?}"),
        }
    }
}

#[test]
fn every_cut_inside_the_last_record_costs_only_that_record() {
    let (file, two, total) = wal_with_three_records();
    for len in two..total {
        let opened = Wal::open(&file.bytes[..len]).unwrap();
        assert_eq!(opened.records.len(), 2);
        assert_eq!(opened.keep, two);
        assert!(!opened.needs_marker);
    }
}

#[test]
fn bad_checksum_in_the_final_record_is_discarded() {
    let (mut file, two, _total) = wal_with_three_records();
    file.bytes[two + RECORD_HEADER_LEN] ^= 0xFF;

    let (_wal, records) = file.open().unwrap();
    assert_eq!(records.len(), 2, "the damaged final record is dropped");
    assert_eq!(file.len(), two);
}

#[test]
fn bad_checksum_in_the_middle_is_reported() {
    let (mut file, _two, _total) = wal_with_three_records();
    let first_record = WAL_MAGIC_V2.len();
    file.bytes[first_record + RECORD_HEADER_LEN] ^= 0xFF;

    match file.open() {
        Err(WalError::Corrupt { offset, reason }) => {
            assert_eq!(offset, first_record as u64);
            assert_eq!(reason, "checksum mismatch");
        }
        Err(e) => panic!("expected Corrupt, got {e:?}"),
        Ok(_) => panic!("mid-file corruption must not be swallowed"),
    }
}

#[test]
fn an_implausible_length_header_is_a_torn_tail_not_a_4gb_allocation() {
    let (mut file, two, _total) = wal_with_three_records();
    file.bytes.truncate(two);
    file.bytes.extend_from_slice(&u32::MAX.to_le_bytes());

    let (_wal, records) = file.open().unwrap();
    assert_eq!(records.len(), 2);
    assert_eq!(file.len(), two, "the bogus header is truncated away");
}

#[test]
fn a_length_just_above_the_bound_is_implausible() {
    let (mut file, two, _total) = wal_with_three_records();
    file.bytes.truncate(two);
    file.bytes
        .extend_from_slice(&(MAX_RECORD_LEN as u32 + 1).to_le_bytes());
    file.bytes.extend_from_slice(&[0; 64]);
    let (_wal, records) = file.open().unwrap();
    assert_eq!(records.len(), 2);
    assert_eq!(file.len(), two);
}

#[test]
fn a_fresh_wal_is_marked_v2_and_round_trips() {
    let mut file = File::new();
    {
        let (wal, _) = file.open().unwrap();
        file.append(&wal, &pixel_entry(1));
    }
    assert_eq!(
        &file.bytes[..8],
        &WAL_MAGIC_V2,
        "a new file carries the marker"
    );
    assert_eq!(&WAL_MAGIC_V2, b"RKVWAL\x02\n");

    let (_wal, records) = file.open().unwrap();
    assert_eq!(records.len(), 1);
    match &records[0] {
        WalRecord::Entry(e) => assert_eq!(e.index, 1),
        other => panic!("expected an Entry, got {other:?}"),
    }
}

#[test]
fn a_legacy_json_wal_still_replays_and_stays_json() {
    let mut file = legacy_file(&[
        WalRecord::HardState {
            term: 3,
            voted_for: Some(1),
            commit: 0,
        },
        pixel_entry(1),
    ]);

    let (wal, records) = file.open().unwrap();
    assert_eq!(records.len(), 2, "a JSON log must still replay");
    file.append(&wal, &pixel_entry(2));

    assert_ne!(
        &file.bytes[..8],
        &WAL_MAGIC_V2,
        "a legacy file is not relabelled"
    );
    let (_wal, records) = file.open().unwrap();
    assert_eq!(records.len(), 3, "the appended record is readable too");
}

#[test]
fn a_v2_record_is_a_fraction_of_its_json_size() {
    let mut v2 = File::new();
    {
        let (wal, _) = v2.open().unwrap();
        v2.append(&wal, &pixel_entry(49_400));
    }
    let v2_len = v2.len() - WAL_MAGIC_V2.len();
    let json_len = legacy_file(&[pixel_entry(49_400)]).len();

    assert!(
        v2_len * 2 < json_len,
        "a pixel record must cost less than half of its JSON form \
         (v2 {v2_len} B vs json {json_len} B)"
    );
}

#[test]
fn rewrite_drops_the_covered_records_and_migrates_a_legacy_file() {
    let mut file = legacy_file(&[pixel_entry(1), pixel_entry(2), pixel_entry(3)]);
    let before = file.len();

    let (mut wal, records) = file.open().unwrap();
    assert_eq!(records.len(), 3);
    assert!(wal.is_legacy());

    file.bytes = wal.rewrite(&[
        WalRecord::HardState {
            term: 4,
            voted_for: Some(1),
            commit: 12,
        },
        pixel_entry(3),
    ]);
    assert!(!wal.is_legacy(), "a rewritten file is always v2");

    file.append(&wal, &pixel_entry(4));

    let (_wal, records) = file.open().unwrap();
    assert_eq!(records.len(), 3, "hard state + entry 3 + the new entry 4");
    assert!(
        matches!(
            records[0],
            WalRecord::HardState {
                term: 4,
                commit: 12,
                ..
            }
        ),
        "the rotated file must still carry the term, the vote and the commit"
    );
    match (&records[1], &records[2]) {
        (WalRecord::Entry(a), WalRecord::Entry(b)) => {
            assert_eq!((a.index, b.index), (3, 4));
        }
        other => panic!("expected two entries, got {other:?}"),
    }
    assert!(file.len() < before, "rotation must shrink the file");
}

#[test]
fn nothing_legible_in_a_legacy_file_starts_it_over() {
    let opened = Wal::open(b"garbage").unwrap();
    assert!(opened.records.is_empty());
    assert_eq!(opened.keep, 0);
    assert!(opened.needs_marker);
    assert!(!opened.wal.is_legacy());
}

#[test]
fn a_json_payload_is_the_documented_object() {
    let record = WalRecord::HardState {
        term: 3,
        voted_for: None,
        commit: 9,
    };
    assert_eq!(
        record.encode(Codec::LegacyJson),
        b"{\"HardState\":{\"term\":3,\"voted_for\":null,\"commit\":9}}"
    );
    let record = WalRecord::Entry(LogEntry {
        index: 1,
        term: 2,
        entry_type: EntryType::ConfChange,
        command: vec![1, 255],
    });
    assert_eq!(
        record.encode(Codec::LegacyJson),
        b"{\"Entry\":{\"index\":1,\"term\":2,\"entry_type\":\"ConfChange\",\"command\":[1,255]}}"
    );
}

#[test]
fn a_json_payload_without_the_newer_fields_still_decodes() {
    let state = WalRecord::decode(
        Codec::LegacyJson,
        b"{\"HardState\":{\"term\":3,\"voted_for\":1}}",
    )
    .unwrap();
    assert_eq!(
        state,
        WalRecord::HardState {
            term: 3,
            voted_for: Some(1),
            commit: 0
        }
    );
    let entry = WalRecord::decode(
        Codec::LegacyJson,
        b"{\"Entry\":{\"index\":1,\"term\":2,\"command\":[]}}",
    )
    .unwrap();
    assert!(matches!(
        entry,
        WalRecord::Entry(LogEntry {
            entry_type: EntryType::Normal,
            ..
        })
    ));
    let snapshot = WalRecord::decode(
        Codec::LegacyJson,
        b"{\"Snapshot\":{\"last_index\":5,\"last_term\":1}}",
    )
    .unwrap();
    assert!(matches!(snapshot, WalRecord::Snapshot { data, .. } if data.is_empty()));
}

#[test]
fn a_payload_that_is_no_record_is_an_error() {
    assert!(matches!(
        WalRecord::decode(Codec::LegacyJson, b"{\"Entry\":"),
        Err(WalError::Json(JsonError::Syntax(_)))
    ));
    assert!(matches!(
        WalRecord::decode(Codec::LegacyJson, b"{\"Other\":{}}"),
        Err(WalError::Json(JsonError::Shape))
    ));
    assert!(matches!(
        WalRecord::decode(
            Codec::LegacyJson,
            b"{\"HardState\":{\"term\":3,\"voted_for\":1,\"commit\":null}}"
        ),
        Err(WalError::Json(JsonError::Shape))
    ));
    assert!(matches!(
        WalRecord::decode(Codec::PostcardV2, &[]),
        Err(WalError::Postcard(_))
    ));
    assert!(matches!(
        WalRecord::decode(Codec::PostcardV2, &[9]),
        Err(WalError::UnknownVariant)
    ));
    assert!(matches!(
        WalRecord::decode(Codec::PostcardV2, &[1, 1, 1, 7, 0]),
        Err(WalError::UnknownVariant)
    ));
}

#[test]
fn a_postcard_payload_is_tag_fields_and_raw_bytes() {
    let record = WalRecord::Entry(LogEntry {
        index: 300,
        term: 4,
        entry_type: EntryType::ConfChange,
        command: vec![7, 8],
    });
    let payload = record.encode(Codec::PostcardV2);
    assert_eq!(payload, vec![1, 0xAC, 0x02, 4, 1, 2, 7, 8]);
    assert_eq!(
        WalRecord::decode(Codec::PostcardV2, &payload).unwrap(),
        record
    );
    let state = WalRecord::HardState {
        term: 1,
        voted_for: Some(2),
        commit: 3,
    };
    assert_eq!(state.encode(Codec::PostcardV2), vec![0, 1, 1, 2, 3]);
    let snapshot = WalRecord::Snapshot {
        last_index: 1,
        last_term: 2,
        data: vec![9],
    };
    assert_eq!(snapshot.encode(Codec::PostcardV2), vec![2, 1, 2, 1, 9]);
    assert_eq!(
        WalRecord::decode(Codec::PostcardV2, &[2, 1, 2, 1, 9]).unwrap(),
        snapshot
    );
}

#[test]
fn an_undecodable_record_with_a_good_checksum_is_reported() {
    let wal = Wal {
        codec: Codec::LegacyJson,
    };
    let mut bytes = marker();
    bytes.extend(wal.append(&pixel_entry(1)));
    assert!(matches!(
        Wal::open(&bytes),
        Err(WalError::Postcard(_)) | Err(WalError::UnknownVariant)
    ));
}

#[test]
fn a_frame_is_length_checksum_payload() {
    let wal = Wal {
        codec: Codec::PostcardV2,
    };
    let record = WalRecord::HardState {
        term: 1,
        voted_for: None,
        commit: 0,
    };
    let frame = wal.append(&record);
    let payload = record.encode(Codec::PostcardV2);
    assert_eq!(&frame[..4], &(payload.len() as u32).to_le_bytes());
    assert_eq!(&frame[4..8], &crc32fast::hash(&payload).to_le_bytes());
    assert_eq!(&frame[8..], &payload[..]);
}

// ── Piece by piece ─────────────────────────────────────────────────────────

/// Replays a file the way a host does that never holds it as a whole.
fn streamed(file: &[u8]) -> Result<(Vec<WalRecord>, u64, Wal, bool), WalError> {
    let head = &file[..file.len().min(8)];
    let mut reader = WalReader::new(head, file.len() as u64);
    let mut records = vec![];
    loop {
        let at = reader.offset as usize;
        let bytes = &file[at..file.len().min(at + RECORD_HEADER_LEN)];
        let Some(header) = reader.header(bytes) else {
            break;
        };
        let start = at + RECORD_HEADER_LEN;
        let payload = &file[start..start + header.len as usize];
        match reader.record(&header, payload)? {
            Some(record) => records.push(record),
            None => break,
        }
    }
    let offset = reader.offset;
    let (wal, needs_marker) = reader.finish();
    Ok((records, offset, wal, needs_marker))
}

#[test]
fn reading_piece_by_piece_gives_the_same_records_as_reading_at_once() {
    let wal = Wal {
        codec: Codec::PostcardV2,
    };
    let mut file = marker();
    for i in 1..=3 {
        file.extend(wal.append(&entry(i, b"set a 1")));
    }
    for cut in 0..=file.len() {
        let part = &file[..cut];
        let opened = Wal::open(part).unwrap();
        let (records, offset, wal, needs_marker) = streamed(part).unwrap();
        assert_eq!(records, opened.records);
        assert_eq!(offset, opened.keep as u64);
        assert_eq!(wal.codec, opened.wal.codec);
        assert_eq!(needs_marker, opened.needs_marker);
    }
    let (records, offset, _, needs_marker) = streamed(&file).unwrap();
    assert_eq!(records.len(), 3);
    assert_eq!(offset, file.len() as u64);
    assert!(!needs_marker);
}

#[test]
fn damage_in_the_middle_shows_piece_by_piece_too() {
    let wal = Wal {
        codec: Codec::PostcardV2,
    };
    let mut file = marker();
    file.extend(wal.append(&entry(1, b"set a 1")));
    let second = file.len();
    file.extend(wal.append(&entry(2, b"set b 2")));
    file.extend(wal.append(&entry(3, b"set c 3")));
    file[second + RECORD_HEADER_LEN] ^= 0xff;
    assert!(matches!(
        streamed(&file),
        Err(WalError::Corrupt { offset, reason: "checksum mismatch" }) if offset == second as u64
    ));
}

/// A record with a good checksum around any payload.
fn framed(payload: &[u8]) -> Vec<u8> {
    let mut bytes = (payload.len() as u32).to_le_bytes().to_vec();
    bytes.extend(crc32fast::hash(payload).to_le_bytes());
    bytes.extend(payload);
    bytes
}

#[test]
fn a_payload_that_is_no_record_is_reported_by_kind() {
    // Postcard: a record of a kind that does not exist, and one that is cut short.
    let mut unknown = marker();
    unknown.extend(framed(&[9, 0, 0, 0]));
    assert!(matches!(
        Wal::open(&unknown),
        Err(WalError::UnknownVariant)
    ));
    let mut short = marker();
    short.extend(framed(&[0, 1]));
    assert!(matches!(Wal::open(&short), Err(WalError::Postcard(_))));
    // JSON: text that is no document, and a document that is no record.
    assert!(matches!(
        Wal::open(&framed(b"{")),
        Err(WalError::Json(JsonError::Syntax(_)))
    ));
    assert!(matches!(
        Wal::open(&framed(b"{\"Entry\":3}")),
        Err(WalError::Json(JsonError::Shape))
    ));
}

#[test]
fn a_json_entry_may_carry_its_command_as_text() {
    let text = "{\"Entry\":{\"index\":1,\"term\":2,\"entry_type\":\"Normal\",\"command\":\"h\u{e9}\"}}";
    let record = WalRecord::decode(Codec::LegacyJson, text.as_bytes()).unwrap();
    assert_eq!(
        record,
        WalRecord::Entry(LogEntry {
            index: 1,
            term: 2,
            entry_type: EntryType::Normal,
            command: "h\u{e9}".as_bytes().to_vec(),
        })
    );
    // The data of a snapshot has to be a list of numbers.
    let text = "{\"Snapshot\":{\"last_index\":1,\"last_term\":2,\"data\":\"x\"}}";
    assert!(WalRecord::decode(Codec::LegacyJson, text.as_bytes()).is_err());
}
