//! The records of the write-ahead log and their two encodings.
use vstd::prelude::*;

use crate::json::{
    byte_array, byte_string, bytes_json, bytes_to_json, data_variant, find_member, is_record,
    json_byte_string, json_bytes, json_parsed, json_text, lemma_bytes_json,
    lemma_nested_within_more, number_field, number_or_zero, optional_number, parse, read_number,
    read_number_or_zero, read_optional_number, record_field, render, unit_variant, Json, JsonError,
    JsonView,
};
use crate::message::{EntryType, LogEntry, LogEntryView, LogIndex, NodeId, Term};
use crate::text::same_text;

verus! {

/// How the payloads in one file are encoded.
///
/// The log never leaves the node, so its encoding is free to change as long as existing files
/// keep replaying.
#[derive(Debug, Clone, Copy, PartialEq, Eq, Structural)]
pub enum Codec {
    /// `serde_json`: every byte of a payload costs a decimal number and a comma.
    LegacyJson,
    /// `postcard`: bytes are bytes, and numbers are varints.
    PostcardV2,
}

#[derive(Debug, PartialEq, Eq)]
pub enum WalRecord {
    HardState {
        term: Term,
        voted_for: Option<NodeId>,
        /// Highest commit index known to be durable.
        commit: LogIndex,
    },
    Entry(LogEntry),
    Snapshot {
        last_index: LogIndex,
        last_term: Term,
        /// The state machine at `last_index`, where the log carries it itself.
        data: Vec<u8>,
    },
}

pub ghost enum RecordView {
    HardState { term: Term, voted_for: Option<NodeId>, commit: LogIndex },
    Entry(LogEntryView),
    Snapshot { last_index: LogIndex, last_term: Term, data: Seq<u8> },
}

impl View for WalRecord {
    type V = RecordView;

    open spec fn view(&self) -> RecordView {
        match *self {
            WalRecord::HardState { term, voted_for, commit } => RecordView::HardState {
                term,
                voted_for,
                commit,
            },
            WalRecord::Entry(entry) => RecordView::Entry(entry@),
            WalRecord::Snapshot { last_index, last_term, data } => RecordView::Snapshot {
                last_index,
                last_term,
                data: data@,
            },
        }
    }
}

impl Clone for WalRecord {
    fn clone(&self) -> (copy: Self)
        ensures
            copy@ == self@,
    {
        match self {
            WalRecord::HardState { term, voted_for, commit } => WalRecord::HardState {
                term: *term,
                voted_for: *voted_for,
                commit: *commit,
            },
            WalRecord::Entry(entry) => WalRecord::Entry(entry.clone()),
            WalRecord::Snapshot { last_index, last_term, data } => {
                let data_copy = data.clone();
                assert(data_copy@ =~= data@);
                WalRecord::Snapshot {
                    last_index: *last_index,
                    last_term: *last_term,
                    data: data_copy,
                }
            },
        }
    }
}

pub open spec fn record_views(records: Seq<WalRecord>) -> Seq<RecordView> {
    records.map_values(|r: WalRecord| r@)
}

/// The opaque error type of `postcard`.
#[verifier::external_type_specification]
#[verifier::external_body]
pub struct ExPostcardError(postcard::Error);

#[derive(Debug)]
pub enum WalError {
    /// A complete record in the middle of the file fails its checksum.
    Corrupt { offset: u64, reason: &'static str },
    Json(JsonError),
    Postcard(postcard::Error),
    /// A record or entry of a kind that does not exist.
    UnknownVariant,
}

// ── JSON payloads ──────────────────────────────────────────────────────────

pub open spec fn entry_type_name(entry_type: EntryType) -> Seq<char> {
    match entry_type {
        EntryType::Normal => "Normal"@,
        EntryType::ConfChange => "ConfChange"@,
    }
}

/// The type of an entry; entries without one are normal.
pub open spec fn entry_type_of(field: Option<JsonView>) -> Option<EntryType> {
    match field {
        None => Some(EntryType::Normal),
        Some(document) => match unit_variant(document) {
            Some(name) => if name == "Normal"@ {
                Some(EntryType::Normal)
            } else if name == "ConfChange"@ {
                Some(EntryType::ConfChange)
            } else {
                None
            },
            None => None,
        },
    }
}

pub open spec fn optional_number_json(number: Option<u64>) -> JsonView {
    match number {
        Some(n) => JsonView::Number(n),
        None => JsonView::Null,
    }
}

/// Bytes that count as none when they are absent.
pub open spec fn bytes_or_empty(field: Option<JsonView>) -> Option<Seq<u8>> {
    match field {
        None => Some(Seq::empty()),
        Some(document) => byte_array(document),
    }
}

pub open spec fn record_fields(record: RecordView) -> Seq<(Seq<char>, JsonView)> {
    match record {
        RecordView::HardState { term, voted_for, commit } => seq![
            ("term"@, JsonView::Number(term)),
            ("voted_for"@, optional_number_json(voted_for)),
            ("commit"@, JsonView::Number(commit)),
        ],
        RecordView::Entry(entry) => seq![
            ("index"@, JsonView::Number(entry.index)),
            ("term"@, JsonView::Number(entry.term)),
            ("entry_type"@, JsonView::Text(entry_type_name(entry.entry_type))),
            ("command"@, bytes_json(entry.command)),
        ],
        RecordView::Snapshot { last_index, last_term, data } => seq![
            ("last_index"@, JsonView::Number(last_index)),
            ("last_term"@, JsonView::Number(last_term)),
            ("data"@, bytes_json(data)),
        ],
    }
}

pub open spec fn record_name(record: RecordView) -> Seq<char> {
    match record {
        RecordView::HardState { .. } => "HardState"@,
        RecordView::Entry(_) => "Entry"@,
        RecordView::Snapshot { .. } => "Snapshot"@,
    }
}

/// A record as a JSON object with one member, named after the kind of record.
pub open spec fn record_json(record: RecordView) -> JsonView {
    JsonView::Object(seq![(record_name(record), JsonView::Object(record_fields(record)))])
}

pub open spec fn hard_state_of(fields: JsonView) -> Option<RecordView> {
    let term = number_field(record_field(fields, "term"@, 0));
    let voted_for = optional_number(record_field(fields, "voted_for"@, 1));
    let commit = number_or_zero(record_field(fields, "commit"@, 2));
    if is_record(fields, 2, 3) && term is Some && voted_for is Some && commit is Some {
        Some(RecordView::HardState { term: term->0, voted_for: voted_for->0, commit: commit->0 })
    } else {
        None
    }
}

pub open spec fn entry_of(fields: JsonView) -> Option<RecordView> {
    let index = number_field(record_field(fields, "index"@, 0));
    let term = number_field(record_field(fields, "term"@, 1));
    let entry_type = entry_type_of(record_field(fields, "entry_type"@, 2));
    let command = match record_field(fields, "command"@, 3) {
        Some(document) => byte_string(document),
        None => None,
    };
    if is_record(fields, 4, 4) && index is Some && term is Some && entry_type is Some
        && command is Some {
        Some(
            RecordView::Entry(
                LogEntryView {
                    index: index->0,
                    term: term->0,
                    entry_type: entry_type->0,
                    command: command->0,
                },
            ),
        )
    } else {
        None
    }
}

pub open spec fn snapshot_of(fields: JsonView) -> Option<RecordView> {
    let last_index = number_field(record_field(fields, "last_index"@, 0));
    let last_term = number_field(record_field(fields, "last_term"@, 1));
    let data = bytes_or_empty(record_field(fields, "data"@, 2));
    if is_record(fields, 2, 3) && last_index is Some && last_term is Some && data is Some {
        Some(
            RecordView::Snapshot {
                last_index: last_index->0,
                last_term: last_term->0,
                data: data->0,
            },
        )
    } else {
        None
    }
}

/// The record that a JSON document stands for, if any.
pub open spec fn record_of_json(document: JsonView) -> Option<RecordView> {
    match data_variant(document) {
        None => None,
        Some((name, fields)) => if name == "HardState"@ {
            hard_state_of(fields)
        } else if name == "Entry"@ {
            entry_of(fields)
        } else if name == "Snapshot"@ {
            snapshot_of(fields)
        } else {
            None
        },
    }
}

proof fn lemma_record_names()
    ensures
        "HardState"@ != "Entry"@,
        "HardState"@ != "Snapshot"@,
        "Entry"@ != "Snapshot"@,
        "Normal"@ != "ConfChange"@,
        "HardState"@[0] != '$',
        "Entry"@[0] != '$',
        "Snapshot"@[0] != '$',
{
    reveal_strlit("HardState");
    reveal_strlit("Entry");
    reveal_strlit("Snapshot");
    reveal_strlit("Normal");
    reveal_strlit("ConfChange");
    assert("HardState"@.len() == 9 && "Entry"@.len() == 5 && "Snapshot"@.len() == 8);
    assert("Normal"@.len() == 6 && "ConfChange"@.len() == 10);
}

proof fn lemma_hard_state_fields(record: RecordView)
    requires
        record is HardState,
    ensures
        hard_state_of(JsonView::Object(record_fields(record))) == Some(record),
        JsonView::Object(record_fields(record)).writable(),
        JsonView::Object(record_fields(record)).ordinary(),
        JsonView::Object(record_fields(record)).nested_within(2),
{
    reveal_strlit("term");
    reveal_strlit("voted_for");
    reveal_strlit("commit");
    reveal_with_fuel(find_member, 4);
    reveal_with_fuel(JsonView::writable, 2);
    reveal_with_fuel(JsonView::ordinary, 2);
    reveal_with_fuel(JsonView::nested_within, 2);
    assert("term"@.len() == 4 && "voted_for"@.len() == 9 && "commit"@.len() == 6);
    let fields = record_fields(record);
    assert(fields.skip(1)[0] == fields[1]);
    assert(fields.skip(1).skip(1)[0] == fields[2]);
}

proof fn lemma_entry_fields(record: RecordView)
    requires
        record is Entry,
    ensures
        entry_of(JsonView::Object(record_fields(record))) == Some(record),
        JsonView::Object(record_fields(record)).writable(),
        JsonView::Object(record_fields(record)).ordinary(),
        JsonView::Object(record_fields(record)).nested_within(2),
{
    reveal_strlit("index");
    reveal_strlit("term");
    reveal_strlit("entry_type");
    reveal_strlit("command");
    lemma_record_names();
    lemma_bytes_json(record->Entry_0.command);
    reveal_with_fuel(find_member, 5);
    reveal_with_fuel(JsonView::writable, 2);
    reveal_with_fuel(JsonView::ordinary, 2);
    reveal_with_fuel(JsonView::nested_within, 2);
    assert("index"@.len() == 5 && "term"@.len() == 4 && "entry_type"@.len() == 10
        && "command"@.len() == 7);
    let fields = record_fields(record);
    assert(fields.skip(1)[0] == fields[1]);
    assert(fields.skip(1).skip(1)[0] == fields[2]);
    assert(fields.skip(1).skip(1).skip(1)[0] == fields[3]);
}

proof fn lemma_snapshot_fields(record: RecordView)
    requires
        record is Snapshot,
    ensures
        snapshot_of(JsonView::Object(record_fields(record))) == Some(record),
        JsonView::Object(record_fields(record)).writable(),
        JsonView::Object(record_fields(record)).ordinary(),
        JsonView::Object(record_fields(record)).nested_within(2),
{
    reveal_strlit("last_index");
    reveal_strlit("last_term");
    reveal_strlit("data");
    lemma_bytes_json(record->data);
    reveal_with_fuel(find_member, 4);
    reveal_with_fuel(JsonView::writable, 2);
    reveal_with_fuel(JsonView::ordinary, 2);
    reveal_with_fuel(JsonView::nested_within, 2);
    assert("last_index"@.len() == 10 && "last_term"@.len() == 9 && "data"@.len() == 4);
    let fields = record_fields(record);
    assert(fields.skip(1)[0] == fields[1]);
    assert(fields.skip(1).skip(1)[0] == fields[2]);
}

/// A record read from its own JSON object is the same record.
pub proof fn lemma_record_json(record: RecordView)
    ensures
        record_of_json(record_json(record)) == Some(record),
        record_json(record).writable(),
        record_json(record).ordinary(),
        record_json(record).nested_within(3),
{
    lemma_record_names();
    match record {
        RecordView::HardState { .. } => lemma_hard_state_fields(record),
        RecordView::Entry(_) => lemma_entry_fields(record),
        RecordView::Snapshot { .. } => lemma_snapshot_fields(record),
    }
    let members = record_json(record)->Object_0;
    assert(members.len() == 1);
    assert(members[0].1.writable());
    assert(members[0].1.ordinary());
    assert(members[0].1.nested_within(2));
}

impl WalRecord {
    fn to_json(&self) -> (document: Json)
        ensures
            document@ == record_json(self@),
    {
        let mut fields: Vec<(String, Json)> = Vec::new();
        let name = match self {
            WalRecord::HardState { term, voted_for, commit } => {
                let vote = match voted_for {
                    Some(id) => Json::Number(*id),
                    None => Json::Null,
                };
                assert(vote@ == optional_number_json(*voted_for));
                fields.push(("term".to_owned(), Json::Number(*term)));
                fields.push(("voted_for".to_owned(), vote));
                fields.push(("commit".to_owned(), Json::Number(*commit)));
                "HardState"
            },
            WalRecord::Entry(entry) => {
                let entry_type = match entry.entry_type {
                    EntryType::Normal => "Normal",
                    EntryType::ConfChange => "ConfChange",
                };
                fields.push(("index".to_owned(), Json::Number(entry.index)));
                fields.push(("term".to_owned(), Json::Number(entry.term)));
                fields.push(("entry_type".to_owned(), Json::Text(entry_type.to_owned())));
                fields.push(("command".to_owned(), bytes_to_json(entry.command.as_slice())));
                "Entry"
            },
            WalRecord::Snapshot { last_index, last_term, data } => {
                fields.push(("last_index".to_owned(), Json::Number(*last_index)));
                fields.push(("last_term".to_owned(), Json::Number(*last_term)));
                fields.push(("data".to_owned(), bytes_to_json(data.as_slice())));
                "Snapshot"
            },
        };
        let mut members: Vec<(String, Json)> = Vec::new();
        let inner = Json::Object(fields);
        assert(inner@->Object_0 =~= record_fields(self@)) by {
            reveal_with_fuel(Json::tree, 2);
        }
        members.push((name.to_owned(), inner));
        let document = Json::Object(members);
        assert(document@->Object_0 =~= record_json(self@)->Object_0);
        document
    }

    fn hard_state_from(fields: &Json) -> (record: Option<WalRecord>)
        ensures
            record is Some <==> hard_state_of(fields@) is Some,
            record matches Some(r) ==> hard_state_of(fields@) == Some(r@),
    {
        if !fields.is_record(2, 3) {
            return None;
        }
        let term = match read_number(fields.record_field("term", 0)) {
            Some(term) => term,
            None => return None,
        };
        let voted_for = match read_optional_number(fields.record_field("voted_for", 1)) {
            Some(voted_for) => voted_for,
            None => return None,
        };
        let commit = match read_number_or_zero(fields.record_field("commit", 2)) {
            Some(commit) => commit,
            None => return None,
        };
        Some(WalRecord::HardState { term, voted_for, commit })
    }

    fn entry_type_from(field: Option<&Json>) -> (entry_type: Option<EntryType>)
        ensures
            entry_type == entry_type_of(crate::json::field_view(field)),
    {
        match field {
            None => Some(EntryType::Normal),
            Some(document) => match document.unit_variant() {
                None => None,
                Some(name) => if same_text(name.as_str(), "Normal") {
                    Some(EntryType::Normal)
                } else if same_text(name.as_str(), "ConfChange") {
                    Some(EntryType::ConfChange)
                } else {
                    None
                },
            },
        }
    }

    fn entry_from(fields: &Json) -> (record: Option<WalRecord>)
        ensures
            record is Some <==> entry_of(fields@) is Some,
            record matches Some(r) ==> entry_of(fields@) == Some(r@),
    {
        if !fields.is_record(4, 4) {
            return None;
        }
        let index = match read_number(fields.record_field("index", 0)) {
            Some(index) => index,
            None => return None,
        };
        let term = match read_number(fields.record_field("term", 1)) {
            Some(term) => term,
            None => return None,
        };
        let entry_type = match Self::entry_type_from(fields.record_field("entry_type", 2)) {
            Some(entry_type) => entry_type,
            None => return None,
        };
        let command = match fields.record_field("command", 3) {
            Some(document) => match json_byte_string(document) {
                Some(command) => command,
                None => return None,
            },
            None => return None,
        };
        Some(WalRecord::Entry(LogEntry { index, term, entry_type, command }))
    }

    fn snapshot_from(fields: &Json) -> (record: Option<WalRecord>)
        ensures
            record is Some <==> snapshot_of(fields@) is Some,
            record matches Some(r) ==> snapshot_of(fields@) == Some(r@),
    {
        if !fields.is_record(2, 3) {
            return None;
        }
        let last_index = match read_number(fields.record_field("last_index", 0)) {
            Some(last_index) => last_index,
            None => return None,
        };
        let last_term = match read_number(fields.record_field("last_term", 1)) {
            Some(last_term) => last_term,
            None => return None,
        };
        let data = match fields.record_field("data", 2) {
            Some(document) => match json_bytes(document) {
                Some(data) => data,
                None => return None,
            },
            None => Vec::new(),
        };
        Some(WalRecord::Snapshot { last_index, last_term, data })
    }

    fn from_json(document: &Json) -> (record: Option<WalRecord>)
        ensures
            record is Some <==> record_of_json(document@) is Some,
            record matches Some(r) ==> record_of_json(document@) == Some(r@),
    {
        let (name, fields) = match document.data_variant() {
            Some(variant) => variant,
            None => return None,
        };
        if same_text(name.as_str(), "HardState") {
            Self::hard_state_from(fields)
        } else if same_text(name.as_str(), "Entry") {
            Self::entry_from(fields)
        } else if same_text(name.as_str(), "Snapshot") {
            Self::snapshot_from(fields)
        } else {
            None
        }
    }
}

// ── Postcard payloads ──────────────────────────────────────────────────────

/// The number of each kind of record in a `postcard` payload.
pub const HARD_STATE_TAG: u32 = 0;

pub const ENTRY_TAG: u32 = 1;

pub const SNAPSHOT_TAG: u32 = 2;

/// What `postcard` writes for a tag and the fields of a hard state.
pub uninterp spec fn postcard_hard_state_bytes(
    tag: u32,
    term: u64,
    voted_for: Option<u64>,
    commit: u64,
) -> Seq<u8>;

/// What `postcard` writes for a tag and the fields of an entry.
pub uninterp spec fn postcard_entry_bytes(
    tag: u32,
    index: u64,
    term: u64,
    entry_type: u32,
    command: Seq<u8>,
) -> Seq<u8>;

/// What `postcard` writes for a tag and the fields of a snapshot.
pub uninterp spec fn postcard_snapshot_bytes(
    tag: u32,
    last_index: u64,
    last_term: u64,
    data: Seq<u8>,
) -> Seq<u8>;

/// The `u32` that `postcard` reads at the start of some bytes, with the bytes behind it.
pub uninterp spec fn postcard_tag(bytes: Seq<u8>) -> Option<(u32, Seq<u8>)>;

/// The term, vote and commit index that `postcard` reads from some bytes.
pub uninterp spec fn postcard_hard_state(bytes: Seq<u8>) -> Option<(u64, Option<u64>, u64)>;

/// The index, term, type and command that `postcard` reads from some bytes.
pub uninterp spec fn postcard_entry(bytes: Seq<u8>) -> Option<(u64, u64, u32, Seq<u8>)>;

/// The index, term and data that `postcard` reads from some bytes.
pub uninterp spec fn postcard_snapshot(bytes: Seq<u8>) -> Option<(u64, u64, Seq<u8>)>;

/// Bytes from which a tag and then the fields of a hard state are read.
pub open spec fn reads_hard_state(bytes: Seq<u8>, tag: u32, fields: (u64, Option<u64>, u64)) -> bool {
    match postcard_tag(bytes) {
        Some((t, rest)) => t == tag && postcard_hard_state(rest) == Some(fields),
        None => false,
    }
}

/// Bytes from which a tag and then the fields of an entry are read.
pub open spec fn reads_entry(bytes: Seq<u8>, tag: u32, fields: (u64, u64, u32, Seq<u8>)) -> bool {
    match postcard_tag(bytes) {
        Some((t, rest)) => t == tag && postcard_entry(rest) == Some(fields),
        None => false,
    }
}

/// Bytes from which a tag and then the fields of a snapshot are read.
pub open spec fn reads_snapshot(bytes: Seq<u8>, tag: u32, fields: (u64, u64, Seq<u8>)) -> bool {
    match postcard_tag(bytes) {
        Some((t, rest)) => t == tag && postcard_snapshot(rest) == Some(fields),
        None => false,
    }
}

/// Calls `postcard::to_stdvec` on a tag followed by the fields of a hard state. Writing into a
/// growing vector does not fail. Reading the tag back leaves bytes from which the fields are read
/// back.
#[verifier::external_body]
fn write_hard_state(tag: u32, term: u64, voted_for: Option<u64>, commit: u64) -> (bytes: Vec<u8>)
    ensures
        bytes@ == postcard_hard_state_bytes(tag, term, voted_for, commit),
        reads_hard_state(bytes@, tag, (term, voted_for, commit)),
{
    postcard::to_stdvec(&(tag, term, voted_for, commit)).expect("a vector takes every write")
}

/// Calls `postcard::to_stdvec` on a tag followed by the fields of an entry. Writing into a growing
/// vector does not fail. Reading the tag back leaves bytes from which the fields are read back.
#[verifier::external_body]
fn write_entry(tag: u32, index: u64, term: u64, entry_type: u32, command: &Vec<u8>) -> (bytes: Vec<
    u8,
>)
    ensures
        bytes@ == postcard_entry_bytes(tag, index, term, entry_type, command@),
        reads_entry(bytes@, tag, (index, term, entry_type, command@)),
{
    postcard::to_stdvec(&(tag, index, term, entry_type, command)).expect("a vector takes every write")
}

/// Calls `postcard::to_stdvec` on a tag followed by the fields of a snapshot. Writing into a
/// growing vector does not fail. Reading the tag back leaves bytes from which the fields are read
/// back.
#[verifier::external_body]
fn write_snapshot(tag: u32, last_index: u64, last_term: u64, data: &Vec<u8>) -> (bytes: Vec<u8>)
    ensures
        bytes@ == postcard_snapshot_bytes(tag, last_index, last_term, data@),
        reads_snapshot(bytes@, tag, (last_index, last_term, data@)),
{
    postcard::to_stdvec(&(tag, last_index, last_term, data)).expect("a vector takes every write")
}

/// Calls `postcard::take_from_bytes` for a `u32`. The result is a function of the bytes alone.
#[verifier::external_body]
fn read_tag(bytes: &[u8]) -> (res: Result<(u32, &[u8]), postcard::Error>)
    ensures
        res is Ok <==> postcard_tag(bytes@) is Some,
        res matches Ok((tag, rest)) ==> postcard_tag(bytes@) == Some((tag, rest@)),
{
    postcard::take_from_bytes::<u32>(bytes)
}

/// Calls `postcard::from_bytes` for the fields of a hard state. The result is a function of the
/// bytes alone.
#[verifier::external_body]
fn read_hard_state(bytes: &[u8]) -> (res: Result<(u64, Option<u64>, u64), postcard::Error>)
    ensures
        res is Ok <==> postcard_hard_state(bytes@) is Some,
        res matches Ok(fields) ==> postcard_hard_state(bytes@) == Some(fields),
{
    postcard::from_bytes::<(u64, Option<u64>, u64)>(bytes)
}

/// Calls `postcard::from_bytes` for the fields of an entry. The result is a function of the bytes
/// alone.
#[verifier::external_body]
fn read_entry(bytes: &[u8]) -> (res: Result<(u64, u64, u32, Vec<u8>), postcard::Error>)
    ensures
        res is Ok <==> postcard_entry(bytes@) is Some,
        res matches Ok(f) ==> postcard_entry(bytes@) == Some((f.0, f.1, f.2, f.3@)),
{
    postcard::from_bytes::<(u64, u64, u32, Vec<u8>)>(bytes)
}

/// Calls `postcard::from_bytes` for the fields of a snapshot. The result is a function of the
/// bytes alone.
#[verifier::external_body]
fn read_snapshot(bytes: &[u8]) -> (res: Result<(u64, u64, Vec<u8>), postcard::Error>)
    ensures
        res is Ok <==> postcard_snapshot(bytes@) is Some,
        res matches Ok(f) ==> postcard_snapshot(bytes@) == Some((f.0, f.1, f.2@)),
{
    postcard::from_bytes::<(u64, u64, Vec<u8>)>(bytes)
}

pub open spec fn entry_type_number(entry_type: EntryType) -> u32 {
    match entry_type {
        EntryType::Normal => 0,
        EntryType::ConfChange => 1,
    }
}

pub open spec fn entry_type_numbered(number: u32) -> Option<EntryType> {
    if number == 0 {
        Some(EntryType::Normal)
    } else if number == 1 {
        Some(EntryType::ConfChange)
    } else {
        None
    }
}

pub open spec fn record_of_postcard(bytes: Seq<u8>) -> Option<RecordView> {
    match postcard_tag(bytes) {
        None => None,
        Some((tag, rest)) => if tag == HARD_STATE_TAG {
            match postcard_hard_state(rest) {
                Some((term, voted_for, commit)) => Some(
                    RecordView::HardState { term, voted_for, commit },
                ),
                None => None,
            }
        } else if tag == ENTRY_TAG {
            match postcard_entry(rest) {
                Some((index, term, number, command)) => match entry_type_numbered(number) {
                    Some(entry_type) => Some(
                        RecordView::Entry(LogEntryView { index, term, entry_type, command }),
                    ),
                    None => None,
                },
                None => None,
            }
        } else if tag == SNAPSHOT_TAG {
            match postcard_snapshot(rest) {
                Some((last_index, last_term, data)) => Some(
                    RecordView::Snapshot { last_index, last_term, data },
                ),
                None => None,
            }
        } else {
            None
        },
    }
}

// ── Payloads ───────────────────────────────────────────────────────────────

/// The payload of a record.
pub open spec fn payload_of(codec: Codec, record: RecordView) -> Seq<u8> {
    match codec {
        Codec::LegacyJson => json_text(record_json(record)),
        Codec::PostcardV2 => match record {
            RecordView::HardState { term, voted_for, commit } => postcard_hard_state_bytes(
                HARD_STATE_TAG,
                term,
                voted_for,
                commit,
            ),
            RecordView::Entry(entry) => postcard_entry_bytes(
                ENTRY_TAG,
                entry.index,
                entry.term,
                entry_type_number(entry.entry_type),
                entry.command,
            ),
            RecordView::Snapshot { last_index, last_term, data } => postcard_snapshot_bytes(
                SNAPSHOT_TAG,
                last_index,
                last_term,
                data,
            ),
        },
    }
}

/// The record that a payload stands for, if any.
pub open spec fn record_of(codec: Codec, payload: Seq<u8>) -> Option<RecordView> {
    match codec {
        Codec::LegacyJson => match json_parsed(payload) {
            Some(document) => record_of_json(document),
            None => None,
        },
        Codec::PostcardV2 => record_of_postcard(payload),
    }
}

/// The payload starts like a record, but of a kind that does not exist, or like an entry of a type
/// that does not exist.
pub open spec fn names_unknown_variant(payload: Seq<u8>) -> bool {
    match postcard_tag(payload) {
        None => false,
        Some((tag, rest)) => {
            ||| tag > SNAPSHOT_TAG
            ||| tag == ENTRY_TAG && (postcard_entry(rest) matches Some((_, _, number, _))
                && entry_type_numbered(number) is None)
        },
    }
}

/// The payload stands for no record, and this is the error that says why.
pub open spec fn undecodable(codec: Codec, payload: Seq<u8>, error: WalError) -> bool {
    &&& record_of(codec, payload) is None
    &&& match error {
        WalError::Json(JsonError::Syntax(_)) => codec == Codec::LegacyJson && json_parsed(payload)
            is None,
        WalError::Json(JsonError::Shape) => codec == Codec::LegacyJson && json_parsed(payload)
            is Some,
        WalError::Postcard(_) => codec == Codec::PostcardV2 && !names_unknown_variant(payload),
        WalError::UnknownVariant => codec == Codec::PostcardV2 && names_unknown_variant(payload),
        WalError::Corrupt { .. } => false,
    }
}

impl WalRecord {
    /// The payload of the record. Decoding it gives the same record again.
    pub fn encode(&self, codec: Codec) -> (payload: Vec<u8>)
        ensures
            payload@ == payload_of(codec, self@),
            record_of(codec, payload@) == Some(self@),
    {
        match codec {
            Codec::LegacyJson => {
                let document = self.to_json();
                proof {
                    lemma_record_json(self@);
                    lemma_nested_within_more(document@, 3, 127);
                }
                render(&document)
            },
            Codec::PostcardV2 => match self {
                WalRecord::HardState { term, voted_for, commit } => write_hard_state(
                    HARD_STATE_TAG,
                    *term,
                    *voted_for,
                    *commit,
                ),
                WalRecord::Entry(entry) => {
                    let number: u32 = match entry.entry_type {
                        EntryType::Normal => 0,
                        EntryType::ConfChange => 1,
                    };
                    write_entry(ENTRY_TAG, entry.index, entry.term, number, &entry.command)
                },
                WalRecord::Snapshot { last_index, last_term, data } => write_snapshot(
                    SNAPSHOT_TAG,
                    *last_index,
                    *last_term,
                    data,
                ),
            },
        }
    }

    /// Reads a payload.
    pub fn decode(codec: Codec, payload: &[u8]) -> (record: Result<WalRecord, WalError>)
        ensures
            match record {
                Ok(r) => record_of(codec, payload@) == Some(r@),
                Err(error) => undecodable(codec, payload@, error),
            },
    {
        match codec {
            Codec::LegacyJson => {
                let document = match parse(payload) {
                    Ok(document) => document,
                    Err(error) => return Err(WalError::Json(JsonError::Syntax(error))),
                };
                match Self::from_json(&document) {
                    Some(record) => Ok(record),
                    None => Err(WalError::Json(JsonError::Shape)),
                }
            },
            Codec::PostcardV2 => Self::decode_postcard(payload),
        }
    }

    fn decode_postcard(payload: &[u8]) -> (record: Result<WalRecord, WalError>)
        ensures
            match record {
                Ok(r) => record_of_postcard(payload@) == Some(r@),
                Err(error) => undecodable(Codec::PostcardV2, payload@, error),
            },
    {
        let (tag, rest) = match read_tag(payload) {
            Ok(read) => read,
            Err(error) => return Err(WalError::Postcard(error)),
        };
        if tag == HARD_STATE_TAG {
            match read_hard_state(rest) {
                Ok((term, voted_for, commit)) => Ok(
                    WalRecord::HardState { term, voted_for, commit },
                ),
                Err(error) => Err(WalError::Postcard(error)),
            }
        } else if tag == ENTRY_TAG {
            match read_entry(rest) {
                Ok((index, term, number, command)) => {
                    let entry_type = if number == 0 {
                        EntryType::Normal
                    } else if number == 1 {
                        EntryType::ConfChange
                    } else {
                        return Err(WalError::UnknownVariant);
                    };
                    Ok(WalRecord::Entry(LogEntry { index, term, entry_type, command }))
                },
                Err(error) => Err(WalError::Postcard(error)),
            }
        } else if tag == SNAPSHOT_TAG {
            match read_snapshot(rest) {
                Ok((last_index, last_term, data)) => Ok(
                    WalRecord::Snapshot { last_index, last_term, data },
                ),
                Err(error) => Err(WalError::Postcard(error)),
            }
        } else {
            Err(WalError::UnknownVariant)
        }
    }
}

// ── Laws ───────────────────────────────────────────────────────────────────

/// A record is written as JSON under the name of its kind, field by field.
pub proof fn law_records_are_written_by_name(
    term: u64,
    voted_for: Option<u64>,
    commit: u64,
    entry: LogEntryView,
    last_index: u64,
    last_term: u64,
    data: Seq<u8>,
)
    ensures
        ({
            let document = record_json(RecordView::HardState { term, voted_for, commit });
            let (name, value) = document->Object_0[0];
            let fields = value->Object_0;
            &&& document is Object
            &&& document->Object_0.len() == 1
            &&& name == "HardState"@
            &&& value is Object
            &&& fields.len() == 3
            &&& fields[0] == ("term"@, JsonView::Number(term))
            &&& voted_for is None ==> fields[1] == ("voted_for"@, JsonView::Null)
            &&& voted_for matches Some(node) ==> fields[1] == (
                "voted_for"@,
                JsonView::Number(node),
            )
            &&& fields[2] == ("commit"@, JsonView::Number(commit))
        }),
        record_json(RecordView::Entry(entry)) == JsonView::Object(
            seq![
                (
                    "Entry"@,
                    JsonView::Object(
                        seq![
                            ("index"@, JsonView::Number(entry.index)),
                            ("term"@, JsonView::Number(entry.term)),
                            (
                                "entry_type"@,
                                JsonView::Text(
                                    match entry.entry_type {
                                        EntryType::Normal => "Normal"@,
                                        EntryType::ConfChange => "ConfChange"@,
                                    },
                                ),
                            ),
                            (
                                "command"@,
                                JsonView::Array(
                                    entry.command.map_values(|b: u8| JsonView::Number(b as u64)),
                                ),
                            ),
                        ],
                    ),
                ),
            ],
        ),
        record_json(RecordView::Snapshot { last_index, last_term, data }) == JsonView::Object(
            seq![
                (
                    "Snapshot"@,
                    JsonView::Object(
                        seq![
                            ("last_index"@, JsonView::Number(last_index)),
                            ("last_term"@, JsonView::Number(last_term)),
                            (
                                "data"@,
                                JsonView::Array(
                                    data.map_values(|b: u8| JsonView::Number(b as u64)),
                                ),
                            ),
                        ],
                    ),
                ),
            ],
        ),
{
}

/// Records are read by the names of their fields, whatever their order and whatever else is there.
/// Older logs left out some fields: without a commit index it is zero, without a type an entry is
/// normal, and without data a snapshot is empty.
pub proof fn law_records_are_read_by_field(
    fields: Seq<(Seq<char>, JsonView)>,
    voted_for: u64,
    entry: LogEntryView,
    commit: u64,
)
    ensures
        ({
            let hard_state = record_of_json(
                JsonView::Object(seq![("HardState"@, JsonView::Object(fields))]),
            );
            find_member(fields, "term"@) == Some(JsonView::Number(entry.term)) ==> {
                &&& find_member(fields, "voted_for"@) == Some(JsonView::Number(voted_for))
                    && find_member(fields, "commit"@) == Some(JsonView::Number(commit))
                    ==> hard_state == Some(
                    RecordView::HardState {
                        term: entry.term,
                        voted_for: Some(voted_for),
                        commit,
                    },
                )
                &&& find_member(fields, "voted_for"@) is None && find_member(
                    fields,
                    "commit"@,
                ) is None ==> hard_state == Some(
                    RecordView::HardState { term: entry.term, voted_for: None, commit: 0 },
                )
                &&& find_member(fields, "voted_for"@) == Some(JsonView::Null) && find_member(
                    fields,
                    "commit"@,
                ) == Some(JsonView::Number(commit)) ==> hard_state == Some(
                    RecordView::HardState { term: entry.term, voted_for: None, commit },
                )
            }
        }),
        ({
            let read = record_of_json(
                JsonView::Object(seq![("Entry"@, JsonView::Object(fields))]),
            );
            find_member(fields, "index"@) == Some(JsonView::Number(entry.index)) && find_member(
                fields,
                "term"@,
            ) == Some(JsonView::Number(entry.term)) && find_member(fields, "command"@) == Some(
                JsonView::Array(entry.command.map_values(|b: u8| JsonView::Number(b as u64))),
            ) ==> {
                &&& find_member(fields, "entry_type"@) is None ==> read == Some(
                    RecordView::Entry(LogEntryView { entry_type: EntryType::Normal, ..entry }),
                )
                &&& find_member(fields, "entry_type"@) == Some(JsonView::Text("Normal"@)) ==> read
                    == Some(
                    RecordView::Entry(LogEntryView { entry_type: EntryType::Normal, ..entry }),
                )
                &&& find_member(fields, "entry_type"@) == Some(JsonView::Text("ConfChange"@))
                    ==> read == Some(
                    RecordView::Entry(LogEntryView { entry_type: EntryType::ConfChange, ..entry }),
                )
            }
        }),
        ({
            let read = record_of_json(
                JsonView::Object(seq![("Snapshot"@, JsonView::Object(fields))]),
            );
            find_member(fields, "last_index"@) == Some(JsonView::Number(entry.index))
                && find_member(fields, "last_term"@) == Some(JsonView::Number(entry.term)) ==> {
                &&& find_member(fields, "data"@) is None ==> read == Some(
                    RecordView::Snapshot {
                        last_index: entry.index,
                        last_term: entry.term,
                        data: Seq::empty(),
                    },
                )
                &&& find_member(fields, "data"@) == Some(
                    JsonView::Array(entry.command.map_values(|b: u8| JsonView::Number(b as u64))),
                ) ==> read == Some(
                    RecordView::Snapshot {
                        last_index: entry.index,
                        last_term: entry.term,
                        data: entry.command,
                    },
                )
            }
        }),
{
    lemma_record_names();
    lemma_bytes_json(entry.command);
}

/// In the compact encoding a record begins with the number of its kind: zero for a hard state, one
/// for an entry, two for a snapshot. An entry carries a zero if it is normal, and a one if it is a
/// membership change.
pub proof fn law_records_are_numbered(
    term: u64,
    voted_for: Option<u64>,
    commit: u64,
    entry: LogEntryView,
    last_index: u64,
    last_term: u64,
    data: Seq<u8>,
)
    ensures
        payload_of(Codec::PostcardV2, RecordView::HardState { term, voted_for, commit })
            == postcard_hard_state_bytes(0, term, voted_for, commit),
        payload_of(Codec::PostcardV2, RecordView::Entry(entry)) == postcard_entry_bytes(
            1,
            entry.index,
            entry.term,
            if entry.entry_type == EntryType::ConfChange {
                1
            } else {
                0
            },
            entry.command,
        ),
        payload_of(Codec::PostcardV2, RecordView::Snapshot { last_index, last_term, data })
            == postcard_snapshot_bytes(2, last_index, last_term, data),
        payload_of(Codec::LegacyJson, RecordView::Entry(entry)) == json_text(
            record_json(RecordView::Entry(entry)),
        ),
{
}

/// Bytes are read as a record of the kind whose number they begin with, and of none if there is no
/// kind of that number.
pub proof fn law_records_are_read_by_number(payload: Seq<u8>, tag: u32, rest: Seq<u8>)
    requires
        postcard_tag(payload) == Some((tag, rest)),
    ensures
        ({
            let read = record_of(Codec::PostcardV2, payload);
            &&& tag == 0 ==> (postcard_hard_state(rest) matches Some((term, voted_for, commit))
                ==> read == Some(RecordView::HardState { term, voted_for, commit }))
            &&& tag == 1 ==> (postcard_entry(rest) matches Some((index, term, number, command)) ==> {
                &&& number == 0 ==> read == Some(
                    RecordView::Entry(
                        LogEntryView { index, term, entry_type: EntryType::Normal, command },
                    ),
                )
                &&& number == 1 ==> read == Some(
                    RecordView::Entry(
                        LogEntryView { index, term, entry_type: EntryType::ConfChange, command },
                    ),
                )
                &&& number > 1 ==> read is None
            })
            &&& tag == 2 ==> (postcard_snapshot(rest) matches Some((last_index, last_term, data))
                ==> read == Some(RecordView::Snapshot { last_index, last_term, data }))
            &&& tag > 2 ==> read is None
        }),
{
}

/// Why a payload cannot be read: in the older format it is no JSON, or not the JSON of a record; in
/// the current one it names a kind of record or of entry that does not exist, or is otherwise not
/// what it should be.
pub proof fn law_unreadable_payloads(payload: Seq<u8>, codec: Codec, error: WalError)
    ensures
        names_unknown_variant(payload) <==> (postcard_tag(payload) matches Some((tag, rest)) && (tag
            > 2 || (tag == 1 && (postcard_entry(rest) matches Some((_, _, number, _)) && number
            > 1)))),
        undecodable(codec, payload, error) ==> record_of(codec, payload) is None,
        record_of(codec, payload) is None && codec == Codec::LegacyJson ==> {
            &&& undecodable(codec, payload, error) && json_parsed(payload) is None ==> (
            error matches WalError::Json(JsonError::Syntax(_)))
            &&& undecodable(codec, payload, error) && json_parsed(payload) is Some ==> error
                == WalError::Json(JsonError::Shape)
        },
        record_of(codec, payload) is None && codec == Codec::PostcardV2 ==> {
            &&& undecodable(codec, payload, error) && names_unknown_variant(payload) ==> error
                == WalError::UnknownVariant
            &&& undecodable(codec, payload, error) && !names_unknown_variant(payload)
                ==> error is Postcard
        },
{
}

} // verus!
