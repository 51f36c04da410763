//! The write-ahead log for Raft log entries and hard state.
//!
//! File layout:
//!   [8 bytes] `RKVWAL\x02\n`, the format marker, in files with `postcard` payloads only
//!   then a sequence of records:
//!     [4 bytes] payload length (u32, little-endian)
//!     [4 bytes] CRC32 checksum of the payload
//!     [N bytes] encoded record
//!
//! A file without the marker is an older log whose payloads are JSON. The codec is decided once
//! when a file is opened and every append uses it, so a single file never mixes the two.
//!
//! On recovery, a record that is short or implausibly sized, or a final record with a bad
//! checksum, ends the replay: that is a torn tail, and it is dropped.
use vstd::bytes::{spec_u32_from_le_bytes, spec_u32_to_le_bytes, u32_from_le_bytes, u32_to_le_bytes};
use vstd::prelude::*;

pub mod laws;
pub mod record;

pub use record::{
    payload_of, record_of, record_views, undecodable, Codec, RecordView, WalError, WalRecord,
};

verus! {

/// Upper bound on a single record's payload. The length prefix comes off disk unvalidated, so a
/// torn header can name any u32; anything above this bound is garbage in a torn tail.
pub const MAX_RECORD_LEN: usize = 64 * 1024 * 1024;

/// Length prefix and checksum that precede every payload.
pub const RECORD_HEADER_LEN: usize = 8;

/// Marks a file whose records are `postcard`-encoded.
pub const WAL_MAGIC_V2: [u8; 8] = [82, 75, 86, 87, 65, 76, 2, 10];

/// The CRC32 checksum of some bytes.
pub uninterp spec fn crc32(bytes: Seq<u8>) -> u32;

/// `crc32fast::hash` computes the CRC32 checksum, a function of the bytes alone.
pub assume_specification[ crc32fast::hash ](buf: &[u8]) -> (sum: u32)
    ensures
        sum == crc32(buf@),
;

// ── Frames ─────────────────────────────────────────────────────────────────

/// One record as it stands in the file: length, checksum, payload. The length is written as a
/// u32.
pub open spec fn frame(payload: Seq<u8>) -> Seq<u8> {
    spec_u32_to_le_bytes(payload.len() as u32) + spec_u32_to_le_bytes(crc32(payload)) + payload
}

pub open spec fn frames(codec: Codec, records: Seq<RecordView>) -> Seq<u8>
    decreases records.len(),
{
    if records.len() == 0 {
        Seq::empty()
    } else {
        frames(codec, records.drop_last()) + frame(payload_of(codec, records.last()))
    }
}

fn write_frame(codec: Codec, record: &WalRecord) -> (bytes: Vec<u8>)
    ensures
        bytes@ == frame(payload_of(codec, record@)),
        record_of(codec, payload_of(codec, record@)) == Some(record@),
{
    let mut payload = record.encode(codec);
    let checksum = crc32fast::hash(payload.as_slice());
    let mut bytes = u32_to_le_bytes(payload.len() as u32);
    let mut crc = u32_to_le_bytes(checksum);
    bytes.append(&mut crc);
    bytes.append(&mut payload);
    bytes
}

// ── Replay ─────────────────────────────────────────────────────────────────

/// How a replay ends.
pub ghost enum ReplayEnd {
    /// Everything up to this length is intact; what follows, if anything, is a torn tail.
    Intact(int),
    /// The record at this offset fails its checksum although more of the file follows it.
    Corrupt(int),
    /// The record at this offset has a good checksum but stands for no record.
    Undecodable(int),
}

pub open spec fn frame_len(file: Seq<u8>, offset: int) -> u32 {
    spec_u32_from_le_bytes(file.subrange(offset, offset + 4))
}

pub open spec fn frame_crc(file: Seq<u8>, offset: int) -> u32 {
    spec_u32_from_le_bytes(file.subrange(offset + 4, offset + 8))
}

/// A whole record of a plausible size stands at `offset`.
pub open spec fn frame_complete(file: Seq<u8>, offset: int) -> bool {
    &&& offset + RECORD_HEADER_LEN <= file.len()
    &&& frame_len(file, offset) <= MAX_RECORD_LEN
    &&& offset + RECORD_HEADER_LEN + frame_len(file, offset) <= file.len()
}

pub open spec fn frame_payload(file: Seq<u8>, offset: int) -> Seq<u8> {
    file.subrange(
        offset + RECORD_HEADER_LEN,
        offset + RECORD_HEADER_LEN + frame_len(file, offset),
    )
}

pub open spec fn frame_end(file: Seq<u8>, offset: int) -> int {
    offset + RECORD_HEADER_LEN + frame_len(file, offset)
}

/// The records of a file from `offset` on, and how their replay ends.
pub open spec fn scan(file: Seq<u8>, codec: Codec, offset: int) -> (Seq<RecordView>, ReplayEnd)
    decreases file.len() - offset,
{
    if !frame_complete(file, offset) {
        (Seq::empty(), ReplayEnd::Intact(offset))
    } else if crc32(frame_payload(file, offset)) != frame_crc(file, offset) {
        if frame_end(file, offset) < file.len() {
            (Seq::empty(), ReplayEnd::Corrupt(offset))
        } else {
            (Seq::empty(), ReplayEnd::Intact(offset))
        }
    } else {
        match record_of(codec, frame_payload(file, offset)) {
            None => (Seq::empty(), ReplayEnd::Undecodable(offset)),
            Some(record) => {
                let rest = scan(file, codec, frame_end(file, offset));
                (seq![record] + rest.0, rest.1)
            },
        }
    }
}

/// The length and checksum in front of a payload.
#[derive(Debug, Clone, Copy)]
pub struct FrameHeader {
    pub len: u32,
    pub crc: u32,
}

/// A replay in progress. A host that does not want to hold a whole file reads it piece by piece:
/// the first bytes, and then a header and a payload at a time.
#[derive(Debug, Clone, Copy)]
pub struct WalReader {
    pub codec: Codec,
    /// Where the next record starts. Everything before is intact.
    pub offset: u64,
    pub file_len: u64,
}

impl WalReader {
    /// Starts a replay, given the first bytes of a file: as many as a format marker has, or the
    /// whole file if it is shorter.
    pub fn new(head: &[u8], file_len: u64) -> (reader: WalReader)
        requires
            head@.len() == (if file_len < 8 {
                file_len as int
            } else {
                8
            }),
        ensures
            reader.codec == file_codec(head@),
            reader.offset == data_start(head@),
            reader.file_len == file_len,
    {
        let is_marked = has_marker(head);
        WalReader {
            codec: if head.len() == 0 || is_marked {
                Codec::PostcardV2
            } else {
                Codec::LegacyJson
            },
            offset: if is_marked {
                8
            } else {
                0
            },
            file_len,
        }
    }

    /// Reads the header of the next record off the bytes at the current offset. `None` ends the
    /// replay: the rest of the file is too short for a record, or names an implausible length.
    pub fn header(&self, bytes: &[u8]) -> (header: Option<FrameHeader>)
        ensures
            header is Some <==> {
                &&& bytes@.len() >= RECORD_HEADER_LEN
                &&& frame_len(bytes@, 0) <= MAX_RECORD_LEN
                &&& self.offset + RECORD_HEADER_LEN + frame_len(bytes@, 0) <= self.file_len
            },
            header matches Some(h) ==> h.len == frame_len(bytes@, 0) && h.crc == frame_crc(
                bytes@,
                0,
            ),
    {
        if bytes.len() < RECORD_HEADER_LEN {
            return None;
        }
        let len = u32_from_le_bytes(vstd::slice::slice_subrange(bytes, 0, 4));
        let crc = u32_from_le_bytes(vstd::slice::slice_subrange(bytes, 4, 8));
        if len as usize > MAX_RECORD_LEN || self.offset > self.file_len || RECORD_HEADER_LEN as u64
            + len as u64 > self.file_len - self.offset {
            return None;
        }
        Some(FrameHeader { len, crc })
    }

    /// Checks and decodes the payload of the next record and moves past it. `None` is a damaged
    /// final record, which ends the replay. A damaged record with more behind it was not an
    /// interrupted write and is reported.
    pub fn record(&mut self, header: &FrameHeader, payload: &[u8]) -> (read: Result<
        Option<WalRecord>,
        WalError,
    >)
        requires
            payload@.len() == header.len,
            old(self).offset + RECORD_HEADER_LEN + header.len <= old(self).file_len,
        ensures
            ({
                let end = old(self).offset + RECORD_HEADER_LEN + header.len;
                &&& *final(self) == (WalReader {
                    offset: if read matches Ok(Some(_)) {
                        end as u64
                    } else {
                        old(self).offset
                    },
                    ..*old(self)
                })
                &&& match read {
                    Ok(Some(record)) => crc32(payload@) == header.crc && record_of(
                        old(self).codec,
                        payload@,
                    ) == Some(record@),
                    Ok(None) => crc32(payload@) != header.crc && end == old(self).file_len,
                    Err(WalError::Corrupt { offset, reason }) => crc32(payload@) != header.crc
                        && end < old(self).file_len && offset == old(self).offset && reason@
                        == "checksum mismatch"@,
                    Err(error) => crc32(payload@) == header.crc && undecodable(
                        old(self).codec,
                        payload@,
                        error,
                    ),
                }
            }),
    {
        let end = self.offset + RECORD_HEADER_LEN as u64 + header.len as u64;
        if crc32fast::hash(payload) != header.crc {
            if end < self.file_len {
                return Err(
                    WalError::Corrupt { offset: self.offset, reason: "checksum mismatch" },
                );
            }
            return Ok(None);
        }
        match WalRecord::decode(self.codec, payload) {
            Ok(record) => {
                self.offset = end;
                Ok(Some(record))
            },
            Err(error) => Err(error),
        }
    }

    /// Ends the replay: the log to append to once the file is cut back to the current offset, and
    /// whether the format marker has to be written there first.
    ///
    /// Nothing legible is left in a file that is cut back to nothing: there is no history to stay
    /// compatible with, so it is started over with the marker.
    pub fn finish(self) -> (finished: (Wal, bool))
        ensures
            finished.1 == (self.offset == 0),
            finished.0.codec == (if self.offset == 0 {
                Codec::PostcardV2
            } else {
                self.codec
            }),
    {
        let needs_marker = self.offset == 0;
        let codec = if needs_marker {
            Codec::PostcardV2
        } else {
            self.codec
        };
        (Wal { codec }, needs_marker)
    }
}

/// Collects every intact record from where the reader stands on, and moves the reader just past
/// the last one.
fn replay(file: &[u8], reader: &mut WalReader) -> (res: Result<Vec<WalRecord>, WalError>)
    requires
        old(reader).offset <= file@.len(),
        old(reader).file_len == file@.len(),
    ensures
        final(reader).codec == old(reader).codec,
        ({
            let whole = scan(file@, old(reader).codec, old(reader).offset as int);
            match res {
                Ok(records) => whole == (
                    record_views(records@),
                    ReplayEnd::Intact(final(reader).offset as int),
                ) && old(reader).offset <= final(reader).offset <= file@.len(),
                Err(WalError::Corrupt { offset, reason }) => whole.1 == ReplayEnd::Corrupt(
                    offset as int,
                ) && reason@ == "checksum mismatch"@,
                Err(error) => whole.1 matches ReplayEnd::Undecodable(at) && undecodable(
                    old(reader).codec,
                    frame_payload(file@, at),
                    error,
                ),
            }
        }),
{
    let mut records: Vec<WalRecord> = Vec::new();
    let ghost codec = reader.codec;
    let ghost whole = scan(file@, codec, reader.offset as int);
    assert(record_views(records@) + whole.0 =~= whole.0);
    loop
        invariant_except_break
            whole.0 == record_views(records@) + scan(file@, codec, reader.offset as int).0,
            whole.1 == scan(file@, codec, reader.offset as int).1,
        invariant
            whole == scan(file@, codec, old(reader).offset as int),
            codec == old(reader).codec,
            reader.codec == codec,
            reader.file_len == file@.len(),
            old(reader).offset <= reader.offset <= file@.len(),
        ensures
            whole == (record_views(records@), ReplayEnd::Intact(reader.offset as int)),
        decreases file@.len() - reader.offset,
    {
        let offset = reader.offset as usize;
        let bytes = vstd::slice::slice_subrange(file, offset, file.len());
        assert(bytes@.len() >= 8 ==> bytes@.subrange(0, 4) =~= file@.subrange(
            offset as int,
            offset + 4,
        ));
        assert(bytes@.len() >= 8 ==> bytes@.subrange(4, 8) =~= file@.subrange(
            offset + 4,
            offset + 8,
        ));
        let header = match reader.header(bytes) {
            Some(header) => header,
            None => {
                assert(record_views(records@) + Seq::empty() =~= record_views(records@));
                break;
            },
        };
        let end = offset + RECORD_HEADER_LEN + header.len as usize;
        let payload = vstd::slice::slice_subrange(file, offset + RECORD_HEADER_LEN, end);
        assert(payload@ == frame_payload(file@, offset as int));
        match reader.record(&header, payload) {
            Ok(Some(record)) => {
                let ghost before = records@;
                let ghost tail = scan(file@, codec, end as int);
                records.push(record);
                assert(record_views(records@) =~= record_views(before).push(record@));
                assert(record_views(before) + (seq![record@] + tail.0) =~= record_views(records@)
                    + tail.0);
            },
            Ok(None) => {
                assert(record_views(records@) + Seq::empty() =~= record_views(records@));
                break;
            },
            Err(error) => return Err(error),
        }
    }
    Ok(records)
}

// ── Files ──────────────────────────────────────────────────────────────────

/// The log of one file, as far as writing to it goes.
#[derive(Debug, Clone, Copy)]
pub struct Wal {
    pub codec: Codec,
}

/// A file that has been opened: its records, and what to do to it before the first append.
#[derive(Debug)]
pub struct OpenedWal {
    pub wal: Wal,
    pub records: Vec<WalRecord>,
    /// The length to cut the file back to. A record that was never synced was never acknowledged
    /// to anyone, so dropping the tail is safe, and the next record must not stand behind
    /// garbage.
    pub keep: usize,
    /// Whether the format marker has to be written at the end of what is kept.
    pub needs_marker: bool,
}

/// A file carries the format marker.
pub open spec fn marked(file: Seq<u8>) -> bool {
    WAL_MAGIC_V2@.is_prefix_of(file)
}

pub open spec fn file_codec(file: Seq<u8>) -> Codec {
    if file.len() == 0 || marked(file) {
        Codec::PostcardV2
    } else {
        Codec::LegacyJson
    }
}

/// Where the records of a file start.
pub open spec fn data_start(file: Seq<u8>) -> int {
    if marked(file) {
        8
    } else {
        0
    }
}

/// The records of a file and how their replay ends.
pub open spec fn file_scan(file: Seq<u8>) -> (Seq<RecordView>, ReplayEnd) {
    scan(file, file_codec(file), data_start(file))
}

impl OpenedWal {
    /// The file after it was cut back and marked.
    pub open spec fn repaired(self, file: Seq<u8>) -> Seq<u8> {
        file.take(self.keep as int) + (if self.needs_marker {
            WAL_MAGIC_V2@
        } else {
            Seq::empty()
        })
    }
}

/// The codec of a file and the start of its records show in its first bytes.
pub proof fn lemma_head_decides(file: Seq<u8>, head: Seq<u8>)
    requires
        head.len() == (if file.len() < 8 {
            file.len() as int
        } else {
            8
        }),
        head.is_prefix_of(file),
    ensures
        file_codec(head) == file_codec(file),
        data_start(head) == data_start(file),
{
    if file.len() >= 8 {
        assert(file.subrange(0, 8) =~= head.subrange(0, 8));
    }
}

fn has_marker(file: &[u8]) -> (res: bool)
    ensures
        res == marked(file@),
{
    if file.len() < 8 {
        return false;
    }
    let mut i: usize = 0;
    while i < 8
        invariant
            i <= 8 <= file@.len(),
            forall|j: int| 0 <= j < i ==> file@[j] == WAL_MAGIC_V2@[j],
        decreases 8 - i,
    {
        if file[i] != WAL_MAGIC_V2[i] {
            assert(marked(file@) ==> WAL_MAGIC_V2@[i as int] == file@.subrange(0, 8)[i as int]);
            return false;
        }
        i += 1;
    }
    assert(WAL_MAGIC_V2@ =~= file@.subrange(0, 8));
    true
}

impl Wal {
    /// Replays a whole file.
    pub fn open(file: &[u8]) -> (opened: Result<OpenedWal, WalError>)
        ensures
            match opened {
                Ok(o) => {
                    &&& file_scan(file@) == (
                        record_views(o.records@),
                        ReplayEnd::Intact(o.keep as int),
                    )
                    &&& o.keep <= file@.len()
                    &&& o.needs_marker == (o.keep == 0)
                    &&& o.wal.codec == (if o.keep == 0 {
                        Codec::PostcardV2
                    } else {
                        file_codec(file@)
                    })
                },
                Err(WalError::Corrupt { offset, reason }) => file_scan(file@).1
                    == ReplayEnd::Corrupt(offset as int) && reason@ == "checksum mismatch"@,
                Err(error) => file_scan(file@).1 matches ReplayEnd::Undecodable(at) && undecodable(
                    file_codec(file@),
                    frame_payload(file@, at),
                    error,
                ),
            },
    {
        let head = vstd::slice::slice_subrange(
            file,
            0,
            if file.len() < 8 {
                file.len()
            } else {
                8
            },
        );
        proof {
            lemma_head_decides(file@, head@);
        }
        let mut reader = WalReader::new(head, file.len() as u64);
        let records = match replay(file, &mut reader) {
            Ok(records) => records,
            Err(error) => return Err(error),
        };
        let (wal, needs_marker) = reader.finish();
        Ok(OpenedWal { wal, records, keep: reader.offset as usize, needs_marker })
    }

    /// True for a file without marker that is still appended to in its own encoding.
    pub fn is_legacy(&self) -> (legacy: bool)
        ensures
            legacy == (self.codec == Codec::LegacyJson),
    {
        self.codec == Codec::LegacyJson
    }

    /// The bytes to append for a single record.
    pub fn append(&self, record: &WalRecord) -> (bytes: Vec<u8>)
        ensures
            bytes@ == frames(self.codec, seq![record@]),
            readable(self.codec, seq![record@]),
    {
        let bytes = write_frame(self.codec, record);
        proof {
            reveal_with_fuel(frames, 2);
            assert(seq![record@].drop_last() =~= Seq::empty());
            assert(Seq::<u8>::empty() + bytes@ =~= bytes@);
        }
        bytes
    }

    /// The bytes to append for several records, so that a single sync covers all of them.
    pub fn append_batch(&self, records: &[WalRecord]) -> (bytes: Vec<u8>)
        ensures
            bytes@ == frames(self.codec, record_views(records@)),
            readable(self.codec, record_views(records@)),
    {
        let mut bytes: Vec<u8> = Vec::new();
        let ghost views = record_views(records@);
        let mut i: usize = 0;
        assert(views.take(0) =~= Seq::empty());
        while i < records.len()
            invariant
                i <= records@.len(),
                views == record_views(records@),
                bytes@ == frames(self.codec, views.take(i as int)),
                forall|j: int|
                    0 <= j < i ==> record_of(self.codec, payload_of(self.codec, #[trigger] views[j]))
                        == Some(views[j]),
            decreases records@.len() - i,
        {
            let mut framed = write_frame(self.codec, &records[i]);
            assert(views[i as int] == records@[i as int]@);
            assert(views.take(i + 1).drop_last() =~= views.take(i as int));
            bytes.append(&mut framed);
            i += 1;
        }
        assert(views.take(i as int) =~= views);
        bytes
    }

    /// The whole new contents of a file that is replaced by `records`, always with the marker.
    ///
    /// This is what bounds the log: the entries that a snapshot covers are left out. `records`
    /// must still carry the hard state: a node that comes back without its term and vote can vote
    /// twice in one term.
    pub fn rewrite(&mut self, records: &[WalRecord]) -> (file: Vec<u8>)
        ensures
            final(self).codec == Codec::PostcardV2,
            file@ == WAL_MAGIC_V2@ + frames(Codec::PostcardV2, record_views(records@)),
            readable(Codec::PostcardV2, record_views(records@)),
    {
        self.codec = Codec::PostcardV2;
        let mut file = marker();
        let mut bytes = self.append_batch(records);
        file.append(&mut bytes);
        file
    }
}

/// The format marker.
pub fn marker() -> (bytes: Vec<u8>)
    ensures
        bytes@ == WAL_MAGIC_V2@,
{
    let mut bytes: Vec<u8> = Vec::new();
    let mut i: usize = 0;
    while i < 8
        invariant
            i <= 8,
            bytes@.len() == i,
            forall|j: int| 0 <= j < i ==> bytes@[j] == WAL_MAGIC_V2@[j],
        decreases 8 - i,
    {
        bytes.push(WAL_MAGIC_V2[i]);
        i += 1;
    }
    assert(bytes@ =~= WAL_MAGIC_V2@);
    bytes
}

/// Every record is read back from its own payload.
pub open spec fn readable(codec: Codec, records: Seq<RecordView>) -> bool {
    forall|i: int|
        0 <= i < records.len() ==> record_of(codec, payload_of(codec, #[trigger] records[i]))
            == Some(records[i])
}

} // verus!
