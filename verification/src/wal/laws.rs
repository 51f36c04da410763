//! What a log file gives back of what was written to it.
use vstd::bytes::{
    lemma_auto_spec_u32_to_from_le_bytes, spec_u32_from_le_bytes, spec_u32_to_le_bytes,
};
use vstd::prelude::*;

use crate::wal::record::{payload_of, record_of, Codec, RecordView};
use crate::wal::{
    crc32, data_start, file_codec, file_scan, frame, frame_complete, frame_crc, frame_end,
    frame_len, frame_payload, frames, marked, readable, scan, OpenedWal, ReplayEnd, MAX_RECORD_LEN,
    RECORD_HEADER_LEN, WAL_MAGIC_V2,
};

verus! {

/// The file holds exactly these records and no torn tail.
pub open spec fn holds(file: Seq<u8>, records: Seq<RecordView>) -> bool {
    &&& file.len() >= 8
    &&& file_scan(file) == (records, ReplayEnd::Intact(file.len() as int))
}

/// No payload is larger than a replay takes.
pub open spec fn fit(codec: Codec, records: Seq<RecordView>) -> bool {
    forall|i: int|
        0 <= i < records.len() ==> payload_of(codec, #[trigger] records[i]).len() <= MAX_RECORD_LEN
}

proof fn lemma_frame_kept(file: Seq<u8>, longer: Seq<u8>, offset: int)
    requires
        0 <= offset,
        file.is_prefix_of(longer),
        frame_complete(file, offset),
    ensures
        frame_complete(longer, offset),
        frame_len(longer, offset) == frame_len(file, offset),
        frame_crc(longer, offset) == frame_crc(file, offset),
        frame_payload(longer, offset) == frame_payload(file, offset),
        frame_end(longer, offset) == frame_end(file, offset),
{
    assert(longer.subrange(0, file.len() as int) =~= file);
    assert(longer.subrange(offset, offset + 4) =~= file.subrange(offset, offset + 4));
    assert(longer.subrange(offset + 4, offset + 8) =~= file.subrange(offset + 4, offset + 8));
    assert(frame_payload(longer, offset) =~= frame_payload(file, offset));
}

/// A replay that reaches the end of a file goes on with whatever is appended.
proof fn lemma_scan_extended(
    file: Seq<u8>,
    longer: Seq<u8>,
    codec: Codec,
    offset: int,
)
    requires
        0 <= offset <= file.len(),
        file.is_prefix_of(longer),
        scan(file, codec, offset).1 == ReplayEnd::Intact(file.len() as int),
    ensures
        scan(longer, codec, offset).0 == scan(file, codec, offset).0 + scan(
            longer,
            codec,
            file.len() as int,
        ).0,
        scan(longer, codec, offset).1 == scan(longer, codec, file.len() as int).1,
    decreases file.len() - offset,
{
    if !frame_complete(file, offset) {
        assert(scan(file, codec, offset).0 + scan(longer, codec, offset).0 =~= scan(
            longer,
            codec,
            offset,
        ).0);
    } else {
        lemma_frame_kept(file, longer, offset);
        let end = frame_end(file, offset);
        lemma_scan_extended(file, longer, codec, end);
        let record = record_of(codec, frame_payload(file, offset))->0;
        assert(seq![record] + (scan(file, codec, end).0 + scan(longer, codec, file.len() as int).0)
            =~= (seq![record] + scan(file, codec, end).0) + scan(
            longer,
            codec,
            file.len() as int,
        ).0);
    }
}

/// Cutting a file back to what is intact changes nothing in its replay.
proof fn lemma_scan_cut(file: Seq<u8>, codec: Codec, offset: int, keep: int)
    requires
        0 <= offset <= file.len(),
        scan(file, codec, offset).1 == ReplayEnd::Intact(keep),
    ensures
        offset <= keep <= file.len(),
        keep == offset || keep >= offset + RECORD_HEADER_LEN,
        scan(file.take(keep), codec, offset) == scan(file, codec, offset),
    decreases file.len() - offset,
{
    let good = frame_complete(file, offset) && crc32(frame_payload(file, offset)) == frame_crc(
        file,
        offset,
    );
    if good {
        let end = frame_end(file, offset);
        lemma_scan_cut(file, codec, end, keep);
        assert(frame_complete(file.take(keep), offset)) by {
            assert(file.take(keep).subrange(offset, offset + 4) =~= file.subrange(
                offset,
                offset + 4,
            ));
        }
        assert(file.take(keep).is_prefix_of(file)) by {
            assert(file.subrange(0, keep) =~= file.take(keep));
        }
        lemma_frame_kept(file.take(keep), file, offset);
    } else {
        assert(keep == offset);
        assert(!frame_complete(file.take(keep), offset));
    }
}

proof fn lemma_marked_kept(file: Seq<u8>, longer: Seq<u8>)
    requires
        file.len() >= 8,
        file.is_prefix_of(longer),
    ensures
        marked(longer) == marked(file),
        file_codec(longer) == file_codec(file),
        data_start(longer) == data_start(file),
        data_start(file) <= file.len(),
{
    assert(longer.subrange(0, 8) =~= file.subrange(0, 8)) by {
        assert(longer.subrange(0, file.len() as int) =~= file);
        assert(file.subrange(0, 8) =~= longer.subrange(0, file.len() as int).subrange(0, 8));
    }
}

/// A frame is read back as what it was made from.
proof fn lemma_frame_read_back(file: Seq<u8>, payload: Seq<u8>)
    requires
        payload.len() <= MAX_RECORD_LEN,
    ensures
        ({
            let longer = file + frame(payload);
            let offset = file.len() as int;
            &&& frame_complete(longer, offset)
            &&& frame_payload(longer, offset) == payload
            &&& frame_crc(longer, offset) == crc32(payload)
            &&& frame_end(longer, offset) == longer.len()
        }),
{
    lemma_auto_spec_u32_to_from_le_bytes();
    let longer = file + frame(payload);
    let offset = file.len() as int;
    let len_bytes = spec_u32_to_le_bytes(payload.len() as u32);
    let crc_bytes = spec_u32_to_le_bytes(crc32(payload));
    assert(len_bytes.len() == 4 && crc_bytes.len() == 4);
    assert(longer.subrange(offset, offset + 4) =~= len_bytes);
    assert(longer.subrange(offset + 4, offset + 8) =~= crc_bytes);
    assert(frame_len(longer, offset) == payload.len());
    assert(frame_payload(longer, offset) =~= payload);
}

/// Records that are appended to a file are replayed behind the ones it held, and the file stays
/// what it was: neither its encoding nor an earlier record changes.
pub proof fn law_appended_records_are_replayed(
    file: Seq<u8>,
    held: Seq<RecordView>,
    added: Seq<RecordView>,
)
    requires
        holds(file, held),
        readable(file_codec(file), added),
        fit(file_codec(file), added),
    ensures
        holds(file + frames(file_codec(file), added), held + added),
        file_codec(file + frames(file_codec(file), added)) == file_codec(file),
    decreases added.len(),
{
    let codec = file_codec(file);
    if added.len() == 0 {
        assert(file + frames(codec, added) =~= file);
        assert(held + added =~= held);
    } else {
        let first = added.drop_last();
        let last = added.last();
        assert(readable(codec, first)) by {
            assert forall|i: int| 0 <= i < first.len() implies record_of(
                codec,
                payload_of(codec, #[trigger] first[i]),
            ) == Some(first[i]) by {
                assert(first[i] == added[i]);
            }
        }
        assert(fit(codec, first)) by {
            assert forall|i: int| 0 <= i < first.len() implies payload_of(
                codec,
                #[trigger] first[i],
            ).len() <= MAX_RECORD_LEN by {
                assert(first[i] == added[i]);
            }
        }
        law_appended_records_are_replayed(file, held, first);
        let middle = file + frames(codec, first);
        let payload = payload_of(codec, last);
        let longer = middle + frame(payload);
        assert(longer =~= file + frames(codec, added));
        assert(middle.is_prefix_of(longer)) by {
            assert(longer.subrange(0, middle.len() as int) =~= middle);
        }
        lemma_marked_kept(middle, longer);
        assert(added[added.len() - 1] == last);
        lemma_frame_read_back(middle, payload);
        lemma_scan_extended(middle, longer, codec, data_start(middle));
        assert(!frame_complete(longer, longer.len() as int));
        let end = longer.len() as int;
        assert(scan(longer, codec, end) == (Seq::<RecordView>::empty(), ReplayEnd::Intact(end)));
        assert(scan(longer, codec, middle.len() as int) == (
            seq![last] + scan(longer, codec, end).0,
            ReplayEnd::Intact(end),
        ));
        assert(scan(longer, codec, middle.len() as int).0 =~= seq![last]);
        assert((held + first) + seq![last] =~= held + added);
    }
}

/// A rewritten file holds exactly the records it was written with.
pub proof fn law_rewritten_file_holds_its_records(records: Seq<RecordView>)
    requires
        readable(Codec::PostcardV2, records),
        fit(Codec::PostcardV2, records),
    ensures
        holds(WAL_MAGIC_V2@ + frames(Codec::PostcardV2, records), records),
        file_codec(WAL_MAGIC_V2@ + frames(Codec::PostcardV2, records)) == Codec::PostcardV2,
{
    lemma_marker_file();
    law_appended_records_are_replayed(WAL_MAGIC_V2@, Seq::empty(), records);
    assert(Seq::<RecordView>::empty() + records =~= records);
}

proof fn lemma_marker_file()
    ensures
        holds(WAL_MAGIC_V2@, Seq::empty()),
        file_codec(WAL_MAGIC_V2@) == Codec::PostcardV2,
{
    assert(WAL_MAGIC_V2@.subrange(0, 8) =~= WAL_MAGIC_V2@);
}

/// An append that was cut short at any point costs exactly the record that was being written.
pub proof fn law_torn_tail_is_dropped(
    file: Seq<u8>,
    held: Seq<RecordView>,
    payload: Seq<u8>,
    cut: int,
)
    requires
        holds(file, held),
        payload.len() <= u32::MAX,
        0 <= cut < frame(payload).len(),
    ensures
        file_scan(file + frame(payload).take(cut)) == (
            held,
            ReplayEnd::Intact(file.len() as int),
        ),
{
    lemma_auto_spec_u32_to_from_le_bytes();
    let longer = file + frame(payload).take(cut);
    let codec = file_codec(file);
    let offset = file.len() as int;
    assert(file.is_prefix_of(longer)) by {
        assert(longer.subrange(0, offset) =~= file);
    }
    lemma_marked_kept(file, longer);
    lemma_scan_extended(file, longer, codec, data_start(file));
    let len_bytes = spec_u32_to_le_bytes(payload.len() as u32);
    assert(len_bytes.len() == 4 && spec_u32_to_le_bytes(crc32(payload)).len() == 4);
    if cut >= 8 {
        assert(longer.subrange(offset, offset + 4) =~= len_bytes);
        assert(frame_len(longer, offset) == payload.len());
    }
    assert(!frame_complete(longer, offset));
    assert(held + Seq::empty() =~= held);
}

/// A tail whose header names a length beyond the bound is dropped, whatever follows the header: no
/// record was ever written with such a length.
pub proof fn law_implausible_length_is_dropped(file: Seq<u8>, held: Seq<RecordView>, tail: Seq<u8>)
    requires
        holds(file, held),
        frame_len(file + tail, file.len() as int) > MAX_RECORD_LEN,
    ensures
        file_scan(file + tail) == (held, ReplayEnd::Intact(file.len() as int)),
{
    let longer = file + tail;
    assert(file.is_prefix_of(longer)) by {
        assert(longer.subrange(0, file.len() as int) =~= file);
    }
    lemma_marked_kept(file, longer);
    lemma_scan_extended(file, longer, file_codec(file), data_start(file));
    assert(!frame_complete(longer, file.len() as int));
    assert(held + Seq::empty() =~= held);
}

/// A complete record with a bad checksum at the very end of a file is dropped; with anything
/// behind it, it is reported with its offset.
pub proof fn law_damaged_record(file: Seq<u8>, held: Seq<RecordView>, damaged: Seq<u8>)
    requires
        holds(file, held),
        frame_complete(file + damaged, file.len() as int),
        crc32(frame_payload(file + damaged, file.len() as int)) != frame_crc(
            file + damaged,
            file.len() as int,
        ),
    ensures
        file_scan(file + damaged) == (
            held,
            if frame_end(file + damaged, file.len() as int) < (file + damaged).len() {
                ReplayEnd::Corrupt(file.len() as int)
            } else {
                ReplayEnd::Intact(file.len() as int)
            },
        ),
{
    let longer = file + damaged;
    assert(file.is_prefix_of(longer)) by {
        assert(longer.subrange(0, file.len() as int) =~= file);
    }
    lemma_marked_kept(file, longer);
    lemma_scan_extended(file, longer, file_codec(file), data_start(file));
    assert(held + Seq::empty() =~= held);
}

/// A file that was opened and cut back holds exactly the records that were replayed from it, in
/// the encoding in which it will be appended to.
pub proof fn law_repaired_file_holds_its_records(
    file: Seq<u8>,
    opened: OpenedWal,
    records: Seq<RecordView>,
)
    requires
        file_scan(file) == (records, ReplayEnd::Intact(opened.keep as int)),
        opened.needs_marker == (opened.keep == 0),
        opened.wal.codec == (if opened.keep == 0 {
            Codec::PostcardV2
        } else {
            file_codec(file)
        }),
    ensures
        holds(opened.repaired(file), records),
        file_codec(opened.repaired(file)) == opened.wal.codec,
{
    let keep = opened.keep as int;
    let repaired = opened.repaired(file);
    lemma_scan_cut(file, file_codec(file), data_start(file), keep);
    if keep == 0 {
        assert(records =~= Seq::empty()) by {
            if frame_complete(file, 0) && crc32(frame_payload(file, 0)) == frame_crc(file, 0) {
                lemma_scan_cut(file, file_codec(file), frame_end(file, 0), keep);
            }
        }
        assert(repaired =~= WAL_MAGIC_V2@);
        lemma_marker_file();
    } else {
        assert(repaired =~= file.take(keep));
        assert(repaired.is_prefix_of(file)) by {
            assert(file.subrange(0, keep) =~= repaired);
        }
        lemma_marked_kept(repaired, file);
    }
}

// ── The bytes themselves ───────────────────────────────────────────────────

/// A record that is appended is its length and its checksum, four bytes each with the lowest
/// first, and then its payload. Records stand one behind the other.
pub proof fn law_records_are_framed(codec: Codec, records: Seq<RecordView>, record: RecordView)
    ensures
        ({
            let payload = payload_of(codec, record);
            frames(codec, records.push(record)) == frames(codec, records) + spec_u32_to_le_bytes(
                payload.len() as u32,
            ) + spec_u32_to_le_bytes(crc32(payload)) + payload
        }),
        frames(codec, Seq::empty()) == Seq::<u8>::empty(),
{
    let payload = payload_of(codec, record);
    assert(records.push(record).drop_last() =~= records);
    assert(frames(codec, records) + frame(payload) =~= frames(codec, records)
        + spec_u32_to_le_bytes(payload.len() as u32) + spec_u32_to_le_bytes(crc32(payload))
        + payload);
}

/// A file that begins with the marker, or that is empty, is of the current format, and every other
/// file is of the older one. Its records stand behind the marker, or at its start.
pub proof fn law_marker_decides_the_format(file: Seq<u8>)
    ensures
        ({
            let magic = seq![82u8, 75u8, 86u8, 87u8, 65u8, 76u8, 2u8, 10u8];
            let has_marker = file.len() >= 8 && file.subrange(0, 8) == magic;
            &&& file_codec(file) == (if has_marker || file.len() == 0 {
                Codec::PostcardV2
            } else {
                Codec::LegacyJson
            })
            &&& file_scan(file) == scan(
                file,
                file_codec(file),
                if has_marker {
                    8
                } else {
                    0
                },
            )
        }),
{
    let magic = seq![82u8, 75u8, 86u8, 87u8, 65u8, 76u8, 2u8, 10u8];
    assert(WAL_MAGIC_V2@ =~= magic);
}

/// A file of the current format gives back all of its records, in order, as long as none of their
/// payloads is larger than 64 MiB.
pub proof fn law_written_file_is_read_back(records: Seq<RecordView>)
    requires
        readable(Codec::PostcardV2, records),
        forall|i: int|
            0 <= i < records.len() ==> payload_of(Codec::PostcardV2, #[trigger] records[i]).len()
                <= 64 * 1024 * 1024,
    ensures
        ({
            let file = seq![82u8, 75u8, 86u8, 87u8, 65u8, 76u8, 2u8, 10u8] + frames(
                Codec::PostcardV2,
                records,
            );
            file_scan(file) == (records, ReplayEnd::Intact(file.len() as int))
        }),
{
    law_rewritten_file_holds_its_records(records);
    assert(WAL_MAGIC_V2@ =~= seq![82u8, 75u8, 86u8, 87u8, 65u8, 76u8, 2u8, 10u8]);
}

/// So does a file of the older format, which has no marker. Its first bytes are the length of the
/// first record, and that is not what the marker would spell.
pub proof fn law_legacy_file_is_read_back(records: Seq<RecordView>)
    requires
        records.len() > 0,
        spec_u32_to_le_bytes(payload_of(Codec::LegacyJson, records[0]).len() as u32)
            != seq![82u8, 75u8, 86u8, 87u8],
        readable(Codec::LegacyJson, records),
        forall|i: int|
            0 <= i < records.len() ==> payload_of(Codec::LegacyJson, #[trigger] records[i]).len()
                <= 64 * 1024 * 1024,
    ensures
        ({
            let file = frames(Codec::LegacyJson, records);
            &&& file_codec(file) == Codec::LegacyJson
            &&& file_scan(file) == (records, ReplayEnd::Intact(file.len() as int))
        }),
{
    let codec = Codec::LegacyJson;
    let first = records[0];
    let rest = records.skip(1);
    let payload = payload_of(codec, first);
    let file = frame(payload);
    lemma_auto_spec_u32_to_from_le_bytes();
    lemma_frame_read_back(Seq::empty(), payload);
    assert(Seq::<u8>::empty() + file =~= file);
    assert(!marked(file)) by {
        if marked(file) {
            assert(file.subrange(0, 8) =~= WAL_MAGIC_V2@);
            let magic_len = WAL_MAGIC_V2@.subrange(0, 4);
            assert(file.subrange(0, 4) =~= magic_len);
            assert(magic_len =~= seq![82u8, 75u8, 86u8, 87u8]);
            assert(file.subrange(0, 4) =~= spec_u32_to_le_bytes(payload.len() as u32));
        }
    }
    assert(scan(file, codec, file.len() as int) == (
        Seq::<RecordView>::empty(),
        ReplayEnd::Intact(file.len() as int),
    ));
    assert(scan(file, codec, 0).0 =~= seq![first]);
    assert(holds(file, seq![first]));
    assert(readable(codec, rest)) by {
        assert forall|i: int| 0 <= i < rest.len() implies record_of(
            codec,
            payload_of(codec, #[trigger] rest[i]),
        ) == Some(rest[i]) by {
            assert(rest[i] == records[i + 1]);
        }
    }
    assert(fit(codec, rest)) by {
        assert forall|i: int| 0 <= i < rest.len() implies payload_of(
            codec,
            #[trigger] rest[i],
        ).len() <= MAX_RECORD_LEN by {
            assert(rest[i] == records[i + 1]);
        }
    }
    law_appended_records_are_replayed(file, seq![first], rest);
    lemma_frames_split(codec, first, rest);
    assert(seq![first] + rest =~= records);
}

proof fn lemma_frames_split(codec: Codec, first: RecordView, rest: Seq<RecordView>)
    ensures
        frames(codec, seq![first] + rest) == frame(payload_of(codec, first)) + frames(codec, rest),
    decreases rest.len(),
{
    let all = seq![first] + rest;
    let head = frame(payload_of(codec, first));
    if rest.len() == 0 {
        assert(all.drop_last() =~= Seq::empty());
        assert(all.last() == first);
        assert(frames(codec, Seq::empty()) + head =~= head + frames(codec, rest));
    } else {
        lemma_frames_split(codec, first, rest.drop_last());
        assert(all.drop_last() =~= seq![first] + rest.drop_last());
        let tail = frame(payload_of(codec, rest.last()));
        assert((head + frames(codec, rest.drop_last())) + tail =~= head + (frames(
            codec,
            rest.drop_last(),
        ) + tail));
    }
}

/// A replay stops in front of what is not a whole record: fewer bytes than a length and a checksum
/// take, fewer than the length says, or a length above 64 MiB.
pub proof fn law_replay_stops_at_a_torn_record(file: Seq<u8>, codec: Codec, offset: int)
    requires
        0 <= offset <= file.len(),
    ensures
        ({
            let len = spec_u32_from_le_bytes(file.subrange(offset, offset + 4)) as int;
            file.len() < offset + 8 || len > 64 * 1024 * 1024 || file.len() < offset + 8 + len
                ==> scan(file, codec, offset) == (
                Seq::<RecordView>::empty(),
                ReplayEnd::Intact(offset),
            )
        }),
{
}

/// A whole record whose checksum is good is replayed, and the replay goes on behind it; if it
/// stands for nothing the replay ends there. One whose checksum is bad ends the replay too: as a
/// torn tail if nothing stands behind it, and as damage otherwise.
pub proof fn law_replay_goes_on_behind_a_good_record(file: Seq<u8>, codec: Codec, offset: int)
    requires
        0 <= offset,
        offset + 8 <= file.len(),
        spec_u32_from_le_bytes(file.subrange(offset, offset + 4)) <= 64 * 1024 * 1024,
        offset + 8 + spec_u32_from_le_bytes(file.subrange(offset, offset + 4)) <= file.len(),
    ensures
        ({
            let end = offset + 8 + spec_u32_from_le_bytes(file.subrange(offset, offset + 4));
            let payload = file.subrange(offset + 8, end);
            let good = crc32(payload) == spec_u32_from_le_bytes(
                file.subrange(offset + 4, offset + 8),
            );
            let (records, stop) = scan(file, codec, offset);
            &&& good && record_of(codec, payload) is Some ==> {
                &&& records == seq![record_of(codec, payload)->0] + scan(file, codec, end).0
                &&& stop == scan(file, codec, end).1
            }
            &&& good && record_of(codec, payload) is None ==> records.len() == 0 && stop
                == ReplayEnd::Undecodable(offset)
            &&& !good && end < file.len() ==> records.len() == 0 && stop == ReplayEnd::Corrupt(
                offset,
            )
            &&& !good && end == file.len() ==> records.len() == 0 && stop == ReplayEnd::Intact(
                offset,
            )
        }),
{
}

} // verus!
