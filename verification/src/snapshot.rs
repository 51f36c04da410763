//! State-machine snapshots, one file each, outside the write-ahead log.
//!
//! File layout (little-endian):
//!   [8 bytes]  `RKVSNAP\x01`
//!   [8 bytes]  last_index
//!   [8 bytes]  last_term
//!   [4 bytes]  CRC32 of the data
//!   [8 bytes]  data length
//!   [N bytes]  data
use vstd::bytes::{
    lemma_auto_spec_u32_to_from_le_bytes, lemma_auto_spec_u64_to_from_le_bytes,
    spec_u32_from_le_bytes, spec_u32_to_le_bytes, spec_u64_from_le_bytes, spec_u64_to_le_bytes,
    u32_from_le_bytes, u32_to_le_bytes, u64_from_le_bytes, u64_to_le_bytes,
};
use vstd::prelude::*;
use vstd::slice::slice_subrange;

use crate::message::{LogIndex, Snapshot, SnapshotView};
use crate::text::{
    decimal, lemma_decimal_reads_back, number_of, parse_number, starts_with, to_decimal,
};
use crate::wal::crc32;

verus! {

pub const SNAPSHOT_MAGIC: [u8; 8] = [82, 75, 86, 83, 78, 65, 80, 1];

pub const HEADER_LEN: usize = 36;

#[derive(Debug)]
pub enum SnapshotError {
    Corrupt { path: String, reason: &'static str },
}

// ── One file ───────────────────────────────────────────────────────────────

/// A snapshot as it stands in its file.
pub open spec fn snapshot_file(snapshot: SnapshotView) -> Seq<u8> {
    SNAPSHOT_MAGIC@ + spec_u64_to_le_bytes(snapshot.last_index) + spec_u64_to_le_bytes(
        snapshot.last_term,
    ) + spec_u32_to_le_bytes(crc32(snapshot.data)) + spec_u64_to_le_bytes(
        snapshot.data.len() as u64,
    ) + snapshot.data
}

/// What is wrong with a file, if anything: the first of these that applies.
pub open spec fn defect(file: Seq<u8>) -> Option<Seq<char>> {
    if file.len() < HEADER_LEN {
        Some("shorter than its header"@)
    } else if file.subrange(0, 8) != SNAPSHOT_MAGIC@ {
        Some("bad magic"@)
    } else if spec_u64_from_le_bytes(file.subrange(28, 36)) != file.len() - HEADER_LEN {
        Some("length does not match the file"@)
    } else if crc32(file.skip(HEADER_LEN as int)) != spec_u32_from_le_bytes(file.subrange(24, 28)) {
        Some("checksum mismatch"@)
    } else {
        None
    }
}

/// The snapshot that a file without defect holds.
pub open spec fn held_snapshot(file: Seq<u8>) -> SnapshotView {
    SnapshotView {
        last_index: spec_u64_from_le_bytes(file.subrange(8, 16)),
        last_term: spec_u64_from_le_bytes(file.subrange(16, 24)),
        data: file.skip(HEADER_LEN as int),
    }
}

/// A snapshot that was written is read back as it was.
pub proof fn law_snapshot_reads_back(snapshot: SnapshotView)
    requires
        snapshot.data.len() <= u64::MAX,
    ensures
        defect(snapshot_file(snapshot)) is None,
        held_snapshot(snapshot_file(snapshot)) == snapshot,
{
    lemma_auto_spec_u32_to_from_le_bytes();
    lemma_auto_spec_u64_to_from_le_bytes();
    let file = snapshot_file(snapshot);
    assert(spec_u64_to_le_bytes(snapshot.last_index).len() == 8);
    assert(spec_u64_to_le_bytes(snapshot.last_term).len() == 8);
    assert(spec_u32_to_le_bytes(crc32(snapshot.data)).len() == 4);
    assert(spec_u64_to_le_bytes(snapshot.data.len() as u64).len() == 8);
    assert(file.subrange(0, 8) =~= SNAPSHOT_MAGIC@);
    assert(file.subrange(8, 16) =~= spec_u64_to_le_bytes(snapshot.last_index));
    assert(file.subrange(16, 24) =~= spec_u64_to_le_bytes(snapshot.last_term));
    assert(file.subrange(24, 28) =~= spec_u32_to_le_bytes(crc32(snapshot.data)));
    assert(file.subrange(28, 36) =~= spec_u64_to_le_bytes(snapshot.data.len() as u64));
    assert(file.skip(HEADER_LEN as int) =~= snapshot.data);
}

fn has_magic(file: &[u8]) -> (res: bool)
    requires
        file@.len() >= 8,
    ensures
        res == (file@.subrange(0, 8) == SNAPSHOT_MAGIC@),
{
    let mut i: usize = 0;
    while i < 8
        invariant
            i <= 8 <= file@.len(),
            forall|j: int| 0 <= j < i ==> file@[j] == SNAPSHOT_MAGIC@[j],
        decreases 8 - i,
    {
        if file[i] != SNAPSHOT_MAGIC[i] {
            assert(file@.subrange(0, 8)[i as int] != SNAPSHOT_MAGIC@[i as int]);
            return false;
        }
        i += 1;
    }
    assert(file@.subrange(0, 8) =~= SNAPSHOT_MAGIC@);
    true
}

impl Snapshot {
    /// The contents of the snapshot's file.
    pub fn to_file(&self) -> (file: Vec<u8>)
        ensures
            file@ == snapshot_file(self@),
    {
        let mut file: Vec<u8> = Vec::new();
        let mut i: usize = 0;
        while i < 8
            invariant
                i <= 8,
                file@.len() == i,
                forall|j: int| 0 <= j < i ==> file@[j] == SNAPSHOT_MAGIC@[j],
            decreases 8 - i,
        {
            file.push(SNAPSHOT_MAGIC[i]);
            i += 1;
        }
        assert(file@ =~= SNAPSHOT_MAGIC@);
        let mut index = u64_to_le_bytes(self.last_index);
        let mut term = u64_to_le_bytes(self.last_term);
        let mut crc = u32_to_le_bytes(crc32fast::hash(self.data.as_slice()));
        let mut len = u64_to_le_bytes(self.data.len() as u64);
        let mut data = self.data.clone();
        assert(data@ =~= self.data@);
        file.append(&mut index);
        file.append(&mut term);
        file.append(&mut crc);
        file.append(&mut len);
        file.append(&mut data);
        file
    }

    /// Reads a snapshot file. The data is sized by the file, never by the number in its header.
    pub fn from_file(path: &str, file: &[u8]) -> (snapshot: Result<Snapshot, SnapshotError>)
        ensures
            match snapshot {
                Ok(s) => defect(file@) is None && s@ == held_snapshot(file@),
                Err(SnapshotError::Corrupt { path: p, reason }) => p@ == path@ && defect(file@)
                    == Some(reason@),
            },
    {
        if file.len() < HEADER_LEN {
            return Err(
                SnapshotError::Corrupt { path: path.to_owned(), reason: "shorter than its header" },
            );
        }
        if !has_magic(file) {
            return Err(SnapshotError::Corrupt { path: path.to_owned(), reason: "bad magic" });
        }
        let last_index = u64_from_le_bytes(slice_subrange(file, 8, 16));
        let last_term = u64_from_le_bytes(slice_subrange(file, 16, 24));
        let expected_crc = u32_from_le_bytes(slice_subrange(file, 24, 28));
        let data_len = u64_from_le_bytes(slice_subrange(file, 28, 36));
        if data_len != (file.len() - HEADER_LEN) as u64 {
            return Err(
                SnapshotError::Corrupt {
                    path: path.to_owned(),
                    reason: "length does not match the file",
                },
            );
        }
        let data = slice_subrange(file, HEADER_LEN, file.len());
        assert(data@ =~= file@.skip(HEADER_LEN as int));
        if crc32fast::hash(data) != expected_crc {
            return Err(SnapshotError::Corrupt { path: path.to_owned(), reason: "checksum mismatch" });
        }
        let data = vstd::slice::slice_to_vec(data);
        assert(data@ =~= file@.skip(HEADER_LEN as int));
        Ok(Snapshot { last_index, last_term, data })
    }
}

// ── The files of one directory ─────────────────────────────────────────────

/// The name of the file for the snapshot at `index`.
pub open spec fn file_name(index: LogIndex) -> Seq<char> {
    "snapshot-"@ + decimal(index as nat) + ".bin"@
}

/// The index that a file name stands for, if it is the name of a snapshot.
pub open spec fn named_index(name: Seq<char>) -> Option<LogIndex> {
    let prefix = "snapshot-"@.len() as int;
    let suffix = ".bin"@.len() as int;
    if "snapshot-"@.is_prefix_of(name) && prefix + suffix <= name.len() && name.skip(
        name.len() - suffix,
    ) == ".bin"@ {
        number_of(name.subrange(prefix, name.len() - suffix))
    } else {
        None
    }
}

/// A file left behind by a save that was interrupted.
pub open spec fn is_temporary(name: Seq<char>) -> bool {
    name.len() > 4 && name.skip(name.len() - 4) == ".tmp"@
}

pub type Listing = Seq<(LogIndex, Seq<char>)>;

pub open spec fn name_views(names: Seq<String>) -> Seq<Seq<char>> {
    names.map_values(|n: String| n@)
}

pub open spec fn listing_views(listed: Seq<(LogIndex, String)>) -> Listing {
    listed.map_values(|l: (LogIndex, String)| (l.0, l.1@))
}

/// The snapshots among some file names, with their indexes.
pub open spec fn snapshots_among(names: Seq<Seq<char>>) -> Listing {
    names.filter_map(
        |name: Seq<char>|
            match named_index(name) {
                Some(index) => Some((index, name)),
                None => None,
            },
    )
}

pub open spec fn newest_first(listed: Listing) -> bool {
    forall|i: int, j: int|
        0 <= i < j < listed.len() ==> (#[trigger] listed[i]).0 >= (#[trigger] listed[j]).0
}

/// The snapshots among some file names, the newest first.
pub open spec fn is_listing(listed: Listing, names: Seq<Seq<char>>) -> bool {
    newest_first(listed) && listed.to_multiset() == snapshots_among(names).to_multiset()
}

/// A snapshot is found again under the name it was saved with.
pub proof fn law_snapshot_name_reads_back(index: LogIndex)
    ensures
        named_index(file_name(index)) == Some(index),
        !is_temporary(file_name(index)),
{
    lemma_decimal_reads_back(index);
    reveal_strlit("snapshot-");
    reveal_strlit(".bin");
    reveal_strlit(".tmp");
    let name = file_name(index);
    let digits = decimal(index as nat);
    assert("snapshot-"@.len() == 9 && ".bin"@.len() == 4);
    assert(name.subrange(0, 9) =~= "snapshot-"@);
    assert(name.skip(name.len() - 4) =~= ".bin"@);
    assert(name.subrange(9, name.len() - 4) =~= digits);
    assert(".bin"@[1] != ".tmp"@[1]);
}

/// The `snapshot-{index}.bin` files under one data directory.
#[derive(Debug)]
pub struct SnapshotStore {
    pub dir: String,
}

impl SnapshotStore {
    pub fn new(dir: String) -> (store: Self)
        ensures
            store.dir == dir,
    {
        SnapshotStore { dir }
    }

    /// The name of the file for the snapshot at `index`.
    pub fn file_name(index: LogIndex) -> (name: String)
        ensures
            name@ == file_name(index),
    {
        let mut name: String = "snapshot-".to_owned();
        let digits = to_decimal(index);
        name.append(digits.as_str());
        name.append(".bin");
        name
    }

    /// The index that a file name stands for, if it is the name of a snapshot.
    pub fn named_index(name: &str) -> (index: Option<LogIndex>)
        ensures
            index == named_index(name@),
    {
        proof {
            reveal_strlit("snapshot-");
            reveal_strlit(".bin");
        }
        assert("snapshot-"@.len() == 9 && ".bin"@.len() == 4);
        if !starts_with(name, "snapshot-") {
            return None;
        }
        let len = name.unicode_len();
        if len < 13 {
            return None;
        }
        let suffix: String = name.substring_char(len - 4, len).to_owned();
        assert(suffix@ =~= name@.skip(name@.len() - 4));
        if suffix != ".bin".to_owned() {
            return None;
        }
        parse_number(name.substring_char(9, len - 4))
    }

    fn is_temporary(name: &str) -> (res: bool)
        ensures
            res == is_temporary(name@),
    {
        let len = name.unicode_len();
        if len <= 4 {
            return false;
        }
        let suffix: String = name.substring_char(len - 4, len).to_owned();
        assert(suffix@ =~= name@.skip(name@.len() - 4));
        suffix == ".tmp".to_owned()
    }

    /// Every `snapshot-{index}.bin` among the names in the directory, newest first.
    pub fn list(&self, names: &[String]) -> (listed: Vec<(LogIndex, String)>)
        ensures
            is_listing(listing_views(listed@), name_views(names@)),
    {
        let mut listed: Vec<(LogIndex, String)> = Vec::new();
        let ghost views = name_views(names@);
        let mut i: usize = 0;
        proof {
            assert(listing_views(listed@) =~= Seq::empty());
            assert(snapshots_among(views.take(0)) =~= Seq::empty());
        }
        while i < names.len()
            invariant
                i <= names@.len(),
                views == name_views(names@),
                is_listing(listing_views(listed@), views.take(i as int)),
            decreases names@.len() - i,
        {
            assert(views[i as int] == names@[i as int]@);
            assert(views.take(i + 1).drop_last() =~= views.take(i as int));
            if let Some(index) = Self::named_index(names[i].as_str()) {
                let ghost before = listing_views(listed@);
                let at = Self::slot(&listed, index);
                listed.insert(at, (index, names[i].clone()));
                proof {
                    let pair = (index, views[i as int]);
                    assert(listing_views(listed@) =~= before.insert(at as int, pair));
                    lemma_multiset_insert(before, at as int, pair);
                    let among = snapshots_among(views.take(i as int));
                    assert(snapshots_among(views.take(i + 1)) =~= among.push(pair));
                    broadcast use vstd::seq_lib::group_to_multiset_ensures;

                    assert(among.push(pair).to_multiset() =~= among.to_multiset().insert(pair));
                }
            }
            i += 1;
        }
        assert(views.take(i as int) =~= views);
        listed
    }

    /// The first position behind everything that is at least as new.
    fn slot(listed: &Vec<(LogIndex, String)>, index: LogIndex) -> (at: usize)
        requires
            newest_first(listing_views(listed@)),
        ensures
            at <= listed@.len(),
            forall|i: int| 0 <= i < at ==> (#[trigger] listing_views(listed@)[i]).0 >= index,
            forall|i: int|
                at <= i < listed@.len() ==> (#[trigger] listing_views(listed@)[i]).0 < index,
    {
        let ghost views = listing_views(listed@);
        let mut at: usize = 0;
        while at < listed.len() && listed[at].0 >= index
            invariant
                at <= listed@.len(),
                views == listing_views(listed@),
                forall|i: int| 0 <= i < at ==> (#[trigger] views[i]).0 >= index,
            decreases listed@.len() - at,
        {
            assert(views[at as int].0 == listed@[at as int].0);
            at += 1;
        }
        proof {
            assert forall|i: int| at <= i < listed@.len() implies (#[trigger] views[i]).0 < index by {
                assert(views[at as int].0 == listed@[at as int].0);
                assert(views[at as int].0 < index);
            }
        }
        at
    }

    /// The index of the newest snapshot among the names.
    pub fn latest_index(&self, names: &[String]) -> (latest: Option<LogIndex>)
        ensures
            ({
                let among = snapshots_among(name_views(names@));
                match latest {
                    None => among.len() == 0,
                    Some(index) => (exists|i: int|
                        0 <= i < among.len() && (#[trigger] among[i]).0 == index) && forall|i: int|
                        0 <= i < among.len() ==> (#[trigger] among[i]).0 <= index,
                }
            }),
    {
        let listed = self.list(names);
        let ghost views = listing_views(listed@);
        let ghost among = snapshots_among(name_views(names@));
        proof {
            broadcast use vstd::seq_lib::group_to_multiset_ensures;

            assert(views.to_multiset().len() == among.to_multiset().len());
            assert(views.len() == among.len());
        }
        if listed.len() == 0 {
            None
        } else {
            proof {
                broadcast use vstd::seq_lib::group_to_multiset_ensures;

                assert(views[0].0 == listed@[0].0);
                assert(views.contains(views[0]));
                assert(among.to_multiset().count(views[0]) > 0);
                assert(among.contains(views[0]));
                assert forall|i: int| 0 <= i < among.len() implies (#[trigger] among[i]).0
                    <= views[0].0 by {
                    assert(among.contains(among[i]));
                    assert(views.to_multiset().count(among[i]) > 0);
                    assert(views.contains(among[i]));
                }
            }
            Some(listed[0].0)
        }
    }

    /// The names of the files to delete: all but the `keep` newest snapshots, and every file left
    /// behind by an interrupted save.
    pub fn prune(&self, names: &[String], keep: usize) -> (doomed: Vec<String>)
        ensures
            exists|listed: Listing| #[trigger]
                is_listing(listed, name_views(names@)) && name_views(doomed@) == outdated(
                    listed,
                    keep as int,
                ) + name_views(names@).filter(|name: Seq<char>| is_temporary(name)),
    {
        let listed = self.list(names);
        let ghost listing = listing_views(listed@);
        let ghost views = name_views(names@);
        let ghost temporary = |name: Seq<char>| is_temporary(name);
        let mut doomed: Vec<String> = Vec::new();
        let mut i: usize = keep;
        proof {
            assert(name_views(doomed@) =~= Seq::empty());
            assert(keep <= listed@.len() ==> listing.subrange(keep as int, keep as int).map_values(
                |l: (LogIndex, Seq<char>)| l.1,
            ) =~= Seq::empty());
        }
        while i < listed.len()
            invariant
                keep <= i,
                keep <= listed@.len() ==> i <= listed@.len(),
                keep > listed@.len() ==> i == keep,
                listing == listing_views(listed@),
                keep <= listed@.len() ==> name_views(doomed@) == listing.subrange(
                    keep as int,
                    i as int,
                ).map_values(|l: (LogIndex, Seq<char>)| l.1),
                keep > listed@.len() ==> name_views(doomed@) == Seq::<Seq<char>>::empty(),
            decreases listed@.len() - i,
        {
            let ghost before = doomed@;
            doomed.push(listed[i].1.clone());
            proof {
                assert(listing[i as int] == (listed@[i as int].0, listed@[i as int].1@));
                assert(name_views(doomed@) =~= name_views(before).push(listing[i as int].1));
                assert(listing.subrange(keep as int, i + 1).map_values(
                    |l: (LogIndex, Seq<char>)| l.1,
                ) =~= listing.subrange(keep as int, i as int).map_values(
                    |l: (LogIndex, Seq<char>)| l.1,
                ).push(listing[i as int].1));
            }
            i += 1;
        }
        let ghost old = outdated(listing, keep as int);
        assert(name_views(doomed@) =~= old);
        let mut j: usize = 0;
        proof {
            reveal(Seq::filter);
            assert(old + views.take(0).filter(temporary) =~= old);
        }
        while j < names.len()
            invariant
                j <= names@.len(),
                views == name_views(names@),
                temporary == (|name: Seq<char>| is_temporary(name)),
                name_views(doomed@) == old + views.take(j as int).filter(temporary),
            decreases names@.len() - j,
        {
            let ghost before = doomed@;
            let is_temp = Self::is_temporary(names[j].as_str());
            if is_temp {
                doomed.push(names[j].clone());
            }
            proof {
                reveal(Seq::filter);
                assert(views[j as int] == names@[j as int]@);
                assert(views.take(j + 1).drop_last() =~= views.take(j as int));
                if is_temp {
                    assert(name_views(doomed@) =~= name_views(before).push(views[j as int]));
                    assert((old + views.take(j as int).filter(temporary)).push(views[j as int])
                        =~= old + views.take(j as int).filter(temporary).push(views[j as int]));
                }
            }
            j += 1;
        }
        assert(views.take(j as int) =~= views);
        assert(is_listing(listing, views));
        doomed
    }
}

/// The names behind the `keep` newest snapshots of a listing.
pub open spec fn outdated(listed: Listing, keep: int) -> Seq<Seq<char>> {
    (if keep <= listed.len() {
        listed.skip(keep)
    } else {
        Seq::empty()
    }).map_values(|l: (LogIndex, Seq<char>)| l.1)
}

proof fn lemma_multiset_insert<A>(items: Seq<A>, at: int, item: A)
    requires
        0 <= at <= items.len(),
    ensures
        items.insert(at, item).to_multiset() == items.to_multiset().insert(item),
{
    broadcast use vstd::seq_lib::group_to_multiset_ensures;

    let longer = items.insert(at, item);
    assert(longer.remove(at) =~= items);
    assert(longer[at] == item);
    assert(longer.contains(item));
    assert(items.to_multiset() == longer.to_multiset().remove(item));
    assert(longer.to_multiset() =~= items.to_multiset().insert(item));
}

// ── Loading ────────────────────────────────────────────────────────────────

/// A snapshot file with its index and contents.
#[derive(Debug)]
pub struct SnapshotFile {
    pub index: LogIndex,
    pub path: String,
    pub contents: Vec<u8>,
}

/// The file can be read and no newer one can.
pub open spec fn is_newest_readable(files: Seq<SnapshotFile>, i: int) -> bool {
    &&& 0 <= i < files.len()
    &&& defect(files[i].contents@) is None
    &&& forall|j: int|
        0 <= j < files.len() && defect((#[trigger] files[j]).contents@) is None ==> files[j].index
            <= files[i].index
}

/// The newest snapshot that was saved intact is the one that is loaded, whatever state the other
/// files are in.
pub proof fn law_saved_snapshot_is_loaded(
    files: Seq<SnapshotFile>,
    i: int,
    snapshot: SnapshotView,
    loaded: int,
)
    requires
        0 <= i < files.len(),
        snapshot.data.len() <= u64::MAX,
        files[i].contents@ == snapshot_file(snapshot),
        forall|j: int|
            0 <= j < files.len() && j != i ==> (#[trigger] files[j]).index < files[i].index,
        is_newest_readable(files, loaded),
    ensures
        loaded == i,
        held_snapshot(files[loaded].contents@) == snapshot,
{
    law_snapshot_reads_back(snapshot);
}

impl SnapshotStore {
    /// The file to write for a snapshot.
    pub fn save(&self, snapshot: &Snapshot) -> (file: SnapshotFile)
        ensures
            file.index == snapshot@.last_index,
            file.path@ == file_name(snapshot@.last_index),
            file.contents@ == snapshot_file(snapshot@),
    {
        SnapshotFile {
            index: snapshot.last_index,
            path: Self::file_name(snapshot.last_index),
            contents: snapshot.to_file(),
        }
    }

    /// The newest readable snapshot. A file that fails its check is skipped rather than failing the
    /// whole load: an older snapshot plus the log still restores the node, while refusing to start
    /// does not.
    pub fn load_latest(&self, files: &[SnapshotFile]) -> (latest: Option<Snapshot>)
        ensures
            match latest {
                None => forall|i: int|
                    0 <= i < files@.len() ==> defect((#[trigger] files@[i]).contents@) is Some,
                Some(snapshot) => exists|i: int| #[trigger]
                    is_newest_readable(files@, i) && snapshot@ == held_snapshot(files@[i].contents@),
            },
    {
        let mut best: Option<(usize, Snapshot)> = None;
        let mut i: usize = 0;
        while i < files.len()
            invariant
                i <= files@.len(),
                match best {
                    None => forall|j: int|
                        0 <= j < i ==> defect((#[trigger] files@[j]).contents@) is Some,
                    Some((b, snapshot)) => {
                        &&& b < i
                        &&& defect(files@[b as int].contents@) is None
                        &&& snapshot@ == held_snapshot(files@[b as int].contents@)
                        &&& forall|j: int|
                            0 <= j < i && defect((#[trigger] files@[j]).contents@) is None
                                ==> files@[j].index <= files@[b as int].index
                    },
                },
            decreases files@.len() - i,
        {
            let newer = match &best {
                None => true,
                Some((b, _)) => files[i].index > files[*b].index,
            };
            if newer {
                if let Ok(snapshot) = Snapshot::from_file(
                    files[i].path.as_str(),
                    files[i].contents.as_slice(),
                ) {
                    best = Some((i, snapshot));
                }
            }
            i += 1;
        }
        match best {
            None => None,
            Some((b, snapshot)) => {
                assert(is_newest_readable(files@, b as int));
                Some(snapshot)
            },
        }
    }
}

// ── Laws on files and names ────────────────────────────────────────────────

/// The layout of a snapshot file: the magic, the index, the term, the checksum of the data, the
/// length of the data, and the data itself.
pub proof fn law_snapshot_file_layout(snapshot: SnapshotView)
    requires
        snapshot.data.len() <= u64::MAX,
    ensures
        ({
            let file = snapshot_file(snapshot);
            &&& file.len() == 36 + snapshot.data.len()
            &&& file.subrange(0, 8) == seq![82u8, 75u8, 86u8, 83u8, 78u8, 65u8, 80u8, 1u8]
            &&& file.subrange(8, 16) == spec_u64_to_le_bytes(snapshot.last_index)
            &&& file.subrange(16, 24) == spec_u64_to_le_bytes(snapshot.last_term)
            &&& file.subrange(24, 28) == spec_u32_to_le_bytes(crc32(snapshot.data))
            &&& file.subrange(28, 36) == spec_u64_to_le_bytes(snapshot.data.len() as u64)
            &&& file.skip(36) == snapshot.data
        }),
{
    lemma_auto_spec_u64_to_from_le_bytes();
    lemma_auto_spec_u32_to_from_le_bytes();
    let file = snapshot_file(snapshot);
    assert(file.subrange(0, 8) =~= seq![82u8, 75u8, 86u8, 83u8, 78u8, 65u8, 80u8, 1u8]);
    assert(file.subrange(8, 16) =~= spec_u64_to_le_bytes(snapshot.last_index));
    assert(file.subrange(16, 24) =~= spec_u64_to_le_bytes(snapshot.last_term));
    assert(file.subrange(24, 28) =~= spec_u32_to_le_bytes(crc32(snapshot.data)));
    assert(file.subrange(28, 36) =~= spec_u64_to_le_bytes(snapshot.data.len() as u64));
    assert(file.skip(36) =~= snapshot.data);
}

/// A file is accepted only if it is what is written for the snapshot that is read from it.
pub proof fn law_accepted_file_is_a_written_one(file: Seq<u8>)
    requires
        defect(file) is None,
    ensures
        file == snapshot_file(held_snapshot(file)),
{
    lemma_auto_spec_u64_to_from_le_bytes();
    lemma_auto_spec_u32_to_from_le_bytes();
    let held = held_snapshot(file);
    assert(spec_u64_to_le_bytes(held.last_index) == file.subrange(8, 16));
    assert(spec_u64_to_le_bytes(held.last_term) == file.subrange(16, 24));
    assert(spec_u32_to_le_bytes(crc32(held.data)) == file.subrange(24, 28));
    assert(spec_u64_to_le_bytes(held.data.len() as u64) == file.subrange(28, 36));
    assert(file =~= file.subrange(0, 8) + file.subrange(8, 16) + file.subrange(16, 24)
        + file.subrange(24, 28) + file.subrange(28, 36) + file.skip(36));
}

/// A file name stands for an index exactly if a number that spells it stands between the words
/// that every snapshot's name begins and ends with.
pub proof fn law_snapshot_names(digits: Seq<char>)
    ensures
        named_index("snapshot-"@ + digits + ".bin"@) == number_of(digits),
{
    reveal_strlit("snapshot-");
    reveal_strlit(".bin");
    let name = "snapshot-"@ + digits + ".bin"@;
    assert("snapshot-"@.len() == 9 && ".bin"@.len() == 4);
    assert(name.subrange(0, 9) =~= "snapshot-"@);
    assert(name.skip(name.len() - 4) =~= ".bin"@);
    assert(name.subrange(9, name.len() - 4) =~= digits);
}

/// Any other name stands for no index.
pub proof fn law_other_names_stand_for_nothing(name: Seq<char>)
    requires
        named_index(name) is Some,
    ensures
        exists|digits: Seq<char>|
            name == #[trigger] ("snapshot-"@ + digits) + ".bin"@ && number_of(digits)
                == named_index(name),
{
    reveal_strlit("snapshot-");
    reveal_strlit(".bin");
    assert("snapshot-"@.len() == 9 && ".bin"@.len() == 4);
    let digits = name.subrange(9, name.len() - 4);
    assert("snapshot-"@ =~= name.subrange(0, 9));
    assert(name =~= ("snapshot-"@ + digits) + ".bin"@);
}

/// A file is a leftover exactly if its name ends in the ending of temporary files, with something
/// in front of it.
pub proof fn law_leftovers_end_in_tmp(name: Seq<char>, stem: Seq<char>)
    ensures
        stem.len() > 0 ==> is_temporary(stem + ".tmp"@),
        is_temporary(name) ==> name == name.take(name.len() - 4) + ".tmp"@ && name.len() > 4,
{
    reveal_strlit(".tmp");
    assert(".tmp"@.len() == 4);
    let full = stem + ".tmp"@;
    assert(full.skip(full.len() - 4) =~= ".tmp"@);
    if is_temporary(name) {
        assert(name =~= name.take(name.len() - 4) + name.skip(name.len() - 4));
    }
}

/// The snapshots among some names are those whose name stands for an index.
pub proof fn law_snapshots_are_found_by_name(
    names: Seq<Seq<char>>,
    name: Seq<char>,
    index: LogIndex,
)
    ensures
        snapshots_among(names).contains((index, name)) <==> names.contains(name) && named_index(
            name,
        ) == Some(index),
    decreases names.len(),
{
    let pick = |name: Seq<char>|
        match named_index(name) {
            Some(index) => Some((index, name)),
            None => None,
        };
    if snapshots_among(names).contains((index, name)) {
        names.lemma_filter_map_contains(pick, (index, name));
    }
    if names.contains(name) && named_index(name) == Some(index) {
        let rest = names.drop_last();
        law_snapshots_are_found_by_name(rest, name, index);
        assert(names =~= rest.push(names.last()));
        assert(names[names.len() - 1] == names.last());
        let found = snapshots_among(names);
        let earlier = snapshots_among(rest);
        if rest.contains(name) {
            let k = choose|k: int| 0 <= k < earlier.len() && earlier[k] == (index, name);
            assert(found[k] == (index, name));
        } else {
            let k = choose|k: int| 0 <= k < names.len() && names[k] == name;
            if k < rest.len() {
                assert(rest[k] == name);
            }
            assert(found[found.len() - 1] == (index, name));
        }
    }
}

/// The newest snapshots stay, as many as are to be kept, and all others are outdated: none of them
/// is newer than one that stays.
pub proof fn law_newest_snapshots_stay(listed: Listing, keep: int)
    requires
        newest_first(listed),
        0 <= keep,
    ensures
        ({
            let doomed = outdated(listed, keep);
            &&& keep >= listed.len() ==> doomed.len() == 0
            &&& keep < listed.len() ==> doomed.len() == listed.len() - keep
            &&& forall|i: int|
                #![trigger doomed[i]]
                0 <= i < doomed.len() ==> doomed[i] == listed[keep + i].1
            &&& forall|i: int, j: int|
                0 <= i < keep <= j < listed.len() ==> (#[trigger] listed[i]).0 >= (
                #[trigger] listed[j]).0
        }),
{
}

/// What is wrong with a file is said by the first thing that is: it is shorter than a header, does
/// not begin with the magic, does not have the length that it names, or has another checksum.
pub proof fn law_defects_are_named(file: Seq<u8>)
    ensures
        ({
            let magic = file.len() >= 36 && file.subrange(0, 8) == seq![
                82u8,
                75u8,
                86u8,
                83u8,
                78u8,
                65u8,
                80u8,
                1u8,
            ];
            let whole = magic && spec_u64_from_le_bytes(file.subrange(28, 36)) == file.len() - 36;
            let sound = whole && crc32(file.skip(36)) == spec_u32_from_le_bytes(
                file.subrange(24, 28),
            );
            &&& file.len() < 36 ==> defect(file) == Some("shorter than its header"@)
            &&& file.len() >= 36 && !magic ==> defect(file) == Some("bad magic"@)
            &&& magic && !whole ==> defect(file) == Some("length does not match the file"@)
            &&& whole && !sound ==> defect(file) == Some("checksum mismatch"@)
            &&& sound ==> defect(file) is None
        }),
{
    assert(SNAPSHOT_MAGIC@ =~= seq![82u8, 75u8, 86u8, 83u8, 78u8, 65u8, 80u8, 1u8]);
}

} // verus!
