//! The store: what is written for each item, and what is read of it.
//!
//! A query or a change of the database is decided here and carried out by the
//! holder of the connection. What a query found comes back as plain values.

use crate::error::LumeError;
use crate::float32::{lemma_widens_once, widen_half, widens, Float32, Float64};
use crate::path::{components, folder_of, lies_under, MediaPath, PathSet};
use crate::tables::{changes_of, Change, StoreOp};
use crate::text::{decimal, decimal_i64, lossy_text};
use crate::types::{
    stored_digest, Blake3Hash, EmbeddedUnit, Embedding, FileId, FileRecord, IndexState, MediaKind,
    SearchFilters,
};
use vstd::prelude::*;
use vstd::slice::slice_to_vec;
use vstd::utf8::encode_utf8;

verus! {

// ---------------------------------------------------------------------------
// Codes
// ---------------------------------------------------------------------------

/// The number that a kind is stored as.
pub open spec fn kind_code(kind: MediaKind) -> i64 {
    match kind {
        MediaKind::Image => 0,
        MediaKind::Video => 1,
    }
}

/// The kind that a stored number stands for.
pub open spec fn kind_of(code: i64) -> MediaKind {
    if code == 1 {
        MediaKind::Video
    } else {
        MediaKind::Image
    }
}

/// The number that a state is stored as.
pub open spec fn state_code(state: IndexState) -> i64 {
    match state {
        IndexState::Pending => 0,
        IndexState::Done => 1,
        IndexState::Failed => 2,
        IndexState::Stale => 3,
    }
}

/// The state that a stored number stands for.
pub open spec fn state_of(code: i64) -> IndexState {
    if code == 1 {
        IndexState::Done
    } else if code == 2 {
        IndexState::Failed
    } else if code == 3 {
        IndexState::Stale
    } else {
        IndexState::Pending
    }
}

/// Kinds and states are read back as they were written.
pub proof fn lemma_codes_read_back(kind: MediaKind, state: IndexState)
    ensures
        kind_of(kind_code(kind)) == kind,
        state_of(state_code(state)) == state,
{
}

/// The number that a kind is stored as.
pub fn kind_to_i64(kind: MediaKind) -> (code: i64)
    ensures
        code == kind_code(kind),
{
    match kind {
        MediaKind::Image => 0,
        MediaKind::Video => 1,
    }
}

/// The kind that a stored number stands for. What is unknown is an image.
pub fn i64_to_kind(code: i64) -> (kind: MediaKind)
    ensures
        kind == kind_of(code),
{
    match code {
        1 => MediaKind::Video,
        _ => MediaKind::Image,
    }
}

/// The number that a state is stored as.
pub fn state_to_i64(state: IndexState) -> (code: i64)
    ensures
        code == state_code(state),
{
    match state {
        IndexState::Pending => 0,
        IndexState::Done => 1,
        IndexState::Failed => 2,
        IndexState::Stale => 3,
    }
}

/// The state that a stored number stands for. What is unknown is pending.
pub fn i64_to_state(code: i64) -> (state: IndexState)
    ensures
        state == state_of(code),
{
    match code {
        1 => IndexState::Done,
        2 => IndexState::Failed,
        3 => IndexState::Stale,
        _ => IndexState::Pending,
    }
}

// ---------------------------------------------------------------------------
// Vectors
// ---------------------------------------------------------------------------

/// The single-precision bits of a half-precision number.
pub open spec fn widened(half: u16) -> u32 {
    choose|single: u32| widens(half, single)
}

/// A byte of a number, the least significant first.
pub open spec fn le_byte(n: u32, k: int) -> u8 {
    if k == 0 {
        (n % 256) as u8
    } else if k == 1 {
        (n / 256 % 256) as u8
    } else if k == 2 {
        (n / 65_536 % 256) as u8
    } else {
        (n / 16_777_216) as u8
    }
}

/// The bytes that an embedding is stored as: each element in single precision,
/// the least significant byte first.
pub open spec fn blob(emb: Seq<u16>) -> Seq<u8> {
    Seq::new(4 * emb.len(), |i: int| le_byte(widened(emb[i / 4]), i % 4))
}

/// The bytes that an embedding is stored as.
pub fn embedding_to_blob(emb: &Embedding) -> (bytes: Vec<u8>)
    ensures
        bytes@ == blob(emb.0@),
        bytes@.len() == 4 * emb.0@.len(),
        forall|i: int|
            0 <= i < emb.0@.len() ==> widens(
                #[trigger] emb.0@[i],
                (bytes@[4 * i] + 256 * bytes@[4 * i + 1] + 65_536 * bytes@[4 * i + 2] + 16_777_216
                    * bytes@[4 * i + 3]) as u32,
            ),
{
    let mut bytes: Vec<u8> = Vec::new();
    let mut i: usize = 0;
    assert(bytes@ =~= blob(emb.0@.take(0)));
    while i < emb.0.len()
        invariant
            i <= emb.0@.len(),
            bytes@ == blob(emb.0@.take(i as int)),
            forall|k: int| 0 <= k < i ==> widens(#[trigger] emb.0@[k], widened(emb.0@[k])),
        decreases emb.0@.len() - i,
    {
        let ghost before = bytes@;
        let wide: u32 = widen_half(emb.0[i]).bits;
        proof {
            lemma_widens_once(emb.0@[i as int], wide, widened(emb.0@[i as int]));
        }
        bytes.push((wide % 256) as u8);
        bytes.push((wide / 256 % 256) as u8);
        bytes.push((wide / 65_536 % 256) as u8);
        bytes.push((wide / 16_777_216) as u8);
        i += 1;
        proof {
            let now = blob(emb.0@.take(i as int));
            assert forall|k: int| 0 <= k < now.len() implies bytes@[k] == #[trigger] now[k] by {
                if k < 4 * (i - 1) {
                    assert(before[k] == blob(emb.0@.take(i - 1))[k]);
                    assert(emb.0@.take(i as int)[k / 4] == emb.0@.take(i - 1)[k / 4]);
                } else {
                    assert(k / 4 == i - 1);
                    assert(k % 4 == k - 4 * (i - 1));
                }
            }
            assert(bytes@ =~= now);
        }
    }
    assert(emb.0@.take(emb.0@.len() as int) =~= emb.0@);
    proof {
        lemma_blob_reads_back(emb.0@);
    }
    bytes
}

// ---------------------------------------------------------------------------
// Rows
// ---------------------------------------------------------------------------

/// A row of `files`, column by column.
#[derive(Clone, Debug, PartialEq, Eq)]
pub struct FileRow {
    pub id: FileId,
    pub path: String,
    pub kind: i64,
    pub size: i64,
    pub mtime: i64,
    pub hash: Option<Vec<u8>>,
    pub state: i64,
    pub captured_at: Option<i64>,
    pub width: i64,
    pub height: i64,
    pub duration_s: Option<Float32>,
    pub folder: String,
    pub gps_lat: Option<Float64>,
    pub gps_lng: Option<Float64>,
}

/// Whether a record is what a row stands for. Sizes are stored as signed
/// numbers and read back as unsigned ones.
pub open spec fn recorded(record: FileRecord, row: FileRow) -> bool {
    &&& record.id == row.id
    &&& record.path@ == encode_utf8(row.path@)
    &&& record.kind == kind_of(row.kind)
    &&& record.size == row.size as u64
    &&& record.mtime == row.mtime
    &&& record.hash is Some <==> row.hash is Some
    &&& record.hash matches Some(h) ==> h.0@ == stored_digest(row.hash->0@)
    &&& record.state == state_of(row.state)
    &&& record.captured_at == row.captured_at
    &&& record.width == row.width as u32
    &&& record.height == row.height as u32
    &&& record.duration_s == row.duration_s
    &&& record.folder@ == encode_utf8(row.folder@)
    &&& record.gps == match (row.gps_lat, row.gps_lng) {
        (Some(lat), Some(lng)) => Some((lat, lng)),
        _ => None,
    }
}

/// The record that a row stands for.
pub fn row_to_file_record(row: &FileRow) -> (record: FileRecord)
    ensures
        recorded(record, *row),
        record.id == row.id,
        record.path@ == encode_utf8(row.path@),
        record.kind == MediaKind::Video <==> row.kind == 1,
        0 <= row.size ==> record.size == row.size,
        record.mtime == row.mtime,
        record.state == IndexState::Done <==> row.state == 1,
        record.state == IndexState::Failed <==> row.state == 2,
        record.state == IndexState::Stale <==> row.state == 3,
        record.captured_at == row.captured_at,
        0 <= row.width <= u32::MAX ==> record.width == row.width,
        0 <= row.height <= u32::MAX ==> record.height == row.height,
        record.duration_s == row.duration_s,
        record.folder@ == encode_utf8(row.folder@),
        record.gps matches Some(place) ==> row.gps_lat == Some(place.0) && row.gps_lng == Some(
            place.1,
        ),
        record.gps is None ==> row.gps_lat is None || row.gps_lng is None,
{
    let hash: Option<Blake3Hash> = match &row.hash {
        Some(bytes) => Some(Blake3Hash::from_stored(bytes.as_slice())),
        None => None,
    };
    let gps: Option<(Float64, Float64)> = match (row.gps_lat, row.gps_lng) {
        (Some(lat), Some(lng)) => Some((lat, lng)),
        _ => None,
    };
    FileRecord {
        id: row.id,
        path: MediaPath::from_text(row.path.as_str()),
        kind: i64_to_kind(row.kind),
        size: #[verifier::truncate] (row.size as u64),
        mtime: row.mtime,
        hash,
        state: i64_to_state(row.state),
        captured_at: row.captured_at,
        width: #[verifier::truncate] (row.width as u32),
        height: #[verifier::truncate] (row.height as u32),
        duration_s: row.duration_s,
        folder: MediaPath::from_text(row.folder.as_str()),
        gps,
    }
}

/// What is stored of the item with a path.
#[derive(Clone, Debug, PartialEq, Eq)]
pub struct KnownFile {
    pub id: FileId,
    pub size: i64,
    pub mtime: i64,
    pub hash: Option<Vec<u8>>,
    pub state: i64,
}

/// A file as the walk found it.
#[derive(Debug, PartialEq, Eq)]
pub struct ScannedItem {
    pub path: MediaPath,
    pub kind: MediaKind,
    pub size: u64,
    pub mtime: i64,
    pub hash: Blake3Hash,
}

impl ScannedItem {
    /// The path as it is stored.
    pub open spec fn path_text(self) -> Seq<char> {
        lossy_text(self.path@)
    }

    /// The folder as it is stored.
    pub open spec fn folder_text(self) -> Seq<char> {
        lossy_text(folder_of(self.path@))
    }

    /// The change that adds the item, to be embedded.
    pub open spec fn insertion(self) -> Change {
        Change::Insert {
            path: self.path_text(),
            kind: kind_code(self.kind),
            size: self.size as i64,
            mtime: self.mtime,
            hash: self.hash.0@,
            state: state_code(IndexState::Pending),
            folder: self.folder_text(),
        }
    }

    /// The changes that give a known item the contents found now: its units go,
    /// and it is to be embedded again.
    pub open spec fn replacement(self, id: FileId) -> Seq<Change> {
        seq![
            Change::DeleteUnits { id },
            Change::Replace {
                id,
                kind: kind_code(self.kind),
                size: self.size as i64,
                mtime: self.mtime,
                hash: self.hash.0@,
                state: state_code(IndexState::Pending),
                folder: self.folder_text(),
            },
        ]
    }

    /// The change that gives a known item the path found now.
    pub open spec fn relocation(self, id: FileId) -> Change {
        Change::Move {
            id,
            path: self.path_text(),
            kind: kind_code(self.kind),
            size: self.size as i64,
            mtime: self.mtime,
            hash: self.hash.0@,
            folder: self.folder_text(),
        }
    }

    /// Whether a known item has the size and the time found now, and no other
    /// hash. An item that was done or failed before hashes were stored has none
    /// and goes by its size and its time alone.
    pub open spec fn unchanged(self, known: KnownFile) -> bool {
        &&& known.size as u64 == self.size
        &&& known.mtime == self.mtime
        &&& match known.hash {
            Some(bytes) => stored_digest(bytes@) == self.hash.0@,
            None => state_of(known.state) == IndexState::Done || state_of(known.state)
                == IndexState::Failed,
        }
    }
}

/// What is to be done about a file that the walk found.
#[derive(Debug, PartialEq, Eq)]
pub enum Prepared {
    /// Nothing: the item is known and unchanged.
    Skip,
    /// The item is known and still to be embedded.
    Resume { id: FileId },
    /// The item has changed: these changes are made in one transaction, then it
    /// is embedded again.
    Replace { id: FileId, ops: Vec<StoreOp> },
    /// No item has the path: it may have been moved there, or be new.
    Unknown,
}

/// What [`SqliteStore::prepare_file_for_index`] decides.
pub open spec fn prepares(
    prepared: Prepared,
    known: Option<KnownFile>,
    item: ScannedItem,
) -> bool {
    match known {
        None => prepared is Unknown,
        Some(k) => if !item.unchanged(k) {
            prepared matches Prepared::Replace { id, ops } && id == k.id && changes_of(ops@)
                == item.replacement(k.id)
        } else if state_of(k.state) == IndexState::Pending {
            prepared == (Prepared::Resume { id: k.id })
        } else {
            prepared is Skip
        },
    }
}

/// The first of some items whose path is not among those that were seen.
pub open spec fn first_unseen(
    matches: Seq<(FileId, String)>,
    seen: Set<Seq<Seq<u8>>>,
) -> Option<FileId>
    decreases matches.len(),
{
    if matches.len() == 0 {
        None
    } else if !seen.contains(components(encode_utf8(matches[0].1@))) {
        Some(matches[0].0)
    } else {
        first_unseen(matches.skip(1), seen)
    }
}

/// Whether a stored path lies under `root` and was not seen.
pub open spec fn missing(path: Seq<char>, root: Seq<u8>, seen: Set<Seq<Seq<u8>>>) -> bool {
    lies_under(encode_utf8(path), root) && !seen.contains(components(encode_utf8(path)))
}

/// The changes that remove the items that are missing.
pub open spec fn removals(
    rows: Seq<(FileId, String)>,
    root: Seq<u8>,
    seen: Set<Seq<Seq<u8>>>,
) -> Seq<Change>
    decreases rows.len(),
{
    if rows.len() == 0 {
        Seq::empty()
    } else {
        let (id, path) = rows.last();
        let before = removals(rows.drop_last(), root, seen);
        if missing(path@, root, seen) {
            before.push(Change::DeleteUnits { id }).push(Change::DeleteFile { id })
        } else {
            before
        }
    }
}

/// The changes that store a batch of units.
pub open spec fn insertions(units: Seq<EmbeddedUnit<'_>>) -> Seq<Change> {
    Seq::new(
        units.len(),
        |i: int|
            Change::InsertUnit {
                id: units[i].file,
                frame_ts: units[i].frame_ts,
                vector: blob(units[i].emb.0@),
            },
    )
}

/// A search for the nearest vectors, with the conditions on their items.
#[derive(Clone, Debug, PartialEq, Eq)]
pub struct KnnQuery {
    pub vector: Vec<u8>,
    pub k: i64,
    pub kind: Option<i64>,
    pub captured_after: Option<i64>,
    pub captured_before: Option<i64>,
    pub folder: Option<String>,
}

/// The store behind a database file.
#[derive(Debug, PartialEq, Eq)]
pub struct SqliteStore {
    pub db_path: MediaPath,
}

impl SqliteStore {
    /// The store in the database at a path.
    pub fn open(db_path: MediaPath) -> (store: SqliteStore)
        ensures
            store.db_path@ == db_path@,
    {
        SqliteStore { db_path }
    }

    /// Adds the item with a path, or gives it these values. Either way it is to
    /// be embedded.
    pub fn upsert_file(&self, path: &MediaPath, kind: MediaKind, size: u64, mtime: i64) -> (op:
        StoreOp)
        ensures
            op@ == (Change::Upsert {
                path: lossy_text(path@),
                kind: kind_code(kind),
                size: size as i64,
                mtime,
                state: state_code(IndexState::Pending),
                folder: lossy_text(folder_of(path@)),
            }),
    {
        StoreOp::Upsert {
            path: path.to_text(),
            kind: kind_to_i64(kind),
            size: #[verifier::truncate] (size as i64),
            mtime,
            state: state_to_i64(IndexState::Pending),
            folder: path.folder().to_text(),
        }
    }

    /// Decides what is to be done about a file that the walk found. `known` is
    /// what is stored of the item with its path.
    pub fn prepare_file_for_index(&self, known: &Option<KnownFile>, item: &ScannedItem) -> (
        prepared: Prepared)
        ensures
            prepares(prepared, *known, *item),
            prepared matches Prepared::Replace { id, ops } ==> {
                &&& known matches Some(k) && id == k.id
                &&& ops@.len() == 2
                &&& ops@[0] == (StoreOp::DeleteUnits { id })
                &&& ops@[1] matches StoreOp::Replace {
                    id: of,
                    kind,
                    size,
                    mtime,
                    hash,
                    state,
                    folder,
                } && of == id && kind == (if item.kind == MediaKind::Video {
                    1int
                } else {
                    0int
                }) && size == item.size as i64 && mtime == item.mtime && hash@ == item.hash.0@
                    && state == 0 && folder@ == lossy_text(folder_of(item.path@))
            },
    {
        match known {
            None => Prepared::Unknown,
            Some(k) => {
                let state = i64_to_state(k.state);
                let same_hash = match &k.hash {
                    Some(bytes) => Blake3Hash::from_stored(bytes.as_slice()).same(&item.hash),
                    None => match state {
                        IndexState::Done | IndexState::Failed => true,
                        IndexState::Pending | IndexState::Stale => false,
                    },
                };
                let size: u64 = #[verifier::truncate] (k.size as u64);
                if size == item.size && k.mtime == item.mtime && same_hash {
                    match state {
                        IndexState::Pending => Prepared::Resume { id: k.id },
                        IndexState::Done | IndexState::Failed | IndexState::Stale => Prepared::Skip,
                    }
                } else {
                    let mut ops: Vec<StoreOp> = Vec::new();
                    ops.push(StoreOp::DeleteUnits { id: k.id });
                    ops.push(
                        StoreOp::Replace {
                            id: k.id,
                            kind: kind_to_i64(item.kind),
                            size: #[verifier::truncate] (item.size as i64),
                            mtime: item.mtime,
                            hash: slice_to_vec(item.hash.0.as_slice()),
                            state: state_to_i64(IndexState::Pending),
                            folder: item.path.folder().to_text(),
                        },
                    );
                    assert(changes_of(ops@) =~= item.replacement(k.id));
                    Prepared::Replace { id: k.id, ops }
                }
            },
        }
    }

    /// Looks for the item that was moved to where the walk found a file.
    /// `matches` are the finished items with the file's hash and another path, in
    /// the order of their ids. One whose path was seen is still there.
    pub fn move_done_file_by_hash(
        &self,
        matches: &Vec<(FileId, String)>,
        item: &ScannedItem,
        seen: &PathSet,
    ) -> (op: Option<StoreOp>)
        ensures
            op is Some <==> first_unseen(matches@, seen@) is Some,
            op matches Some(o) ==> o@ == item.relocation(first_unseen(matches@, seen@)->0),
            op matches Some(o) ==> (o matches StoreOp::Move {
                id,
                path,
                kind,
                size,
                mtime,
                hash,
                folder,
            } && Some(id) == first_unseen(matches@, seen@) && path@ == lossy_text(item.path@) && kind
                == (if item.kind == MediaKind::Video {
                1int
            } else {
                0int
            }) && size == item.size as i64 && mtime == item.mtime && hash@ == item.hash.0@
                && folder@ == lossy_text(folder_of(item.path@))),
    {
        let mut i: usize = 0;
        assert(matches@.skip(0) =~= matches@);
        while i < matches.len()
            invariant
                i <= matches@.len(),
                first_unseen(matches@, seen@) == first_unseen(matches@.skip(i as int), seen@),
            decreases matches@.len() - i,
        {
            let (id, path) = &matches[i];
            if !seen.contains(&MediaPath::from_text(path.as_str())) {
                return Some(
                    StoreOp::Move {
                        id: *id,
                        path: item.path.to_text(),
                        kind: kind_to_i64(item.kind),
                        size: #[verifier::truncate] (item.size as i64),
                        mtime: item.mtime,
                        hash: slice_to_vec(item.hash.0.as_slice()),
                        folder: item.path.folder().to_text(),
                    },
                );
            }
            assert(matches@.skip(i as int).skip(1) =~= matches@.skip(i + 1));
            i += 1;
        }
        None
    }

    /// Adds an item that is new.
    pub fn insert_file(&self, item: &ScannedItem) -> (op: StoreOp)
        ensures
            op@ == item.insertion(),
            op matches StoreOp::Insert { path, kind, size, mtime, hash, state, folder } && path@
                == lossy_text(item.path@) && kind == (if item.kind == MediaKind::Video {
                1int
            } else {
                0int
            }) && size == item.size as i64 && mtime == item.mtime && hash@ == item.hash.0@ && state
                == 0 && folder@ == lossy_text(folder_of(item.path@)),
    {
        StoreOp::Insert {
            path: item.path.to_text(),
            kind: kind_to_i64(item.kind),
            size: #[verifier::truncate] (item.size as i64),
            mtime: item.mtime,
            hash: slice_to_vec(item.hash.0.as_slice()),
            state: state_to_i64(IndexState::Pending),
            folder: item.path.folder().to_text(),
        }
    }

    /// The id of an item that was added, from the answer to the insertion.
    pub fn inserted_id(&self, returned: Option<FileId>) -> (id: Result<FileId, LumeError>)
        ensures
            id is Ok <==> returned is Some,
            id matches Ok(i) ==> returned == Some(i),
            id matches Err(e) ==> (e matches LumeError::Store(why) && why@
                == "inserted file without returned id"@),
    {
        match returned {
            Some(id) => Ok(id),
            None => Err(LumeError::Store("inserted file without returned id".to_string())),
        }
    }

    /// Removes the items under `root` that were not seen. `rows` are the ids and
    /// the paths of all items. The changes are made in one transaction.
    pub fn delete_missing_files_under_root(
        &self,
        rows: &Vec<(FileId, String)>,
        root: &MediaPath,
        seen: &PathSet,
    ) -> (ops: Vec<StoreOp>)
        ensures
            changes_of(ops@) == removals(rows@, root@, seen@),
    {
        let mut ops: Vec<StoreOp> = Vec::new();
        let mut i: usize = 0;
        assert(changes_of(ops@) =~= removals(rows@.take(0), root@, seen@));
        while i < rows.len()
            invariant
                i <= rows@.len(),
                changes_of(ops@) == removals(rows@.take(i as int), root@, seen@),
            decreases rows@.len() - i,
        {
            let (id, text) = &rows[i];
            let path = MediaPath::from_text(text.as_str());
            assert(rows@.take(i + 1).drop_last() =~= rows@.take(i as int));
            if path.starts_with(root) && !seen.contains(&path) {
                ops.push(StoreOp::DeleteUnits { id: *id });
                ops.push(StoreOp::DeleteFile { id: *id });
            }
            i += 1;
            assert(changes_of(ops@) =~= removals(rows@.take(i as int), root@, seen@));
        }
        assert(rows@.take(rows@.len() as int) =~= rows@);
        ops
    }

    /// The records of all items, from their rows.
    pub fn list_files(&self, rows: &Vec<FileRow>) -> (records: Vec<FileRecord>)
        ensures
            records@.len() == rows@.len(),
            forall|i: int|
                0 <= i < records@.len() ==> recorded(#[trigger] records@[i], rows@[i]),
    {
        let mut records: Vec<FileRecord> = Vec::new();
        let mut i: usize = 0;
        while i < rows.len()
            invariant
                i <= rows@.len(),
                records@.len() == i,
                forall|k: int| 0 <= k < i ==> recorded(#[trigger] records@[k], rows@[k]),
            decreases rows@.len() - i,
        {
            records.push(row_to_file_record(&rows[i]));
            i += 1;
        }
        records
    }

    /// Sets the state of an item, and its hash where one is given.
    pub fn set_file_state(&self, file: FileId, state: IndexState, hash: Option<Blake3Hash>) -> (op:
        StoreOp)
        ensures
            op@ == state_change(file, state, hash),
            op matches StoreOp::SetState { id, state: code, hash: stored } && id == file && (code == 1
                <==> state == IndexState::Done) && (code == 2 <==> state == IndexState::Failed) && (
            code == 3 <==> state == IndexState::Stale) && (code == 0 <==> state
                == IndexState::Pending) && (stored is Some <==> hash is Some) && (stored is Some
                ==> stored->0@ == (hash->0).0@),
    {
        let hash: Option<Vec<u8>> = match hash {
            Some(h) => Some(slice_to_vec(h.0.as_slice())),
            None => None,
        };
        StoreOp::SetState { id: file, state: state_to_i64(state), hash }
    }

    /// Whether the state of an item was set, from the number of rows that the
    /// change touched.
    pub fn state_was_set(&self, file: FileId, changed: usize) -> (set: Result<(), LumeError>)
        ensures
            set is Ok <==> changed > 0,
            set matches Err(e) ==> (e matches LumeError::NotFound(what) && what@ == "file "@
                + decimal(file as int)),
    {
        if changed == 0 {
            let mut what: String = "file ".to_string();
            what.append(decimal_i64(file).as_str());
            return Err(LumeError::NotFound(what));
        }
        Ok(())
    }

    /// Removes everything.
    pub fn reset_all(&self) -> (op: StoreOp)
        ensures
            op@ == Change::DeleteAll,
    {
        StoreOp::DeleteAll
    }

    /// Stores a batch of units, each with its vector. The changes are made in one
    /// transaction.
    pub fn insert_batch(&self, units: &[EmbeddedUnit<'_>]) -> (ops: Vec<StoreOp>)
        ensures
            changes_of(ops@) == insertions(units@),
            ops@.len() == units@.len(),
            forall|i: int|
                0 <= i < units@.len() ==> (#[trigger] ops@[i] matches StoreOp::InsertUnit {
                    id,
                    frame_ts,
                    vector,
                } && id == units@[i].file && frame_ts == units@[i].frame_ts && vector@ == blob(
                    units@[i].emb.0@,
                )),
    {
        let mut ops: Vec<StoreOp> = Vec::new();
        let mut i: usize = 0;
        while i < units.len()
            invariant
                i <= units@.len(),
                changes_of(ops@) == insertions(units@).take(i as int),
            decreases units@.len() - i,
        {
            let unit = &units[i];
            let ghost before = ops@;
            ops.push(
                StoreOp::InsertUnit {
                    id: unit.file,
                    frame_ts: unit.frame_ts,
                    vector: embedding_to_blob(unit.emb),
                },
            );
            i += 1;
            assert(changes_of(ops@) =~= changes_of(before).push(insertions(units@)[i - 1]));
            assert(changes_of(ops@) =~= insertions(units@).take(i as int));
        }
        assert(changes_of(ops@) =~= insertions(units@));
        assert forall|i: int| 0 <= i < units@.len() implies (
        #[trigger] ops@[i] matches StoreOp::InsertUnit { id, frame_ts, vector } && id
            == units@[i].file && frame_ts == units@[i].frame_ts && vector@ == blob(
            units@[i].emb.0@,
        )) by {
            assert(changes_of(ops@)[i] == insertions(units@)[i]);
        }
        ops
    }

    /// A search for the `k` nearest vectors among the items that pass the
    /// filters. A number that is too large for the database wraps around.
    pub fn knn(&self, query: &Embedding, k: usize, filters: &SearchFilters) -> (search: KnnQuery)
        ensures
            search.vector@ == blob(query.0@),
            search.k == k as i64,
            search.kind == match filters.kind {
                Some(kind) => Some(kind_code(kind)),
                None => None,
            },
            search.captured_after == filters.captured_after,
            search.captured_before == filters.captured_before,
            search.folder is Some <==> filters.folder is Some,
            search.folder matches Some(text) ==> text@ == lossy_text(filters.folder->0@),
    {
        KnnQuery {
            vector: embedding_to_blob(query),
            k: #[verifier::truncate] (k as i64),
            kind: match filters.kind {
                Some(kind) => Some(kind_to_i64(kind)),
                None => None,
            },
            captured_after: filters.captured_after,
            captured_before: filters.captured_before,
            folder: match &filters.folder {
                Some(folder) => Some(folder.to_text()),
                None => None,
            },
        }
    }

    /// Removes an item with its units. The changes are made in one transaction.
    pub fn delete_file(&self, file: FileId) -> (ops: Vec<StoreOp>)
        ensures
            changes_of(ops@) == deletion(file),
            ops@.len() == 2,
            ops@[0] == (StoreOp::DeleteUnits { id: file }),
            ops@[1] == (StoreOp::DeleteFile { id: file }),
    {
        let mut ops: Vec<StoreOp> = Vec::new();
        ops.push(StoreOp::DeleteUnits { id: file });
        ops.push(StoreOp::DeleteFile { id: file });
        assert(changes_of(ops@) =~= deletion(file));
        ops
    }
}

/// The change that sets the state of an item.
pub open spec fn state_change(file: FileId, state: IndexState, hash: Option<Blake3Hash>) -> Change {
    Change::SetState {
        id: file,
        state: state_code(state),
        hash: match hash {
            Some(h) => Some(h.0@),
            None => None,
        },
    }
}

/// The changes that remove an item with its units.
pub open spec fn deletion(file: FileId) -> Seq<Change> {
    seq![Change::DeleteUnits { id: file }, Change::DeleteFile { id: file }]
}

/// What each kind and each state is stored as, and what numbers that stand for
/// nothing are read as.
pub proof fn lemma_codes(code: i64)
    ensures
        kind_code(MediaKind::Image) == 0,
        kind_code(MediaKind::Video) == 1,
        state_code(IndexState::Pending) == 0,
        state_code(IndexState::Done) == 1,
        state_code(IndexState::Failed) == 2,
        state_code(IndexState::Stale) == 3,
        code != 1 ==> kind_of(code) == MediaKind::Image,
        code < 1 || code > 3 ==> state_of(code) == IndexState::Pending,
{
}

proof fn lemma_four_bytes(emb: Seq<u16>, i: int)
    requires
        0 <= i < emb.len(),
    ensures
        blob(emb)[4 * i] + 256 * blob(emb)[4 * i + 1] + 65_536 * blob(emb)[4 * i + 2] + 16_777_216
            * blob(emb)[4 * i + 3] == widened(emb[i]),
{
    let wide = widened(emb[i]);
    let b = blob(emb);
    assert((4 * i) / 4 == i && (4 * i) % 4 == 0);
    assert((4 * i + 1) / 4 == i && (4 * i + 1) % 4 == 1);
    assert((4 * i + 2) / 4 == i && (4 * i + 2) % 4 == 2);
    assert((4 * i + 3) / 4 == i && (4 * i + 3) % 4 == 3);
    assert(b[4 * i] == le_byte(wide, 0));
    assert(b[4 * i + 1] == le_byte(wide, 1));
    assert(b[4 * i + 2] == le_byte(wide, 2));
    assert(b[4 * i + 3] == le_byte(wide, 3));
    assert(wide % 256 + 256 * (wide / 256 % 256) + 65_536 * (wide / 65_536 % 256) + 16_777_216 * (
    wide / 16_777_216) == wide) by (bit_vector);
}

/// A stored vector is read back number by number: four bytes each, the least
/// significant first, make up the single-precision number of the same value.
pub proof fn lemma_blob_reads_back(emb: Seq<u16>)
    requires
        forall|i: int| 0 <= i < emb.len() ==> widens(#[trigger] emb[i], widened(emb[i])),
    ensures
        blob(emb).len() == 4 * emb.len(),
        forall|i: int|
            0 <= i < emb.len() ==> widens(
                #[trigger] emb[i],
                (blob(emb)[4 * i] + 256 * blob(emb)[4 * i + 1] + 65_536 * blob(emb)[4 * i + 2]
                    + 16_777_216 * blob(emb)[4 * i + 3]) as u32,
            ),
{
    assert forall|i: int| 0 <= i < emb.len() implies widens(
        #[trigger] emb[i],
        (blob(emb)[4 * i] + 256 * blob(emb)[4 * i + 1] + 65_536 * blob(emb)[4 * i + 2]
            + 16_777_216 * blob(emb)[4 * i + 3]) as u32,
    ) by {
        lemma_four_bytes(emb, i);
    }
}

/// What is stored of a new file is read back: a record of the row that the insertion
/// makes has the kind, the size, the time and the hash that were found, and is still to
/// be embedded.
pub proof fn lemma_file_reads_back(item: ScannedItem, row: FileRow, record: FileRecord)
    requires
        item.insertion() matches Change::Insert { path, kind, size, mtime, hash, state, folder }
            && row.path@ == path && row.kind == kind && row.size == size && row.mtime == mtime
            && row.hash is Some && row.hash->0@ == hash && row.state == state && row.folder@
            == folder,
        recorded(record, row),
    ensures
        record.kind == item.kind,
        record.size == item.size,
        record.mtime == item.mtime,
        record.hash is Some && (record.hash->0).0@ == item.hash.0@,
        record.state == IndexState::Pending,
        record.path@ == encode_utf8(lossy_text(item.path@)),
        record.folder@ == encode_utf8(lossy_text(folder_of(item.path@))),
{
    crate::types::lemma_stored_digest_reads_back(item.hash);
    let size = item.size;
    assert((size as i64) as u64 == size) by (bit_vector);
}

/// What a record tells, said of the columns of its row.
pub proof fn lemma_record_of_row(record: FileRecord, row: FileRow)
    requires
        recorded(record, row),
    ensures
        record.id == row.id,
        record.mtime == row.mtime,
        record.kind == MediaKind::Video <==> row.kind == 1,
        record.state == IndexState::Done <==> row.state == 1,
        record.state == IndexState::Failed <==> row.state == 2,
        record.state == IndexState::Stale <==> row.state == 3,
        0 <= row.size ==> record.size == row.size,
        0 <= row.width <= u32::MAX ==> record.width == row.width,
        0 <= row.height <= u32::MAX ==> record.height == row.height,
        record.captured_at == row.captured_at,
        record.duration_s == row.duration_s,
        row.gps_lat is Some && row.gps_lng is Some ==> record.gps == Some(
            (row.gps_lat->0, row.gps_lng->0),
        ),
        row.gps_lat is None || row.gps_lng is None ==> record.gps is None,
        row.hash is None ==> record.hash is None,
        row.hash matches Some(bytes) ==> (bytes@.len() == 32 ==> record.hash is Some
            && (record.hash->0).0@ == bytes@),
{
    if let Some(bytes) = row.hash {
        if bytes@.len() == 32 {
            assert(stored_digest(bytes@) =~= bytes@);
        }
    }
}

}
