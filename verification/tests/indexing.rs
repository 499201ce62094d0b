use std::collections::BTreeMap;

use lume::commit::{BatchCommitter, CommitAction};
use lume::content_hash::hash_whole;
use lume::error::LumeError;
use lume::float32::Float32;
use lume::indexer::{FileFacts, Indexer, RunAction, RunReport};
use lume::path::{MediaPath, PathSet};
use lume::prepare::{PrepareAction, PrepareReport, Preparer};
use lume::store::{FileRow, KnnQuery, KnownFile, ScannedItem, SqliteStore};
use lume::tables::StoreOp;
use lume::traits::EmbedOutcome;
use lume::types::{
    Blake3Hash, EmbedUnit, EmbeddedUnit, Embedding, FileId, FileRecord, IndexState, MediaKind,
    SearchFilters,
};
use lume::walk::WalkEntry;

const STUB_JPEG: [u8; 4] = [0xFF, 0xD8, 0xFF, 0xD9];

fn path(text: &str) -> MediaPath {
    MediaPath::from_text(text)
}

fn ones() -> Embedding {
    Embedding(vec![half::f16::from_f32(1.0).to_bits(); Embedding::DIM])
}

fn emb(prefix: &[f32]) -> Embedding {
    let mut v = vec![half::f16::from_f32(0.0).to_bits(); Embedding::DIM];
    for (slot, value) in v.iter_mut().zip(prefix) {
        *slot = half::f16::from_f32(*value).to_bits();
    }
    Embedding(v)
}

fn normalize(prefix: &[f32]) -> Vec<f32> {
    let norm = prefix.iter().map(|v| v * v).sum::<f32>().sqrt();
    prefix.iter().map(|v| v / norm).collect()
}

fn hash(byte: u8) -> Blake3Hash {
    Blake3Hash([byte; 32])
}

/// The tables, held in memory.
struct Db {
    store: SqliteStore,
    files: Vec<FileRow>,
    units: Vec<(i64, FileId, Option<Float32>, Vec<u8>)>,
    next_file: i64,
    next_unit: i64,
}

impl Db {
    fn new() -> Db {
        Db {
            store: SqliteStore::open(path("/db")),
            files: Vec::new(),
            units: Vec::new(),
            next_file: 1,
            next_unit: 1,
        }
    }

    fn row(&mut self, id: FileId) -> Option<&mut FileRow> {
        self.files.iter_mut().find(|r| r.id == id)
    }

    fn add(&mut self, path: &str, kind: i64, size: i64, mtime: i64, hash: Option<Vec<u8>>, state: i64, folder: &str) -> i64 {
        let id = self.next_file;
        self.next_file += 1;
        self.files.push(FileRow {
            id,
            path: path.to_string(),
            kind,
            size,
            mtime,
            hash,
            state,
            captured_at: None,
            width: 0,
            height: 0,
            duration_s: None,
            folder: folder.to_string(),
            gps_lat: None,
            gps_lng: None,
        });
        id
    }

    /// Carries out a change. The answer is the id of the row, or the number of
    /// rows that were touched.
    fn run(&mut self, op: &StoreOp) -> i64 {
        match op {
            StoreOp::Upsert { path, kind, size, mtime, state, folder } => {
                match self.files.iter_mut().find(|r| &r.path == path) {
                    Some(row) => {
                        row.kind = *kind;
                        row.size = *size;
                        row.mtime = *mtime;
                        row.state = *state;
                        row.folder = folder.clone();
                        row.id
                    }
                    None => self.add(path, *kind, *size, *mtime, None, *state, folder),
                }
            }
            StoreOp::Insert { path, kind, size, mtime, hash, state, folder } => {
                self.add(path, *kind, *size, *mtime, Some(hash.clone()), *state, folder)
            }
            StoreOp::Replace { id, kind, size, mtime, hash, state, folder } => {
                let row = self.row(*id).unwrap();
                row.kind = *kind;
                row.size = *size;
                row.mtime = *mtime;
                row.hash = Some(hash.clone());
                row.state = *state;
                row.folder = folder.clone();
                *id
            }
            StoreOp::Move { id, path, kind, size, mtime, hash, folder } => {
                let row = self.row(*id).unwrap();
                row.path = path.clone();
                row.kind = *kind;
                row.size = *size;
                row.mtime = *mtime;
                row.hash = Some(hash.clone());
                row.folder = folder.clone();
                *id
            }
            StoreOp::SetState { id, state, hash } => match self.row(*id) {
                Some(row) => {
                    row.state = *state;
                    if hash.is_some() {
                        row.hash = hash.clone();
                    }
                    1
                }
                None => 0,
            },
            StoreOp::DeleteUnits { id } => {
                self.units.retain(|u| u.1 != *id);
                0
            }
            StoreOp::DeleteFile { id } => {
                self.files.retain(|r| r.id != *id);
                0
            }
            StoreOp::InsertUnit { id, frame_ts, vector } => {
                let unit = self.next_unit;
                self.next_unit += 1;
                self.units.push((unit, *id, *frame_ts, vector.clone()));
                unit
            }
            StoreOp::DeleteAll => {
                self.files.clear();
                self.units.clear();
                0
            }
        }
    }

    fn upsert(&mut self, at: &str, kind: MediaKind, size: u64, mtime: i64) -> FileId {
        let op = self.store.upsert_file(&path(at), kind, size, mtime);
        self.run(&op)
    }

    fn insert_batch(&mut self, units: &[EmbeddedUnit<'_>]) {
        for op in self.store.insert_batch(units) {
            self.run(&op);
        }
    }

    fn set_state(&mut self, file: FileId, state: IndexState, hash: Option<Blake3Hash>) -> Result<(), LumeError> {
        let op = self.store.set_file_state(file, state, hash);
        let changed = self.run(&op) as usize;
        self.store.state_was_set(file, changed)
    }

    fn list(&self) -> Vec<FileRecord> {
        self.store.list_files(&self.files)
    }

    fn state_of(&self, id: FileId) -> IndexState {
        self.list().into_iter().find(|f| f.id == id).unwrap().state
    }

    /// The files of the nearest units, with the squares of their distances.
    fn knn(&self, query: &Embedding, k: usize, filters: &SearchFilters) -> Vec<(FileId, f32)> {
        let search: KnnQuery = self.store.knn(query, k, filters);
        let wanted = floats(&search.vector);
        let mut hits: Vec<(FileId, f32)> = self
            .units
            .iter()
            .filter(|u| {
                let row = self.files.iter().find(|r| r.id == u.1).unwrap();
                search.kind.map_or(true, |kind| row.kind == kind)
                    && search.folder.as_ref().map_or(true, |folder| &row.folder == folder)
            })
            .map(|u| {
                let have = floats(&u.3);
                (u.1, wanted.iter().zip(&have).map(|(a, b)| (a - b) * (a - b)).sum())
            })
            .collect();
        hits.sort_by(|a, b| a.1.total_cmp(&b.1));
        hits.truncate(search.k as usize);
        hits
    }

    fn prepare(&mut self, item: ScannedItem, seen: &PathSet) -> Result<Option<FileId>, LumeError> {
        let text = item.path.to_text();
        let digest = item.hash.0.to_vec();
        let mut preparer = Preparer::new(item);
        let mut action = PrepareAction::Look;
        loop {
            let report = match action {
                PrepareAction::Look => PrepareReport::Known(
                    self.files.iter().find(|r| r.path == text).map(|r| KnownFile {
                        id: r.id,
                        size: r.size,
                        mtime: r.mtime,
                        hash: r.hash.clone(),
                        state: r.state,
                    }),
                ),
                PrepareAction::FindMatches => PrepareReport::Matches(
                    self.files
                        .iter()
                        .filter(|r| {
                            r.hash.as_ref() == Some(&digest) && r.state == 1 && r.path != text
                        })
                        .map(|r| (r.id, r.path.clone()))
                        .collect(),
                ),
                PrepareAction::Change(ops) => {
                    for op in &ops {
                        self.run(op);
                    }
                    PrepareReport::Changed
                }
                PrepareAction::Insert(op) => PrepareReport::Inserted(Some(self.run(&op))),
                PrepareAction::Answer(answer) => return answer,
            };
            action = preparer.next(&self.store, seen, report);
        }
    }
}

fn floats(blob: &[u8]) -> Vec<f32> {
    blob.chunks_exact(4).map(|b| f32::from_le_bytes([b[0], b[1], b[2], b[3]])).collect()
}

/// Commits a batch to the tables and to a folder of thumbnails in memory.
fn commit(
    db: &mut Db,
    thumbs: &mut BTreeMap<String, Vec<u8>>,
    blocked: &[FileId],
    vectors_down: bool,
    file_ids: &Vec<FileId>,
    hashes: &Vec<Blake3Hash>,
    outcomes: Vec<EmbedOutcome>,
) -> Result<(), LumeError> {
    let mut committer = BatchCommitter::new(path("/thumbs"));
    let mut action = committer.commit(file_ids, hashes, outcomes);
    loop {
        let report = match action {
            CommitAction::WriteThumbnail { file, path, jpeg } => {
                if blocked.contains(&file) {
                    Err(LumeError::Io("is a directory".into()))
                } else {
                    thumbs.insert(path.to_text(), jpeg);
                    Ok(())
                }
            }
            CommitAction::SetState { file, state, hash } => db.set_state(file, state, hash),
            CommitAction::InsertBatch => {
                if vectors_down {
                    Err(LumeError::Store("vector store is down".into()))
                } else {
                    db.insert_batch(&committer.units());
                    Ok(())
                }
            }
            CommitAction::Finished(result) => return result,
        };
        action = committer.next(report);
    }
}

/// A folder in memory, a sidecar that fails some names, and how often it was
/// asked.
struct World {
    db: Db,
    disk: BTreeMap<String, (Vec<u8>, u64)>,
    thumbs: BTreeMap<String, Vec<u8>>,
    fail_names: Vec<String>,
    calls: usize,
    snapshots: Vec<(u64, u64)>,
}

impl World {
    fn new() -> World {
        World {
            db: Db::new(),
            disk: BTreeMap::new(),
            thumbs: BTreeMap::new(),
            fail_names: Vec::new(),
            calls: 0,
            snapshots: Vec::new(),
        }
    }

    fn write(&mut self, name: &str, contents: &[u8], modified: u64) {
        self.disk.insert(format!("/library/{name}"), (contents.to_vec(), modified));
    }

    fn indexer(&self, batch_size: usize) -> Indexer {
        Indexer::new(path("/library"), batch_size, path("/thumbs"))
    }

    fn embed(&mut self, units: &Vec<EmbedUnit>) -> Vec<EmbedOutcome> {
        self.calls += 1;
        units
            .iter()
            .map(|u| {
                let name = String::from_utf8(u.path.file_name().unwrap()).unwrap();
                if self.fail_names.contains(&name) {
                    EmbedOutcome::Failed { reason: "corrupt test fixture".into() }
                } else {
                    EmbedOutcome::Embedded { emb: ones(), thumbnail_jpeg: STUB_JPEG.to_vec() }
                }
            })
            .collect()
    }

    fn run(&mut self, indexer: &mut Indexer) -> Result<(), LumeError> {
        let mut action = indexer.run();
        loop {
            let report = match action {
                RunAction::CreateFolder(folder) => {
                    assert_eq!(folder, path("/thumbs"));
                    RunReport::Done(Ok(()))
                }
                RunAction::Walk(root) => {
                    assert_eq!(root, path("/library"));
                    RunReport::Walked(
                        self.disk
                            .keys()
                            .map(|p| WalkEntry { path: path(p), is_file: true })
                            .collect(),
                    )
                }
                RunAction::Inspect(at) => {
                    let found = self.disk.get(&at.to_text());
                    RunReport::Inspected(match found {
                        Some((contents, modified)) => Ok(FileFacts {
                            size: contents.len() as u64,
                            modified: Some(*modified),
                            hash: hash_whole(contents),
                        }),
                        None => Err(LumeError::Io("no such file".into())),
                    })
                }
                RunAction::Prepare(item) => {
                    RunReport::Prepared(self.db.prepare(item, &indexer.seen))
                }
                RunAction::Embed => RunReport::Embedded(Ok(self.embed(&indexer.units))),
                RunAction::Commit(outcomes) => {
                    self.snapshots.push(indexer.progress().snapshot());
                    RunReport::Done(commit(
                        &mut self.db,
                        &mut self.thumbs,
                        &[],
                        false,
                        &indexer.file_ids,
                        &indexer.hashes,
                        outcomes,
                    ))
                }
                RunAction::DeleteMissing => {
                    let rows: Vec<(FileId, String)> =
                        self.db.files.iter().map(|r| (r.id, r.path.clone())).collect();
                    let ops = self.db.store.delete_missing_files_under_root(
                        &rows,
                        &indexer.root,
                        &indexer.seen,
                    );
                    for op in &ops {
                        self.db.run(op);
                    }
                    RunReport::Done(Ok(()))
                }
                RunAction::Finished(result) => return result,
            };
            action = indexer.next(report);
        }
    }

    fn hits(&self) -> Vec<FileId> {
        self.db
            .knn(&ones(), 10, &SearchFilters::default())
            .into_iter()
            .map(|h| h.0)
            .collect()
    }

    fn names(&self) -> Vec<String> {
        self.db
            .list()
            .iter()
            .map(|f| String::from_utf8(f.path.file_name().unwrap()).unwrap())
            .collect()
    }

    fn thumb(&self, id: FileId) -> Option<&Vec<u8>> {
        self.thumbs.get(&format!("/thumbs/{id}.jpg"))
    }
}

// ---------------------------------------------------------------------------
// The store
// ---------------------------------------------------------------------------

#[test]
fn insert_batch_and_knn_round_trip_ordered_by_similarity() {
    let mut db = Db::new();
    let file_a = db.upsert("/lib/a.jpg", MediaKind::Image, 100, 1_700_000_000);
    let file_b = db.upsert("/lib/b.jpg", MediaKind::Image, 200, 1_700_000_100);
    let file_c = db.upsert("/lib/c.jpg", MediaKind::Image, 300, 1_700_000_200);

    let query = emb(&normalize(&[1.0, 0.0]));
    let emb_a = emb(&normalize(&[1.0, 0.0]));
    let emb_b = emb(&normalize(&[1.0, 1.0]));
    let emb_c = emb(&normalize(&[0.0, 1.0]));
    db.insert_batch(&[
        EmbeddedUnit { file: file_c, frame_ts: None, emb: &emb_c },
        EmbeddedUnit { file: file_a, frame_ts: None, emb: &emb_a },
        EmbeddedUnit { file: file_b, frame_ts: None, emb: &emb_b },
    ]);

    let hits = db.knn(&query, 10, &SearchFilters::default());
    let order: Vec<FileId> = hits.iter().map(|h| h.0).collect();
    assert_eq!(order, vec![file_a, file_b, file_c]);
    let scores: Vec<f32> = hits.iter().map(|h| 1.0 - h.1 / 2.0).collect();
    assert!((scores[0] - 1.0).abs() < 1e-3, "got {}", scores[0]);
    assert!((scores[1] - std::f32::consts::FRAC_1_SQRT_2).abs() < 1e-2);
    assert!(scores[2].abs() < 1e-2);
}

#[test]
fn knn_pushes_filters_into_the_store_query() {
    let mut db = Db::new();
    let image = db.upsert("/lib/photo.jpg", MediaKind::Image, 1, 1);
    let video = db.upsert("/lib/clip.mov", MediaKind::Video, 1, 1);
    let v = emb(&[1.0]);
    db.insert_batch(&[
        EmbeddedUnit { file: image, frame_ts: None, emb: &v },
        EmbeddedUnit {
            file: video,
            frame_ts: Some(Float32 { bits: 1.5_f32.to_bits() }),
            emb: &v,
        },
    ]);
    let filters = SearchFilters { kind: Some(MediaKind::Video), ..Default::default() };
    let hits = db.knn(&v, 10, &filters);
    assert_eq!(hits.len(), 1);
    assert_eq!(hits[0].0, video);

    let filters = SearchFilters { folder: Some(path("/lib")), ..Default::default() };
    assert_eq!(db.knn(&v, 10, &filters).len(), 2);
    let filters = SearchFilters { folder: Some(path("/other")), ..Default::default() };
    assert!(db.knn(&v, 10, &filters).is_empty());
}

#[test]
fn delete_file_removes_its_units_and_vectors() {
    let mut db = Db::new();
    let file = db.upsert("/lib/a.jpg", MediaKind::Image, 1, 1);
    let v = emb(&[1.0]);
    db.insert_batch(&[EmbeddedUnit { file, frame_ts: None, emb: &v }]);
    assert_eq!(db.knn(&v, 10, &SearchFilters::default()).len(), 1);

    for op in db.store.delete_file(file) {
        db.run(&op);
    }

    assert_eq!(db.knn(&v, 10, &SearchFilters::default()).len(), 0);
    assert!(db.list().is_empty());
}

#[test]
fn set_file_state_updates_state_and_optional_hash() {
    let mut db = Db::new();
    let file = db.upsert("/lib/a.jpg", MediaKind::Image, 1, 1);

    db.set_state(file, IndexState::Done, None).unwrap();
    let record = db.list().into_iter().next().unwrap();
    assert_eq!(record.state, IndexState::Done);
    assert!(record.hash.is_none());

    db.set_state(file, IndexState::Failed, Some(hash(7))).unwrap();
    let record = db.list().into_iter().next().unwrap();
    assert_eq!(record.state, IndexState::Failed);
    assert_eq!(record.hash, Some(hash(7)));

    match db.set_state(99, IndexState::Done, None) {
        Err(e) => assert_eq!(e.to_text(), "not found: file 99"),
        Ok(()) => panic!("there is no such file"),
    }
}

#[test]
fn reset_all_clears_files_units_and_vectors() {
    let mut db = Db::new();
    let file = db.upsert("/lib/a.jpg", MediaKind::Image, 1, 1);
    let v = emb(&[1.0]);
    db.insert_batch(&[EmbeddedUnit { file, frame_ts: None, emb: &v }]);

    let op = db.store.reset_all();
    db.run(&op);

    assert!(db.list().is_empty());
    assert_eq!(db.knn(&v, 10, &SearchFilters::default()).len(), 0);
}

#[test]
fn upsert_file_is_idempotent_by_path() {
    let mut db = Db::new();
    let first = db.upsert("/lib/a.jpg", MediaKind::Image, 1, 1);
    let second = db.upsert("/lib/a.jpg", MediaKind::Image, 2, 2);
    assert_eq!(first, second);
    assert_eq!(db.list().len(), 1);
    assert_eq!(db.list()[0].folder, path("/lib"));
    assert_eq!(db.list()[0].size, 2);
}

#[test]
fn rows_are_read_column_by_column() {
    let store = SqliteStore::open(path("/db"));
    let row = FileRow {
        id: 3,
        path: "/lib/a.mov".into(),
        kind: 1,
        size: -1,
        mtime: 5,
        hash: Some(vec![8; 32]),
        state: 3,
        captured_at: Some(6),
        width: 4096,
        height: -1,
        duration_s: Some(Float32 { bits: 7 }),
        folder: "/lib".into(),
        gps_lat: Some(lume::float32::Float64 { bits: 1 }),
        gps_lng: None,
    };
    let record = store.list_files(&vec![row.clone()]).remove(0);
    assert_eq!(record.kind, MediaKind::Video);
    assert_eq!(record.size, u64::MAX);
    assert_eq!(record.hash, Some(hash(8)));
    assert_eq!(record.state, IndexState::Stale);
    assert_eq!((record.width, record.height), (4096, u32::MAX));
    assert_eq!(record.duration_s, Some(Float32 { bits: 7 }));
    assert_eq!(record.gps, None);
    let placed = FileRow { gps_lng: Some(lume::float32::Float64 { bits: 2 }), kind: 9, state: 9, ..row };
    let record = store.list_files(&vec![placed]).remove(0);
    assert_eq!(
        record.gps,
        Some((lume::float32::Float64 { bits: 1 }, lume::float32::Float64 { bits: 2 }))
    );
    assert_eq!(record.kind, MediaKind::Image);
    assert_eq!(record.state, IndexState::Pending);
}

#[test]
fn vectors_are_stored_in_single_precision() {
    let blob = lume::store::embedding_to_blob(&Embedding(vec![0x3c00, 0xc000]));
    assert_eq!(floats(&blob), vec![1.0, -2.0]);
    assert_eq!(blob, vec![0, 0, 0x80, 0x3f, 0, 0, 0, 0xc0]);
}

#[test]
fn an_insertion_without_an_id_is_an_error() {
    let store = SqliteStore::open(path("/db"));
    match store.inserted_id(None) {
        Err(e) => assert_eq!(e.to_text(), "vector store error: inserted file without returned id"),
        Ok(_) => panic!("there is no id"),
    }
    assert_eq!(store.inserted_id(Some(4)).unwrap(), 4);
    assert_eq!(store.db_path, path("/db"));
}

#[test]
fn a_file_that_is_still_there_was_not_moved() {
    let store = SqliteStore::open(path("/db"));
    let item = ScannedItem {
        path: path("/lib/copy.jpg"),
        kind: MediaKind::Image,
        size: u64::MAX,
        mtime: 2,
        hash: hash(1),
    };
    let matches = vec![(4, "/lib/a.jpg".to_string()), (6, "/lib/b.jpg".to_string())];
    let seen = PathSet::from_paths(&vec![path("/lib/a.jpg"), path("/lib/copy.jpg")]);
    assert_eq!(
        store.move_done_file_by_hash(&matches, &item, &seen),
        Some(StoreOp::Move {
            id: 6,
            path: "/lib/copy.jpg".into(),
            kind: 0,
            size: -1,
            mtime: 2,
            hash: vec![1; 32],
            folder: "/lib".into(),
        })
    );
    let seen = PathSet::from_paths(&vec![path("/lib/a.jpg"), path("/lib//b.jpg")]);
    assert_eq!(store.move_done_file_by_hash(&matches, &item, &seen), None);
}

fn scan(at: &str, size: u64, mtime: i64, byte: u8) -> ScannedItem {
    ScannedItem {
        path: path(at),
        kind: MediaKind::Image,
        size,
        mtime,
        hash: hash(byte),
    }
}

#[test]
fn a_done_or_failed_item_without_a_hash_is_skipped_when_size_and_time_are_unchanged() {
    for state in [IndexState::Done, IndexState::Failed] {
        let mut db = Db::new();
        let id = db.upsert("/lib/a.jpg", MediaKind::Image, 1, 1);
        db.set_state(id, state, None).unwrap();
        let seen = PathSet::from_paths(&vec![path("/lib/a.jpg")]);
        assert!(matches!(db.prepare(scan("/lib/a.jpg", 1, 1, 7), &seen), Ok(None)));
        assert_eq!(db.state_of(id), state);
        assert!(db.list()[0].hash.is_none());
    }
}

#[test]
fn a_stale_item_is_skipped_where_its_hash_is_stored_and_embedded_again_otherwise() {
    let seen = PathSet::from_paths(&vec![path("/lib/a.jpg")]);
    let mut db = Db::new();
    let id = db.upsert("/lib/a.jpg", MediaKind::Image, 1, 1);
    db.set_state(id, IndexState::Stale, Some(hash(7))).unwrap();
    assert!(matches!(db.prepare(scan("/lib/a.jpg", 1, 1, 7), &seen), Ok(None)));
    assert_eq!(db.state_of(id), IndexState::Stale);

    let mut db = Db::new();
    let id = db.upsert("/lib/a.jpg", MediaKind::Image, 1, 1);
    db.set_state(id, IndexState::Stale, None).unwrap();
    let answer = db.prepare(scan("/lib/a.jpg", 1, 1, 7), &seen);
    assert!(matches!(answer, Ok(Some(i)) if i == id));
    assert_eq!(db.state_of(id), IndexState::Pending);
    assert_eq!(db.list()[0].hash, Some(hash(7)));
}

#[test]
fn a_pending_item_without_a_hash_is_work_to_do() {
    let mut db = Db::new();
    let id = db.upsert("/lib/a.jpg", MediaKind::Image, 1, 1);
    let seen = PathSet::from_paths(&vec![path("/lib/a.jpg")]);
    let answer = db.prepare(scan("/lib/a.jpg", 1, 1, 7), &seen);
    assert!(matches!(answer, Ok(Some(i)) if i == id));
    assert_eq!(db.list()[0].hash, Some(hash(7)));
    assert_eq!(db.state_of(id), IndexState::Pending);
    let answer = db.prepare(scan("/lib/a.jpg", 1, 1, 7), &seen);
    assert!(matches!(answer, Ok(Some(i)) if i == id));
}

#[test]
fn another_size_time_or_hash_is_a_change() {
    for item in [
        scan("/lib/a.jpg", 2, 1, 7),
        scan("/lib/a.jpg", 1, 2, 7),
        scan("/lib/a.jpg", 1, 1, 8),
    ] {
        let mut db = Db::new();
        let id = db.upsert("/lib/a.jpg", MediaKind::Image, 1, 1);
        db.set_state(id, IndexState::Done, Some(hash(7))).unwrap();
        let v = emb(&[1.0]);
        db.insert_batch(&[EmbeddedUnit { file: id, frame_ts: None, emb: &v }]);
        let seen = PathSet::from_paths(&vec![path("/lib/a.jpg")]);
        assert!(matches!(db.prepare(item, &seen), Ok(Some(i)) if i == id));
        assert_eq!(db.state_of(id), IndexState::Pending);
        assert!(db.units.is_empty());
    }
}

#[test]
fn preparing_gives_up_on_an_error_and_asks_for_the_id_of_a_new_item() {
    let store = SqliteStore::open(path("/db"));
    let seen = PathSet::from_paths(&vec![path("/lib/a.jpg")]);
    let mut preparer = Preparer::new(scan("/lib/a.jpg", 1, 1, 7));
    let action =
        preparer.next(&store, &seen, PrepareReport::Failed(LumeError::Store("locked".into())));
    match action {
        PrepareAction::Answer(Err(e)) => assert_eq!(e.to_text(), "vector store error: locked"),
        other => panic!("expected an error, got {:?}", other),
    }
    let mut preparer = Preparer::new(scan("/lib/a.jpg", 1, 1, 7));
    let action = preparer.next(&store, &seen, PrepareReport::Known(None));
    assert!(matches!(action, PrepareAction::FindMatches));
    let action = preparer.next(&store, &seen, PrepareReport::Matches(Vec::new()));
    assert!(matches!(action, PrepareAction::Insert(_)));
    match preparer.next(&store, &seen, PrepareReport::Inserted(None)) {
        PrepareAction::Answer(Err(e)) => {
            assert_eq!(e.to_text(), "vector store error: inserted file without returned id")
        }
        other => panic!("expected an error, got {:?}", other),
    }
}

#[test]
fn only_items_under_the_folder_can_be_missing() {
    let store = SqliteStore::open(path("/db"));
    let rows = vec![
        (1, "/lib/a.jpg".to_string()),
        (2, "/lib/gone.jpg".to_string()),
        (3, "/library/b.jpg".to_string()),
        (4, "/lib".to_string()),
    ];
    let seen = PathSet::from_paths(&vec![path("/lib/a.jpg")]);
    assert_eq!(
        store.delete_missing_files_under_root(&rows, &path("/lib"), &seen),
        vec![
            StoreOp::DeleteUnits { id: 2 },
            StoreOp::DeleteFile { id: 2 },
            StoreOp::DeleteUnits { id: 4 },
            StoreOp::DeleteFile { id: 4 },
        ]
    );
}

// ---------------------------------------------------------------------------
// Committing
// ---------------------------------------------------------------------------

fn ok_outcome() -> EmbedOutcome {
    EmbedOutcome::Embedded { emb: ones(), thumbnail_jpeg: STUB_JPEG.to_vec() }
}

#[test]
fn thumbnail_write_failure_does_not_mark_item_done_and_spares_siblings() {
    let mut db = Db::new();
    let mut thumbs = BTreeMap::new();
    let a = db.upsert("/lib/a.jpg", MediaKind::Image, 1, 1);
    let b = db.upsert("/lib/b.jpg", MediaKind::Image, 1, 1);

    commit(
        &mut db,
        &mut thumbs,
        &[a],
        false,
        &vec![a, b],
        &vec![hash(1), hash(2)],
        vec![ok_outcome(), ok_outcome()],
    )
    .unwrap();

    assert_ne!(db.state_of(a), IndexState::Done);
    assert_eq!(db.state_of(a), IndexState::Failed);
    assert_eq!(db.state_of(b), IndexState::Done);
    assert_eq!(db.list().into_iter().find(|f| f.id == b).unwrap().hash, Some(hash(2)));
    assert_eq!(thumbs.get(&format!("/thumbs/{b}.jpg")).unwrap(), &STUB_JPEG.to_vec());

    let hits = db.knn(&ones(), 10, &SearchFilters::default());
    assert_eq!(hits.len(), 1);
    assert_eq!(hits[0].0, b);
}

#[test]
fn vector_insert_failure_leaves_no_item_done_or_searchable() {
    let mut db = Db::new();
    let mut thumbs = BTreeMap::new();
    let a = db.upsert("/lib/a.jpg", MediaKind::Image, 1, 1);
    let b = db.upsert("/lib/b.jpg", MediaKind::Image, 1, 1);

    let result = commit(
        &mut db,
        &mut thumbs,
        &[],
        true,
        &vec![a, b],
        &vec![hash(1), hash(2)],
        vec![ok_outcome(), ok_outcome()],
    );

    assert!(result.is_err());
    assert_eq!(result.unwrap_err().to_text(), "vector store error: vector store is down");
    assert_ne!(db.state_of(a), IndexState::Done);
    assert_ne!(db.state_of(b), IndexState::Done);
    assert!(thumbs.contains_key(&format!("/thumbs/{a}.jpg")));
    assert!(thumbs.contains_key(&format!("/thumbs/{b}.jpg")));
    assert_eq!(db.knn(&ones(), 10, &SearchFilters::default()).len(), 0);
}

#[test]
fn a_state_that_cannot_be_set_ends_the_batch() {
    let mut db = Db::new();
    let mut thumbs = BTreeMap::new();
    let result = commit(
        &mut db,
        &mut thumbs,
        &[],
        false,
        &vec![5],
        &vec![hash(1)],
        vec![EmbedOutcome::Failed { reason: "no decoder".into() }],
    );
    assert_eq!(result.unwrap_err().to_text(), "not found: file 5");
}

#[test]
fn an_empty_batch_is_finished_at_once() {
    let mut committer = BatchCommitter::new(path("/thumbs"));
    assert!(matches!(
        committer.commit(&Vec::new(), &Vec::new(), Vec::new()),
        CommitAction::Finished(Ok(()))
    ));
    // What has no counterpart is left out.
    assert!(matches!(
        committer.commit(&vec![1], &vec![hash(1)], Vec::new()),
        CommitAction::Finished(Ok(()))
    ));
}

// ---------------------------------------------------------------------------
// Runs
// ---------------------------------------------------------------------------

#[test]
fn indexes_every_valid_file_with_thumbnail_and_done_state() {
    let mut world = World::new();
    world.write("a.jpg", b"fixture", 1);
    world.write("b.png", b"fixture", 1);
    world.write("ignored.txt", b"fixture", 1);
    let mut indexer = world.indexer(32);
    world.run(&mut indexer).unwrap();

    let files = world.db.list();
    assert_eq!(files.len(), 2, "only jpg/png are indexed, txt is ignored");
    for file in &files {
        assert_eq!(file.state, IndexState::Done);
        assert_eq!(world.thumb(file.id).unwrap(), &STUB_JPEG.to_vec());
    }
    assert_eq!(world.hits().len(), 2);
}

#[test]
fn heic_and_raw_files_flow_through_discovery_sidecar_and_commit_path() {
    let mut world = World::new();
    world.write("apple.heic", b"fixture", 1);
    world.write("canon.CR2", b"fixture", 1);
    world.write("nikon.nef", b"fixture", 1);
    world.write("ignored.mov", b"fixture", 1);
    let mut indexer = world.indexer(32);
    world.run(&mut indexer).unwrap();

    let names = world.names();
    assert_eq!(names.len(), 3);
    assert!(names.contains(&"apple.heic".to_string()));
    assert!(names.contains(&"canon.CR2".to_string()));
    assert!(names.contains(&"nikon.nef".to_string()));
    for file in &world.db.list() {
        assert_eq!(file.state, IndexState::Done);
        assert_eq!(world.thumb(file.id).unwrap(), &STUB_JPEG.to_vec());
    }
    assert_eq!(world.hits().len(), 3);
}

#[test]
fn raw_display_pair_produces_one_searchable_item() {
    let mut world = World::new();
    world.write("IMG_0100.CR2", b"fixture", 1);
    world.write("IMG_0100.JPG", b"fixture", 1);
    let mut indexer = world.indexer(32);
    world.run(&mut indexer).unwrap();

    let files = world.db.list();
    assert_eq!(files.len(), 1);
    assert_eq!(world.names(), vec!["IMG_0100.JPG"]);
    assert_eq!(files[0].state, IndexState::Done);
    assert_eq!(world.calls, 1);
    assert_eq!(world.hits(), vec![files[0].id]);
}

#[test]
fn a_corrupt_file_fails_without_aborting_its_batch() {
    let mut world = World::new();
    world.write("good_a.jpg", b"fixture", 1);
    world.write("corrupt.nef", b"fixture", 1);
    world.write("good_b.jpg", b"fixture", 1);
    world.fail_names = vec!["corrupt.nef".into()];
    let mut indexer = world.indexer(32);
    world.run(&mut indexer).unwrap();

    let files = world.db.list();
    assert_eq!(files.len(), 3);
    let by_name = |name: &str| {
        files
            .iter()
            .find(|f| f.path.file_name().unwrap() == name.as_bytes())
            .unwrap()
            .state
    };
    assert_eq!(by_name("good_a.jpg"), IndexState::Done);
    assert_eq!(by_name("good_b.jpg"), IndexState::Done);
    assert_eq!(by_name("corrupt.nef"), IndexState::Failed);
}

#[test]
fn rerunning_the_indexer_does_not_duplicate_rows() {
    let mut world = World::new();
    world.write("a.jpg", b"fixture", 1);
    world.write("b.jpg", b"fixture", 1);
    let mut indexer = world.indexer(32);
    world.run(&mut indexer).unwrap();
    world.run(&mut indexer).unwrap();

    assert_eq!(world.calls, 1, "stable Done items should not be embedded again on a later run");
    assert_eq!(world.db.list().len(), 2);
    assert_eq!(world.hits().len(), 2, "re-index must not duplicate units either");
}

#[test]
fn pending_items_resume_on_the_next_run() {
    let mut world = World::new();
    world.write("resume.jpg", b"fixture", 5);
    let file_id = world.db.upsert("/library/resume.jpg", MediaKind::Image, 7, 5);
    assert_eq!(world.db.list()[0].state, IndexState::Pending);
    let mut indexer = world.indexer(32);
    world.run(&mut indexer).unwrap();

    assert_eq!(world.calls, 1);
    assert_eq!(world.db.state_of(file_id), IndexState::Done);
}

#[test]
fn failed_items_are_not_retried_forever() {
    let mut world = World::new();
    world.write("corrupt.jpg", b"fixture", 1);
    world.fail_names = vec!["corrupt.jpg".into()];
    let mut indexer = world.indexer(32);
    world.run(&mut indexer).unwrap();
    assert_eq!(world.db.list()[0].state, IndexState::Failed);

    world.fail_names.clear();
    world.calls = 0;
    let mut indexer = world.indexer(32);
    world.run(&mut indexer).unwrap();

    assert_eq!(world.calls, 0, "stable Failed items should be skipped");
    assert_eq!(world.db.list()[0].state, IndexState::Failed);
}

#[test]
fn done_items_persist_hash_and_stay_skipped_when_unchanged() {
    let mut world = World::new();
    world.write("stable.jpg", b"same bytes", 1);
    let mut indexer = world.indexer(32);
    world.run(&mut indexer).unwrap();
    world.run(&mut indexer).unwrap();

    let files = world.db.list();
    assert_eq!(files.len(), 1);
    assert_eq!(files[0].state, IndexState::Done);
    assert!(files[0].hash.is_some(), "Done items persist an eager hash");
    assert_eq!(world.calls, 1, "unchanged hashed items should not be re-embedded");
}

#[test]
fn changed_item_replaces_old_units_and_hash() {
    let mut world = World::new();
    world.write("edited.jpg", b"original", 1);
    let mut indexer = world.indexer(32);
    world.run(&mut indexer).unwrap();
    let first = world.db.list().remove(0);

    world.write("edited.jpg", b"modified contents", 2);
    world.run(&mut indexer).unwrap();

    let files = world.db.list();
    assert_eq!(files.len(), 1);
    assert_eq!(files[0].id, first.id);
    assert_eq!(files[0].state, IndexState::Done);
    assert_ne!(files[0].hash, first.hash);
    assert_eq!(world.calls, 2);
    assert_eq!(world.hits(), vec![first.id], "changed items replace units, not duplicate them");
}

#[test]
fn deleted_item_is_removed_from_metadata_and_search() {
    let mut world = World::new();
    world.write("gone.jpg", b"fixture", 1);
    let mut indexer = world.indexer(32);
    world.run(&mut indexer).unwrap();
    world.disk.clear();
    world.run(&mut indexer).unwrap();

    assert!(world.db.list().is_empty());
    assert!(world.hits().is_empty(), "deleted items must disappear from search");
}

#[test]
fn moved_item_updates_path_without_reembedding() {
    let mut world = World::new();
    world.write("before.jpg", b"same pixels", 1);
    let mut indexer = world.indexer(32);
    world.run(&mut indexer).unwrap();
    let first = world.db.list().remove(0);

    let contents = world.disk.remove("/library/before.jpg").unwrap();
    world.disk.insert("/library/after.jpg".into(), contents);
    world.run(&mut indexer).unwrap();

    let files = world.db.list();
    assert_eq!(files.len(), 1);
    assert_eq!(files[0].id, first.id);
    assert_eq!(files[0].path, path("/library/after.jpg"));
    assert_eq!(files[0].hash, first.hash);
    assert_eq!(world.calls, 1, "rename/move by matching eager hash must not re-embed");
}

#[test]
fn raw_display_pair_hashes_primary_item_only() {
    let mut world = World::new();
    world.write("PAIR.CR2", b"raw bytes", 1);
    world.write("PAIR.JPG", b"display bytes", 1);
    let mut indexer = world.indexer(32);
    world.run(&mut indexer).unwrap();

    let files = world.db.list();
    assert_eq!(files.len(), 1);
    assert_eq!(world.names(), vec!["PAIR.JPG"]);
    assert_eq!(files[0].hash, Some(hash_whole(b"display bytes")));
}

#[test]
fn progress_is_observable_while_the_run_is_in_flight() {
    let mut world = World::new();
    for i in 0..6 {
        world.write(&format!("{i}.jpg"), b"fixture", 1);
    }
    let mut indexer = world.indexer(1);
    world.run(&mut indexer).unwrap();

    assert_eq!(world.calls, 6);
    assert_eq!(world.snapshots, vec![(0, 6), (1, 6), (2, 6), (3, 6), (4, 6), (5, 6)]);
    assert_eq!(indexer.progress().snapshot(), (6, 6));
}

/// What the tables hold, in a form that can be compared.
fn contents(db: &Db) -> (Vec<FileRow>, Vec<(i64, FileId, Option<Float32>, Vec<u8>)>) {
    (db.files.clone(), db.units.clone())
}

#[test]
fn after_a_run_the_tables_show_the_disk_and_a_second_run_changes_nothing() {
    let mut world = World::new();
    world.write("gone.jpg", b"gone", 1);
    world.write("old.jpg", b"moved", 1);
    world.write("kept.jpg", b"kept", 1);
    let mut indexer = world.indexer(2);
    world.run(&mut indexer).unwrap();

    world.disk.remove("/library/gone.jpg");
    world.disk.remove("/library/old.jpg");
    world.write("sub/new_place.jpg", b"moved", 2);
    world.write("corrupt.jpg", b"corrupt", 3);
    world.write("fresh.jpg", b"fresh", 3);
    world.fail_names.push("corrupt.jpg".to_string());
    world.run(&mut indexer).unwrap();

    let mut paths: Vec<String> = world.db.files.iter().map(|r| r.path.clone()).collect();
    paths.sort();
    let on_disk: Vec<String> = world.disk.keys().cloned().collect();
    assert_eq!(paths, on_disk, "one row for each item on the disk");
    for file in &world.db.list() {
        let units = world.db.units.iter().filter(|u| u.1 == file.id).count();
        if String::from_utf8(file.path.file_name().unwrap()).unwrap() == "corrupt.jpg" {
            assert_eq!(file.state, IndexState::Failed);
            assert_eq!(units, 0);
        } else {
            assert_eq!(file.state, IndexState::Done);
            assert!(file.hash.is_some());
            assert_eq!(units, 1);
            assert!(world.thumb(file.id).is_some());
        }
    }
    assert_eq!(world.db.units.len(), 3, "what is gone has no unit");

    let before = contents(&world.db);
    let thumbs = world.thumbs.clone();
    let calls = world.calls;
    world.run(&mut indexer).unwrap();
    assert_eq!(world.calls, calls, "nothing is embedded again");
    assert_eq!(contents(&world.db), before);
    assert_eq!(world.thumbs, thumbs);
}

#[test]
fn a_second_run_changes_nothing_where_a_path_is_stored_in_another_spelling() {
    let mut world = World::new();
    world.write("a.jpg", b"fixture", 1);
    let other = world.db.upsert("/library//a.jpg", MediaKind::Image, 7, 1);
    world.db.set_state(other, IndexState::Done, Some(hash_whole(b"fixture"))).unwrap();
    let mut indexer = world.indexer(32);
    world.run(&mut indexer).unwrap();

    assert_eq!(world.calls, 1, "the item has no row of its own yet");
    assert_eq!(world.db.files.len(), 2);
    assert_eq!(world.db.files[1].path, "/library/a.jpg");
    let before = contents(&world.db);
    world.run(&mut indexer).unwrap();
    assert_eq!(world.calls, 1);
    assert_eq!(contents(&world.db), before);
}

#[test]
fn batches_hold_as_many_items_as_they_may() {
    let mut world = World::new();
    for i in 0..5 {
        world.write(&format!("{i}.jpg"), &[i as u8], 1);
    }
    let mut indexer = world.indexer(2);
    world.run(&mut indexer).unwrap();
    assert_eq!(world.snapshots, vec![(0, 5), (2, 5), (4, 5)]);
    assert_eq!(world.indexer(0).batch_size, 1);
}

#[test]
fn a_run_ends_with_the_first_error() {
    let mut indexer = Indexer::new(path("/library"), 2, path("/thumbs"));
    assert!(matches!(indexer.run(), RunAction::CreateFolder(_)));
    let action = indexer.next(RunReport::Done(Err(LumeError::Io("read-only".into()))));
    match action {
        RunAction::Finished(Err(e)) => assert_eq!(e.to_text(), "io error: read-only"),
        other => panic!("expected the end of the run, got {:?}", other),
    }
    indexer.run();
    indexer.next(RunReport::Done(Ok(())));
    let action = indexer.next(RunReport::Walked(vec![WalkEntry {
        path: path("/library/a.jpg"),
        is_file: true,
    }]));
    assert!(matches!(action, RunAction::Inspect(p) if p == path("/library/a.jpg")));
    let facts = FileFacts { size: 3, modified: None, hash: hash(2) };
    match indexer.next(RunReport::Inspected(Ok(facts))) {
        RunAction::Prepare(item) => {
            assert_eq!((item.size, item.mtime), (3, 0), "an unknown time is stored as zero");
            assert_eq!(item.kind, MediaKind::Image);
        }
        other => panic!("expected the item to be prepared, got {:?}", other),
    }
    let action = indexer.next(RunReport::Prepared(Ok(Some(9))));
    assert!(matches!(action, RunAction::Embed));
    let action = indexer.next(RunReport::Embedded(Err(LumeError::Sidecar("gone".into()))));
    assert!(matches!(action, RunAction::Finished(Err(LumeError::Sidecar(_)))));
    assert_eq!(indexer.progress().snapshot(), (0, 1));
}
