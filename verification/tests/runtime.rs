use std::cell::RefCell;

use lume::config::Config;
use lume::commands::{
    index_status, to_core_filters, to_search_hit, HitKind, HitKindFilter, IndexPhase,
    SearchFilters as AskedFilters,
};
use lume::error::LumeError;
use lume::float32::Float32;
use lume::path::MediaPath;
use lume::rank::Tile;
use lume::runtime::{
    derive_phase, lume_data_dir, m1_image_meta, normalize_query, requested_thumbnail,
    sidecar_args, sidecar_socket_path, watch_folder, AppRuntime, RunFacts, RunPhase, RunStatus,
    ThumbnailLookup,
};
use lume::traits::{EmbedOutcome, Sidecar, VectorStore};
use lume::types::{
    EmbedUnit, EmbeddedUnit, Embedding, FileId, MediaKind, ScoredHit, SearchFilters,
};

fn f(x: f32) -> Float32 {
    Float32 { bits: x.to_bits() }
}

fn times(a: Float32, b: Float32) -> Float32 {
    f(f32::from_bits(a.bits) * f32::from_bits(b.bits))
}

fn minus(a: Float32, b: Float32) -> Float32 {
    f(f32::from_bits(a.bits) - f32::from_bits(b.bits))
}

fn app() -> AppRuntime {
    AppRuntime::bootstrap(&MediaPath::from_text("/home/ann"), None)
}

/// Serves a request from a folder that holds one thumbnail.
fn serve(app: &AppRuntime, uri_path: &str, stored: &str, bytes: &[u8]) -> (u16, Option<&'static str>, Vec<u8>) {
    let found = match app.thumbnail_path(uri_path) {
        None => ThumbnailLookup::Refused,
        Some(path) => {
            if path.to_text() == format!("/home/ann/.lume/thumbnails/{stored}") {
                ThumbnailLookup::Found(bytes.to_vec())
            } else {
                ThumbnailLookup::Missing
            }
        }
    };
    let reply = app.thumbnail_response(found);
    (reply.status, reply.content_type, reply.body)
}

#[test]
fn serves_the_thumbnail_bytes_for_a_known_id() {
    let (status, content_type, body) = serve(&app(), "/42", "42.jpg", b"jpeg-bytes");
    assert_eq!(status, 200);
    assert_eq!(content_type.unwrap(), "image/jpeg");
    assert_eq!(body, b"jpeg-bytes");
}

#[test]
fn returns_404_for_a_missing_thumbnail() {
    let (status, content_type, body) = serve(&app(), "/999", "42.jpg", b"jpeg-bytes");
    assert_eq!(status, 404);
    assert!(content_type.is_none());
    assert!(body.is_empty());
}

#[test]
fn rejects_non_integer_ids_as_a_path_traversal_guard() {
    for path in ["/../../etc/passwd", "/1.jpg", "/abc", "/"] {
        let (status, _, body) = serve(&app(), path, "1.jpg", b"jpeg-bytes");
        assert_eq!(status, 400, "expected 400 for {path}");
        assert!(body.is_empty());
    }
}

#[test]
fn reads_ids_as_integers() {
    assert_eq!(requested_thumbnail("///7"), Some(7));
    assert_eq!(requested_thumbnail("7"), Some(7));
    assert_eq!(requested_thumbnail("/-7"), Some(-7));
    assert_eq!(requested_thumbnail("/+7"), Some(7));
    assert_eq!(requested_thumbnail("/007"), Some(7));
    assert_eq!(requested_thumbnail("/9223372036854775807"), Some(i64::MAX));
    assert_eq!(requested_thumbnail("/-9223372036854775808"), Some(i64::MIN));
    assert_eq!(requested_thumbnail("/9223372036854775808"), None);
    assert_eq!(requested_thumbnail("/7/"), None);
    assert_eq!(requested_thumbnail("/ 7"), None);
    assert_eq!(requested_thumbnail("/-"), None);
    assert_eq!(requested_thumbnail(""), None);
}

#[test]
fn normalizes_query_before_embedding() {
    assert_eq!(normalize_query("  Girl Riding A Bicycle  "), "girl riding a bicycle");
    assert_eq!(normalize_query("\n\tSUNSET\t\n"), "sunset");
}

#[test]
fn normalizes_beyond_ascii() {
    assert_eq!(normalize_query("\u{3000}ÄÖÜ ΟΔΟΣ\u{a0}"), "äöü οδος");
    assert_eq!(normalize_query("İ"), "i\u{307}");
}

#[test]
fn sidecar_socket_lives_inside_private_lume_data_dir() {
    let data_dir = MediaPath::from_text("/tmp/somewhere/.lume");
    let socket = sidecar_socket_path(&data_dir);
    assert!(socket.starts_with(&data_dir));
    assert_ne!(socket, MediaPath::from_text("/tmp/lume-sidecar.sock"));
    assert_eq!(socket, MediaPath::from_text("/tmp/somewhere/.lume/sidecar.sock"));
}

#[test]
fn index_run_phase_transitions() {
    assert_eq!(derive_phase(false, 0), RunPhase::Scanning);
    assert_eq!(derive_phase(false, 12), RunPhase::Indexing);
    assert_eq!(derive_phase(true, 0), RunPhase::Idle);
    assert_eq!(derive_phase(true, 12), RunPhase::Idle);
}

#[test]
fn a_second_run_waits_for_the_first() {
    let app = app();
    let running = RunFacts { finished: false, done: 1, total: 3 };
    let ended = RunFacts { finished: true, done: 3, total: 3 };
    assert_eq!(app.start_index(Some(running)), Err("indexing already in progress".to_string()));
    assert_eq!(app.start_reconcile(Some(running)), Err("indexing already in progress".to_string()));
    assert_eq!(app.start_index(Some(ended)), Ok(()));
    assert_eq!(app.start_index(None), Ok(()));
}

#[test]
fn status_of_the_last_run() {
    let app = app();
    assert_eq!(
        app.index_status(None),
        RunStatus { phase: RunPhase::Idle, done: 0, total: 0 }
    );
    let status = app.index_status(Some(RunFacts { finished: false, done: 2, total: 5 }));
    assert_eq!(status, RunStatus { phase: RunPhase::Indexing, done: 2, total: 5 });
    let shown = index_status(status);
    assert_eq!(shown.phase, IndexPhase::Indexing);
    assert_eq!((shown.done, shown.total), (2, 5));
    let shown = index_status(app.index_status(Some(RunFacts { finished: false, done: 0, total: 0 })));
    assert_eq!(shown.phase, IndexPhase::Scanning);
}

#[test]
fn folders_of_the_application() {
    let app = app();
    assert_eq!(app.data_dir.to_text(), "/home/ann/.lume");
    assert_eq!(app.thumbnails_dir.to_text(), "/home/ann/.lume/thumbnails");
    assert_eq!(app.db_path.to_text(), "/home/ann/.lume/lume.sqlite3");
    assert_eq!(app.socket_path.to_text(), "/home/ann/.lume/sidecar.sock");
    assert_eq!(app.watch_folder.to_text(), "/home/ann/Pictures");
    let home = MediaPath::from_text("/home/ann/");
    assert_eq!(lume_data_dir(&home).to_text(), "/home/ann/.lume");
    let asked = Some(MediaPath::from_text("/media"));
    assert_eq!(watch_folder(asked, &home).to_text(), "/media");
}

#[test]
fn command_line_of_the_sidecar() {
    let socket = MediaPath::from_text("/s/sidecar.sock");
    assert_eq!(
        sidecar_args(&socket, false),
        vec!["run", "python", "-m", "lume_sidecar.server", "--socket", "/s/sidecar.sock"]
    );
    assert_eq!(sidecar_args(&socket, true).last().unwrap(), "--fake");
    assert_eq!(sidecar_args(&socket, true).len(), 7);
}

struct OneVector {
    asked: RefCell<Vec<String>>,
    fails: bool,
}

impl Sidecar for OneVector {
    fn embed(&self, _units: &[EmbedUnit]) -> Result<Vec<EmbedOutcome>, LumeError> {
        Ok(Vec::new())
    }

    fn embed_one(&self, _image: &[u8]) -> Result<Embedding, LumeError> {
        Ok(Embedding(vec![1]))
    }

    fn embed_text(&self, query: &str) -> Result<Embedding, LumeError> {
        self.asked.borrow_mut().push(query.to_string());
        if self.fails {
            return Err(LumeError::Sidecar("socket closed".into()));
        }
        Ok(Embedding(vec![0x3c00]))
    }
}

struct TwoHits {
    asked: RefCell<Vec<(Embedding, usize)>>,
}

impl VectorStore for TwoHits {
    fn insert_batch(&self, _units: &[EmbeddedUnit<'_>]) -> Result<(), LumeError> {
        Ok(())
    }

    fn knn(
        &self,
        query: &Embedding,
        k: usize,
        _filters: &SearchFilters,
    ) -> Result<Vec<ScoredHit>, LumeError> {
        self.asked.borrow_mut().push((query.clone(), k));
        Ok(vec![
            ScoredHit { file: 1, frame_ts: None, score: f(0.2) },
            ScoredHit { file: 2, frame_ts: None, score: f(0.9) },
            ScoredHit { file: 3, frame_ts: None, score: f(0.8) },
        ])
    }

    fn delete_file(&self, _file: FileId) -> Result<(), LumeError> {
        Ok(())
    }
}

#[test]
fn a_search_embeds_fetches_and_ranks() {
    let app = app();
    let sidecar = OneVector { asked: RefCell::new(Vec::new()), fails: false };
    let store = TwoHits { asked: RefCell::new(Vec::new()) };
    let filters = SearchFilters::default();
    let tiles = app.search(&sidecar, &store, "  A Dog ", &filters, times, minus).unwrap();
    assert_eq!(*sidecar.asked.borrow(), vec!["a dog".to_string()]);
    assert_eq!(*store.asked.borrow(), vec![(Embedding(vec![0x3c00]), 3000)]);
    let files: Vec<FileId> = tiles.iter().map(|t| t.file).collect();
    assert_eq!(files, vec![2, 3], "0.2 is below 0.65 of 0.9");
    assert!(tiles.iter().all(|t| t.kind == MediaKind::Image && t.thumb_id == t.file));
    assert_eq!(m1_image_meta(5).thumb_id, 5);
}

#[test]
fn an_empty_query_asks_nothing() {
    let app = app();
    let sidecar = OneVector { asked: RefCell::new(Vec::new()), fails: false };
    let store = TwoHits { asked: RefCell::new(Vec::new()) };
    let filters = SearchFilters::default();
    assert!(app.search(&sidecar, &store, " \n ", &filters, times, minus).unwrap().is_empty());
    assert!(sidecar.asked.borrow().is_empty());
    assert!(store.asked.borrow().is_empty());
}

#[test]
fn a_failed_search_says_why() {
    let app = app();
    let sidecar = OneVector { asked: RefCell::new(Vec::new()), fails: true };
    let store = TwoHits { asked: RefCell::new(Vec::new()) };
    let filters = SearchFilters::default();
    assert_eq!(
        app.search(&sidecar, &store, "dog", &filters, times, minus),
        Err("sidecar transport error: socket closed".to_string())
    );
    assert!(store.asked.borrow().is_empty());
}

#[test]
fn filters_from_the_user_interface() {
    assert_eq!(to_core_filters(&None), SearchFilters::default());
    let asked = AskedFilters {
        kind: Some(HitKindFilter::Video),
        captured_after: Some(1),
        captured_before: None,
        folder: Some("/trips".to_string()),
    };
    assert_eq!(
        to_core_filters(&Some(asked)),
        SearchFilters {
            kind: Some(MediaKind::Video),
            captured_after: Some(1),
            captured_before: None,
            folder: Some(MediaPath::from_text("/trips")),
        }
    );
}

#[test]
fn tiles_for_the_user_interface() {
    let tile = Tile {
        file: 9,
        kind: MediaKind::Video,
        thumb_id: -4,
        score: f(0.5),
        matched_timestamps: vec![f(1.5), f(0.5)],
    };
    let hit = to_search_hit(&tile);
    assert_eq!(hit.file_id, 9);
    assert_eq!(hit.thumb_url, "lume://thumb/-4");
    assert_eq!(hit.kind, HitKind::Video);
    assert_eq!(hit.score, f(0.5));
    assert_eq!(hit.matched_timestamps, vec![f(1.5), f(0.5)]);
}

#[test]
fn the_application_runs_on_the_default_configuration() {
    let app = AppRuntime::bootstrap(&MediaPath::from_text("/home/me"), None);
    assert_eq!(app.config, Config::default());
    assert_eq!(app.config.debounce_ms, 275);
    assert_eq!(app.config.video.max_frames, 60);
    assert!(!app.config.index_on_battery);
}
