//! The running application: where things are, how a search goes, when a run may
//! start, and which thumbnail is served.

use crate::commit::{thumbnail_file_name, thumbnail_name};
use crate::config::Config;
use crate::error::{error_text, LumeError};
use crate::float32::Float32;
use crate::path::{component_key, components, joined, lies_under, MediaPath};
use crate::rank::{collapsed, cut, rank_tiles, Tile, TileMeta};
use crate::rank_laws::{all_numbers, floored, greatest, lemma_floor, lemma_tiles_tell, tells};
use crate::text::{
    ascii_lower, chars_of, integer_value, lossy_text, lowercase_of, parse_i64, text_of,
    to_lowercase, trim, trimmed,
};
use crate::traits::{Sidecar, VectorStore};
use crate::types::{Embedding, FileId, MediaKind, ScoredHit, SearchFilters};
use vstd::prelude::*;
use vstd::utf8::{encode_utf8, is_ascii_chars};

verus! {

/// The name of the sidecar's socket.
pub const SIDECAR_SOCKET_NAME: &'static str = "sidecar.sock";

/// What a run is at.
#[derive(Clone, Copy, Debug, PartialEq, Eq, Structural)]
pub enum RunPhase {
    Idle,
    Scanning,
    Indexing,
}

/// How far a run has come.
#[derive(Clone, Copy, Debug, PartialEq, Eq, Structural)]
pub struct RunStatus {
    pub phase: RunPhase,
    pub done: u64,
    pub total: u64,
}

/// What is known of the last run that was started.
#[derive(Clone, Copy, Debug, PartialEq, Eq, Structural)]
pub struct RunFacts {
    /// Whether it has ended.
    pub finished: bool,
    pub done: u64,
    pub total: u64,
}

/// What a run is at, given whether it has ended and how many items it has found.
pub open spec fn phase_of(finished: bool, total: u64) -> RunPhase {
    if finished {
        RunPhase::Idle
    } else if total == 0 {
        RunPhase::Scanning
    } else {
        RunPhase::Indexing
    }
}

/// What a run is at, given whether it has ended and how many items it has found.
pub fn derive_phase(finished: bool, total: u64) -> (phase: RunPhase)
    ensures
        phase == phase_of(finished, total),
        phase == RunPhase::Idle <==> finished,
        phase == RunPhase::Scanning <==> !finished && total == 0,
        phase == RunPhase::Indexing <==> !finished && total > 0,
{
    if finished {
        RunPhase::Idle
    } else if total == 0 {
        RunPhase::Scanning
    } else {
        RunPhase::Indexing
    }
}

// ---------------------------------------------------------------------------
// Folders
// ---------------------------------------------------------------------------

/// The folder for data below a home folder.
pub fn lume_data_dir(home: &MediaPath) -> (path: MediaPath)
    ensures
        path@ == joined(home@, encode_utf8(".lume"@)),
{
    home.join(".lume")
}

/// The socket of the sidecar in the folder for data.
pub fn sidecar_socket_path(data_dir: &MediaPath) -> (path: MediaPath)
    ensures
        path@ == joined(data_dir@, encode_utf8(SIDECAR_SOCKET_NAME@)),
{
    data_dir.join(SIDECAR_SOCKET_NAME)
}

/// The folder to index: the one that was asked for, or the pictures of the home
/// folder.
pub fn watch_folder(asked: Option<MediaPath>, home: &MediaPath) -> (path: MediaPath)
    ensures
        path@ == match asked {
            Some(p) => p@,
            None => joined(home@, encode_utf8("Pictures"@)),
        },
{
    match asked {
        Some(path) => path,
        None => home.join("Pictures"),
    }
}

/// Whether `args` are the arguments of the sidecar's command line.
pub open spec fn sidecar_command(args: Seq<String>, socket: Seq<u8>, fake: bool) -> bool {
    &&& args.len() == if fake {
        7nat
    } else {
        6nat
    }
    &&& args[0]@ == "run"@
    &&& args[1]@ == "python"@
    &&& args[2]@ == "-m"@
    &&& args[3]@ == "lume_sidecar.server"@
    &&& args[4]@ == "--socket"@
    &&& args[5]@ == lossy_text(socket)
    &&& fake ==> args[6]@ == "--fake"@
}

/// The arguments of the sidecar's command line.
pub fn sidecar_args(socket_path: &MediaPath, fake: bool) -> (args: Vec<String>)
    ensures
        sidecar_command(args@, socket_path@, fake),
        args@[0]@ == "run"@ && args@[1]@ == "python"@ && args@[2]@ == "-m"@ && args@[3]@
            == "lume_sidecar.server"@,
        args@[4]@ == "--socket"@ && args@[5]@ == lossy_text(socket_path@),
        fake ==> args@[6]@ == "--fake"@,
        args@.len() == 7 <==> fake,
        args@.len() == 6 <==> !fake,
{
    let mut args: Vec<String> = Vec::new();
    args.push("run".to_string());
    args.push("python".to_string());
    args.push("-m".to_string());
    args.push("lume_sidecar.server".to_string());
    args.push("--socket".to_string());
    args.push(socket_path.to_text());
    if fake {
        args.push("--fake".to_string());
    }
    args
}

// ---------------------------------------------------------------------------
// Queries
// ---------------------------------------------------------------------------

/// A query without white space around it and in lower case.
pub fn normalize_query(query: &str) -> (normal: String)
    ensures
        normal@ == lowercase_of(trimmed(query@)),
        is_ascii_chars(trimmed(query@)) ==> normal@ == ascii_lower(trimmed(query@)),
        trimmed(query@).len() == 0 ==> normal@.len() == 0,
{
    let short = trim(query);
    let normal = to_lowercase(short.as_str());
    proof {
        if trimmed(query@).len() == 0 {
            assert(is_ascii_chars(short@));
        }
    }
    normal
}

/// What the pipeline knows of an item while only images are indexed: it is its
/// own thumbnail.
pub fn m1_image_meta(file: FileId) -> (meta: TileMeta)
    ensures
        meta == (TileMeta { kind: MediaKind::Image, thumb_id: file }),
{
    TileMeta { kind: MediaKind::Image, thumb_id: file }
}

// ---------------------------------------------------------------------------
// Thumbnails
// ---------------------------------------------------------------------------

/// A text without the slashes that it begins with.
pub open spec fn without_slashes(text: Seq<char>) -> Seq<char>
    decreases text.len(),
{
    if text.len() > 0 && text[0] == '/' {
        without_slashes(text.skip(1))
    } else {
        text
    }
}

/// The item whose thumbnail the path of a request asks for.
pub open spec fn requested(uri_path: Seq<char>) -> Option<FileId> {
    match integer_value(without_slashes(uri_path)) {
        Some(v) if i64::MIN <= v <= i64::MAX => Some(v as i64),
        _ => None,
    }
}

/// The item whose thumbnail the path of a request asks for: an integer, after any
/// slashes, and nothing else.
pub fn requested_thumbnail(uri_path: &str) -> (file: Option<FileId>)
    ensures
        file == requested(uri_path@),
{
    let chars = chars_of(uri_path);
    let mut from: usize = 0;
    assert(uri_path@.skip(0) =~= uri_path@);
    while from < chars.len() && chars[from] == '/'
        invariant
            chars@ == uri_path@,
            from <= chars@.len(),
            without_slashes(uri_path@) == without_slashes(uri_path@.skip(from as int)),
        decreases chars@.len() - from,
    {
        assert(uri_path@.skip(from as int).skip(1) =~= uri_path@.skip(from + 1));
        from += 1;
    }
    let text = text_of(&chars, from, chars.len());
    assert(text@ =~= uri_path@.skip(from as int));
    parse_i64(text.as_str())
}

/// What was found of a thumbnail.
#[derive(Clone, Debug, PartialEq, Eq)]
pub enum ThumbnailLookup {
    /// The request names no item.
    Refused,
    /// The item has no thumbnail that can be read.
    Missing,
    /// The thumbnail.
    Found(Vec<u8>),
}

/// An answer to a request for a thumbnail.
#[derive(Clone, Debug, PartialEq, Eq)]
pub struct ThumbnailReply {
    pub status: u16,
    pub content_type: Option<&'static str>,
    pub body: Vec<u8>,
}

// ---------------------------------------------------------------------------
// The application
// ---------------------------------------------------------------------------

/// The application: its configuration and its folders.
#[derive(Debug, PartialEq, Eq)]
pub struct AppRuntime {
    pub config: Config,
    pub data_dir: MediaPath,
    pub thumbnails_dir: MediaPath,
    pub db_path: MediaPath,
    pub socket_path: MediaPath,
    pub watch_folder: MediaPath,
}

impl AppRuntime {
    /// The application of a user: the default configuration, and folders below
    /// the home folder. `asked` is the folder to index, if one was asked for.
    pub fn bootstrap(home: &MediaPath, asked: Option<MediaPath>) -> (app: AppRuntime)
        ensures
            app.data_dir@ == joined(home@, encode_utf8(".lume"@)),
            app.thumbnails_dir@ == joined(app.data_dir@, encode_utf8("thumbnails"@)),
            app.db_path@ == joined(app.data_dir@, encode_utf8("lume.sqlite3"@)),
            app.socket_path@ == joined(app.data_dir@, encode_utf8(SIDECAR_SOCKET_NAME@)),
            app.watch_folder@ == match asked {
                Some(p) => p@,
                None => joined(home@, encode_utf8("Pictures"@)),
            },
            app.config.valid(),
            app.config.has_defaults(),
    {
        let config = Config::default();
        let data_dir = lume_data_dir(home);
        AppRuntime {
            config,
            thumbnails_dir: data_dir.join("thumbnails"),
            db_path: data_dir.join("lume.sqlite3"),
            socket_path: sidecar_socket_path(&data_dir),
            data_dir,
            watch_folder: watch_folder(asked, home),
        }
    }

    /// The text to be embedded for a query. A query with nothing in it has none,
    /// and no results.
    pub fn query_text(&self, raw_query: &str) -> (text: Option<String>)
        ensures
            text is None <==> lowercase_of(trimmed(raw_query@)).len() == 0,
            text matches Some(t) ==> t@ == lowercase_of(trimmed(raw_query@)),
            trimmed(raw_query@).len() == 0 ==> text is None,
    {
        let query = normalize_query(raw_query);
        if chars_of(query.as_str()).len() == 0 {
            None
        } else {
            Some(query)
        }
    }

    /// How many units a search fetches: enough for a full list of tiles where
    /// many units fall on one item.
    pub fn units_to_fetch(&self) -> (k: usize)
        requires
            self.config.results.tile_cap * self.config.results.unit_oversample <= usize::MAX,
        ensures
            k == self.config.results.tile_cap * self.config.results.unit_oversample,
    {
        self.config.results.tile_cap * self.config.results.unit_oversample
    }

    /// The tiles of a search, from the units that it fetched. `times` multiplies
    /// and `minus` subtracts scores.
    pub fn tiles<T, M>(&self, hits: Vec<ScoredHit>, times: T, minus: M) -> (tiles: Vec<
        Tile,
    >) where T: Fn(Float32, Float32) -> Float32, M: Fn(Float32, Float32) -> Float32
        requires
            forall|a: Float32, b: Float32| call_requires(times, (a, b)),
            forall|a: Float32, b: Float32| call_requires(minus, (a, b)),
        ensures
            self.tiled(hits@, times, tiles@),
    {
        let ranked = rank_tiles(hits, &self.config.results, m1_image_meta, times, minus);
        assert forall|i: int| 0 <= i < ranked.tiles@.len() implies (
        #[trigger] ranked.tiles@[i]).kind == MediaKind::Image && ranked.tiles@[i].thumb_id
            == ranked.tiles@[i].file by {
            assert(crate::rank::described(ranked.tiles@[i], m1_image_meta));
        }
        ranked.tiles
    }

    /// Searches: embeds the query, fetches units, and turns them into tiles. A
    /// query with nothing in it has no results. What the sidecar or the store
    /// fails with comes back as text.
    pub fn search<S, V, T, M>(
        &self,
        sidecar: &S,
        store: &V,
        raw_query: &str,
        filters: &SearchFilters,
        times: T,
        minus: M,
    ) -> (found: Result<Vec<Tile>, String>) where
        S: Sidecar,
        V: VectorStore,
        T: Fn(Float32, Float32) -> Float32,
        M: Fn(Float32, Float32) -> Float32,

        requires
            self.config.results.tile_cap * self.config.results.unit_oversample <= usize::MAX,
            forall|a: Float32, b: Float32| call_requires(times, (a, b)),
            forall|a: Float32, b: Float32| call_requires(minus, (a, b)),
        ensures
            lowercase_of(trimmed(raw_query@)).len() == 0 ==> (found matches Ok(tiles)
                && tiles@.len() == 0),
            lowercase_of(trimmed(raw_query@)).len() > 0 ==> exists|
                query: &str,
                answer: Result<Embedding, LumeError>,
            | #[trigger]
                call_ensures(S::embed_text, (sidecar, query), answer) && query@ == lowercase_of(
                    trimmed(raw_query@),
                ) && self.searched(store, filters, times, answer, found),
            found is Ok && lowercase_of(trimmed(raw_query@)).len() > 0 ==> exists|
                query: &str,
                emb: Embedding,
                hits: Vec<ScoredHit>,
            |
                #![trigger call_ensures(S::embed_text, (sidecar, query), Ok::<Embedding, LumeError>(emb)), hits@]
                query@ == lowercase_of(trimmed(raw_query@)) && call_ensures(
                    S::embed_text,
                    (sidecar, query),
                    Ok::<Embedding, LumeError>(emb),
                ) && call_ensures(
                    V::knn,
                    (
                        store,
                        &emb,
                        (self.config.results.tile_cap * self.config.results.unit_oversample) as usize,
                        filters,
                    ),
                    Ok::<Vec<ScoredHit>, LumeError>(hits),
                ) && self.tiled(hits@, times, found->Ok_0@),
            found matches Err(why) ==> exists|query: &str, answer: Result<Embedding, LumeError>|
                #[trigger]
                call_ensures(S::embed_text, (sidecar, query), answer) && query@ == lowercase_of(
                    trimmed(raw_query@),
                ) && ((answer is Err && why@ == error_text(answer->Err_0)) || (answer is Ok && exists|
                    e: LumeError,
                | #[trigger]
                    call_ensures(
                        V::knn,
                        (
                            store,
                            &answer->Ok_0,
                            (self.config.results.tile_cap
                                * self.config.results.unit_oversample) as usize,
                            filters,
                        ),
                        Err::<Vec<ScoredHit>, LumeError>(e),
                    ) && why@ == error_text(e))),
    {
        let query = match self.query_text(raw_query) {
            Some(query) => query,
            None => {
                return Ok(Vec::new());
            },
        };
        let text: &str = query.as_str();
        let answer = sidecar.embed_text(text);
        let ghost said = answer;
        let emb = match answer {
            Ok(emb) => emb,
            Err(e) => {
                let found: Result<Vec<Tile>, String> = Err(e.to_text());
                assert(call_ensures(S::embed_text, (sidecar, text), said));
                assert(self.searched(store, filters, times, said, found));
                return found;
            },
        };
        let k: usize = self.units_to_fetch();
        let fetched = store.knn(&emb, k, filters);
        let ghost units = fetched;
        let found: Result<Vec<Tile>, String> = match fetched {
            Ok(hits) => Ok(self.tiles(hits, times, minus)),
            Err(e) => Err(e.to_text()),
        };
        assert(call_ensures(V::knn, (store, &emb, k, filters), units));
        assert(call_ensures(S::embed_text, (sidecar, text), said));
        assert(self.searched(store, filters, times, said, found));
        found
    }

    /// Whether `found` is the result of a search whose query was embedded with
    /// `answer`.
    pub open spec fn searched<V: VectorStore, T: Fn(Float32, Float32) -> Float32>(
        &self,
        store: &V,
        filters: &SearchFilters,
        times: T,
        answer: Result<Embedding, LumeError>,
        found: Result<Vec<Tile>, String>,
    ) -> bool {
        let k = (self.config.results.tile_cap * self.config.results.unit_oversample) as usize;
        match answer {
            Err(e) => found matches Err(why) && why@ == error_text(e),
            Ok(emb) => exists|fetched: Result<Vec<ScoredHit>, LumeError>| #[trigger]
                call_ensures(V::knn, (store, &emb, k, filters), fetched) && match fetched {
                    Err(e) => found matches Err(why) && why@ == error_text(e),
                    Ok(hits) => found matches Ok(tiles) && self.tiled(hits@, times, tiles@),
                },
        }
    }

    /// Whether some tiles are those of a search that fetched `hits`.
    pub open spec fn tiled<T: Fn(Float32, Float32) -> Float32>(
        &self,
        hits: Seq<ScoredHit>,
        times: T,
        tiles: Seq<Tile>,
    ) -> bool {
        &&& exists|all: Seq<Tile>| #[trigger]
            collapsed(all, hits) && cut(all, self.config.results, times, tiles)
        &&& forall|i: int|
            0 <= i < tiles.len() ==> (#[trigger] tiles[i]).kind == MediaKind::Image
                && tiles[i].thumb_id == tiles[i].file
    }

    /// Whether a run may start: not while another one is under way.
    pub fn start_reconcile(&self, last: Option<RunFacts>) -> (started: Result<(), String>)
        ensures
            started is Err <==> (last matches Some(run) && !run.finished),
            started matches Err(why) ==> why@ == "indexing already in progress"@,
    {
        match last {
            Some(run) => if run.finished {
                Ok(())
            } else {
                Err("indexing already in progress".to_string())
            },
            None => Ok(()),
        }
    }

    /// Whether a run may start, as [`AppRuntime::start_reconcile`].
    pub fn start_index(&self, last: Option<RunFacts>) -> (started: Result<(), String>)
        ensures
            started is Err <==> (last matches Some(run) && !run.finished),
            started matches Err(why) ==> why@ == "indexing already in progress"@,
    {
        self.start_reconcile(last)
    }

    /// How far the last run has come.
    pub fn index_status(&self, last: Option<RunFacts>) -> (status: RunStatus)
        ensures
            status == match last {
                Some(run) => RunStatus {
                    phase: phase_of(run.finished, run.total),
                    done: run.done,
                    total: run.total,
                },
                None => RunStatus { phase: RunPhase::Idle, done: 0, total: 0 },
            },
    {
        match last {
            Some(run) => RunStatus {
                phase: derive_phase(run.finished, run.total),
                done: run.done,
                total: run.total,
            },
            None => RunStatus { phase: RunPhase::Idle, done: 0, total: 0 },
        }
    }

    /// The file to be served for the path of a request. There is none where the
    /// path is not that of an integer.
    pub fn thumbnail_path(&self, uri_path: &str) -> (path: Option<MediaPath>)
        ensures
            path is Some <==> requested(uri_path@) is Some,
            path matches Some(p) ==> p@ == joined(
                self.thumbnails_dir@,
                encode_utf8(thumbnail_name(requested(uri_path@)->0)),
            ),
    {
        match requested_thumbnail(uri_path) {
            Some(file) => Some(self.thumbnails_dir.join(thumbnail_file_name(file).as_str())),
            None => None,
        }
    }

    /// The answer to a request for a thumbnail, from what was found of it.
    pub fn thumbnail_response(&self, found: ThumbnailLookup) -> (reply: ThumbnailReply)
        ensures
            match found {
                ThumbnailLookup::Refused => reply.status == 400 && reply.content_type is None
                    && reply.body@.len() == 0,
                ThumbnailLookup::Missing => reply.status == 404 && reply.content_type is None
                    && reply.body@.len() == 0,
                ThumbnailLookup::Found(bytes) => {
                    &&& reply.status == 200
                    &&& reply.content_type matches Some(t) && t@ == "image/jpeg"@
                    &&& reply.body@ == bytes@
                },
            },
    {
        match found {
            ThumbnailLookup::Refused => ThumbnailReply {
                status: 400,
                content_type: None,
                body: Vec::new(),
            },
            ThumbnailLookup::Missing => ThumbnailReply {
                status: 404,
                content_type: None,
                body: Vec::new(),
            },
            ThumbnailLookup::Found(bytes) => ThumbnailReply {
                status: 200,
                content_type: Some("image/jpeg"),
                body: bytes,
            },
        }
    }
}

// ---------------------------------------------------------------------------
// Laws
// ---------------------------------------------------------------------------

proof fn lemma_thumbnail_name(file: FileId)
    ensures
        encode_utf8(thumbnail_name(file)).len() >= 5,
        forall|i: int|
            0 <= i < encode_utf8(thumbnail_name(file)).len() ==> #[trigger] encode_utf8(
                thumbnail_name(file),
            )[i] != 47,
{
    let name = thumbnail_name(file);
    crate::text::lemma_decimal_characters(file as int);
    reveal_strlit(".jpg");
    let number = crate::text::decimal(file as int);
    assert forall|i: int| 0 <= i < name.len() implies '\0' <= #[trigger] name[i] <= '\u{7f}'
        && name[i] != '/' by {
        if i < number.len() {
            assert(name[i] == number[i]);
        } else {
            assert(name[i] == ".jpg"@[i - number.len()]);
        }
    }
    assert(is_ascii_chars(name));
    vstd::utf8::is_ascii_chars_encode_utf8(name);
    assert forall|i: int| 0 <= i < encode_utf8(name).len() implies #[trigger] encode_utf8(name)[i]
        != 47 by {
        assert(name[i] as u8 == encode_utf8(name)[i]);
    }
}

/// Whatever a request asks for, the file that is served is one right in the
/// folder of thumbnails.
pub proof fn lemma_thumbnail_stays_inside(dir: Seq<u8>, file: FileId)
    ensures
        ({
            let name = encode_utf8(thumbnail_name(file));
            let path = joined(dir, name);
            &&& components(path) == components(dir).push(component_key(name))
            &&& lies_under(path, dir)
        }),
{
    let name = encode_utf8(thumbnail_name(file));
    lemma_thumbnail_name(file);
    if name == seq![46u8] {
        assert(name.len() == 1);
    }
    crate::path::lemma_join_adds_component(dir, name);
}

/// The thumbnail that is served for an item is the one that was written for it:
/// its number is read back as the item.
pub proof fn lemma_thumbnail_is_found(file: FileId)
    ensures
        requested(seq!['/'] + crate::text::decimal(file as int)) == Some(file),
{
    let number = crate::text::decimal(file as int);
    let path = seq!['/'] + number;
    crate::text::lemma_decimal_reads_back(file as int);
    crate::text::lemma_decimal_characters(file as int);
    assert(path.skip(1) =~= number);
    assert(without_slashes(path) == without_slashes(number));
    assert(number[0] != '/');
}

/// The socket of the sidecar lies in the folder for data.
pub proof fn lemma_socket_stays_inside(data_dir: Seq<u8>)
    ensures
        lies_under(joined(data_dir, encode_utf8(SIDECAR_SOCKET_NAME@)), data_dir),
{
    reveal_strlit("sidecar.sock");
    let name = SIDECAR_SOCKET_NAME@;
    assert(is_ascii_chars(name));
    vstd::utf8::is_ascii_chars_encode_utf8(name);
    let bytes = encode_utf8(name);
    assert forall|i: int| 0 <= i < bytes.len() implies #[trigger] bytes[i] != 47 by {
        assert(name[i] as u8 == bytes[i]);
        assert(name[i] != '/');
    }
    if bytes == seq![46u8] {
        assert(bytes.len() == 1);
    }
    crate::path::lemma_join_adds_component(data_dir, bytes);
}

proof fn lemma_slashes(text: Seq<char>) -> (k: int)
    ensures
        0 <= k <= text.len(),
        without_slashes(text) == text.skip(k),
        forall|i: int| 0 <= i < k ==> #[trigger] text[i] == '/',
        k < text.len() ==> text[k] != '/',
    decreases text.len(),
{
    if text.len() > 0 && text[0] == '/' {
        let rest = text.skip(1);
        let k = lemma_slashes(rest);
        assert(rest.skip(k) =~= text.skip(k + 1));
        assert forall|i: int| 0 <= i < k + 1 implies #[trigger] text[i] == '/' by {
            if i > 0 {
                assert(rest[i - 1] == text[i]);
            }
        }
        if k < rest.len() {
            assert(rest[k] == text[k + 1]);
        }
        k + 1
    } else {
        assert(text.skip(0) =~= text);
        0
    }
}

/// Whether a text is slashes and then a numeral, from `k` on.
pub open spec fn slashes_and_numeral(text: Seq<char>, k: int) -> bool {
    &&& 0 <= k < text.len()
    &&& forall|i: int| 0 <= i < k ==> #[trigger] text[i] == '/'
    &&& forall|i: int|
        k <= i < text.len() ==> '0' <= #[trigger] text[i] <= '9' || (i == k && (text[i] == '-'
            || text[i] == '+'))
}

/// A request names an item only where it is slashes and one numeral, with nothing
/// before, between or after them: no name, no dots and no further slash.
pub proof fn lemma_requested_is_numeral(uri_path: Seq<char>)
    requires
        requested(uri_path) is Some,
    ensures
        exists|k: int| #[trigger] slashes_and_numeral(uri_path, k),
{
    let k = lemma_slashes(uri_path);
    let text = uri_path.skip(k);
    assert(integer_value(text) is Some);
    assert forall|i: int| k <= i < uri_path.len() implies '0' <= #[trigger] uri_path[i] <= '9' || (i
        == k && (uri_path[i] == '-' || uri_path[i] == '+')) by {
        assert(text[i - k] == uri_path[i]);
        if text[0] == '-' || text[0] == '+' {
            if i > k {
                assert(text.skip(1)[i - k - 1] == uri_path[i]);
            }
        }
    }
    assert(slashes_and_numeral(uri_path, k));
}

/// What is served for an item is the file that a committer writes for it: one number,
/// one name, one folder.
pub proof fn lemma_served_is_written(dir: Seq<u8>, file: FileId)
    ensures
        requested(seq!['/'] + crate::text::decimal(file as int)) == Some(file),
        joined(dir, encode_utf8(thumbnail_name(file))) == joined(
            dir,
            encode_utf8(crate::text::decimal(file as int) + ".jpg"@),
        ),
{
    lemma_thumbnail_is_found(file);
}

/// The tiles of a search, said of the hits that the store answered with: the floor is the
/// product of the application's `floor_alpha` and the greatest score, the cap is its
/// `tile_cap`, each tile tells of its item, and each is an image that is its own
/// thumbnail.
pub proof fn lemma_search_tiles<T: Fn(Float32, Float32) -> Float32>(
    app: AppRuntime,
    hits: Seq<ScoredHit>,
    times: T,
    tiles: Seq<Tile>,
)
    requires
        app.tiled(hits, times, tiles),
    ensures
        all_numbers(hits) && hits.len() > 0 ==> exists|top: Float32, floor: Float32| #[trigger]
            greatest(hits, top) && #[trigger] floored(
                hits,
                floor,
                app.config.results.tile_cap as int,
                tiles,
            ) && call_ensures(times, (app.config.results.floor_alpha, top), floor),
        forall|i: int| 0 <= i < tiles.len() ==> tells(#[trigger] tiles[i], hits),
        forall|i: int|
            0 <= i < tiles.len() ==> (#[trigger] tiles[i]).kind == MediaKind::Image
                && tiles[i].thumb_id == tiles[i].file,
        forall|i: int, j: int|
            0 <= i < j < tiles.len() ==> (#[trigger] tiles[i]).file != (#[trigger] tiles[j]).file
                && tiles[j].score.total_rank() <= tiles[i].score.total_rank(),
{
    let all = choose|all: Seq<Tile>| #[trigger]
        collapsed(all, hits) && cut(all, app.config.results, times, tiles);
    lemma_tiles_tell(hits, app.config.results, times, all, tiles);
    if all_numbers(hits) && hits.len() > 0 {
        lemma_floor(hits, app.config.results, times, all, tiles);
    }
}

/// A request that is slashes and a numeral names the item with that number, with a sign
/// before it or not, where the number is one that an item can have; and no item where it
/// is not.
pub proof fn lemma_numeral_is_requested(slashes: Seq<char>, numeral: Seq<char>)
    requires
        forall|i: int| 0 <= i < slashes.len() ==> #[trigger] slashes[i] == '/',
        crate::text::all_digits(numeral),
    ensures
        ({
            let v = crate::text::digits_value(numeral) as int;
            &&& requested(slashes + numeral) == if v <= i64::MAX {
                Some(v as i64)
            } else {
                None
            }
            &&& requested(slashes + (seq!['+'] + numeral)) == if v <= i64::MAX {
                Some(v as i64)
            } else {
                None
            }
            &&& requested(slashes + (seq!['-'] + numeral)) == if -v >= i64::MIN {
                Some((-v) as i64)
            } else {
                None
            }
        }),
{
    assert(crate::text::is_digit(numeral[0]));
    lemma_only_slashes_go(slashes, numeral);
    lemma_only_slashes_go(slashes, seq!['+'] + numeral);
    lemma_only_slashes_go(slashes, seq!['-'] + numeral);
    assert((seq!['+'] + numeral).skip(1) =~= numeral);
    assert((seq!['-'] + numeral).skip(1) =~= numeral);
}

proof fn lemma_only_slashes_go(slashes: Seq<char>, rest: Seq<char>)
    requires
        forall|i: int| 0 <= i < slashes.len() ==> #[trigger] slashes[i] == '/',
        rest.len() > 0,
        rest[0] != '/',
    ensures
        without_slashes(slashes + rest) == rest,
    decreases slashes.len(),
{
    if slashes.len() > 0 {
        assert((slashes + rest)[0] == slashes[0]);
        assert((slashes + rest).skip(1) =~= slashes.skip(1) + rest);
        lemma_only_slashes_go(slashes.skip(1), rest);
    } else {
        assert(slashes + rest =~= rest);
    }
}

}
