//! What the user interface exchanges with the application.

use crate::float32::Float32;
use crate::path::MediaPath;
use crate::rank::Tile;
use crate::runtime::{RunPhase, RunStatus};
use crate::text::{decimal, decimal_i64};
use crate::types::{FileId, MediaKind};
use vstd::prelude::*;
use vstd::utf8::encode_utf8;

verus! {

/// One result, for the user interface.
#[derive(Clone, Debug, PartialEq, Eq)]
pub struct SearchHit {
    pub file_id: i64,
    /// Where the thumbnail is to be had.
    pub thumb_url: String,
    pub kind: HitKind,
    pub score: Float32,
    pub matched_timestamps: Vec<Float32>,
}

/// The kind of a result.
#[derive(Clone, Copy, Debug, PartialEq, Eq, Structural)]
pub enum HitKind {
    Image,
    Video,
}

/// Conditions on the results, from the user interface.
#[derive(Clone, Debug, Default, PartialEq, Eq)]
pub struct SearchFilters {
    pub kind: Option<HitKindFilter>,
    pub captured_after: Option<i64>,
    pub captured_before: Option<i64>,
    pub folder: Option<String>,
}

/// The kind that results must have.
#[derive(Clone, Copy, Debug, PartialEq, Eq, Structural)]
pub enum HitKindFilter {
    Image,
    Video,
}

/// How far indexing has come, for the user interface.
#[derive(Clone, Copy, Debug, PartialEq, Eq, Structural)]
pub struct IndexStatus {
    pub phase: IndexPhase,
    pub done: u64,
    pub total: u64,
}

/// What indexing is at.
#[derive(Clone, Copy, Debug, PartialEq, Eq, Structural)]
pub enum IndexPhase {
    Idle,
    Scanning,
    Indexing,
    Paused,
    Error,
}

/// The kind that a filter asks for.
pub open spec fn kind_asked(kind: HitKindFilter) -> MediaKind {
    match kind {
        HitKindFilter::Image => MediaKind::Image,
        HitKindFilter::Video => MediaKind::Video,
    }
}

/// The filters of a search. No filters let everything pass.
pub fn to_core_filters(filters: &Option<SearchFilters>) -> (core: crate::types::SearchFilters)
    ensures
        filters is None ==> core.kind is None && core.captured_after is None
            && core.captured_before is None && core.folder is None,
        filters matches Some(f) ==> {
            &&& core.kind == match f.kind {
                Some(kind) => Some(kind_asked(kind)),
                None => None,
            }
            &&& f.kind == Some(HitKindFilter::Image) <==> core.kind == Some(MediaKind::Image)
            &&& f.kind == Some(HitKindFilter::Video) <==> core.kind == Some(MediaKind::Video)
            &&& core.captured_after == f.captured_after
            &&& core.captured_before == f.captured_before
            &&& core.folder is Some <==> f.folder is Some
            &&& core.folder matches Some(path) ==> path@ == encode_utf8(f.folder->0@)
        },
{
    match filters {
        Some(f) => crate::types::SearchFilters {
            kind: match f.kind {
                Some(HitKindFilter::Image) => Some(MediaKind::Image),
                Some(HitKindFilter::Video) => Some(MediaKind::Video),
                None => None,
            },
            captured_after: f.captured_after,
            captured_before: f.captured_before,
            folder: match &f.folder {
                Some(text) => Some(MediaPath::from_text(text.as_str())),
                None => None,
            },
        },
        None => crate::types::SearchFilters {
            kind: None,
            captured_after: None,
            captured_before: None,
            folder: None,
        },
    }
}

/// The address of a thumbnail.
pub open spec fn thumbnail_url(thumb_id: FileId) -> Seq<char> {
    "lume://thumb/"@ + decimal(thumb_id as int)
}

/// A tile, for the user interface.
pub fn to_search_hit(tile: &Tile) -> (hit: SearchHit)
    ensures
        hit.file_id == tile.file,
        hit.thumb_url@ == thumbnail_url(tile.thumb_id),
        hit.thumb_url@ == "lume://thumb/"@ + decimal(tile.thumb_id as int),
        hit.kind == match tile.kind {
            MediaKind::Image => HitKind::Image,
            MediaKind::Video => HitKind::Video,
        },
        hit.score == tile.score,
        hit.matched_timestamps@ == tile.matched_timestamps@,
{
    let mut thumb_url: String = "lume://thumb/".to_string();
    thumb_url.append(decimal_i64(tile.thumb_id).as_str());
    SearchHit {
        file_id: tile.file,
        thumb_url,
        kind: match tile.kind {
            MediaKind::Image => HitKind::Image,
            MediaKind::Video => HitKind::Video,
        },
        score: tile.score,
        matched_timestamps: vstd::slice::slice_to_vec(tile.matched_timestamps.as_slice()),
    }
}

/// How far a run has come, for the user interface.
pub fn index_status(status: RunStatus) -> (shown: IndexStatus)
    ensures
        shown.phase == match status.phase {
            RunPhase::Idle => IndexPhase::Idle,
            RunPhase::Scanning => IndexPhase::Scanning,
            RunPhase::Indexing => IndexPhase::Indexing,
        },
        shown.done == status.done,
        shown.total == status.total,
{
    IndexStatus {
        phase: match status.phase {
            RunPhase::Idle => IndexPhase::Idle,
            RunPhase::Scanning => IndexPhase::Scanning,
            RunPhase::Indexing => IndexPhase::Indexing,
        },
        done: status.done,
        total: status.total,
    }
}

}
