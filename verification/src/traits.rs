//! The three seams: the vector store, the sidecar and the platform. Each has an
//! adapter of its own outside this library.

use crate::error::LumeError;
use crate::path::MediaPath;
use crate::types::{EmbedUnit, EmbeddedUnit, Embedding, FileId, ScoredHit, SearchFilters};
use vstd::prelude::*;

verus! {

/// Vectors, and the search for the nearest of them.
pub trait VectorStore {
    /// Stores a batch of units: all of them, or none.
    fn insert_batch(&self, units: &[EmbeddedUnit<'_>]) -> Result<(), LumeError>;

    /// The `k` units nearest to a query among those that pass the filters, best
    /// first.
    fn knn(&self, query: &Embedding, k: usize, filters: &SearchFilters) -> Result<
        Vec<ScoredHit>,
        LumeError,
    >;

    /// Removes an item with its units.
    fn delete_file(&self, file: FileId) -> Result<(), LumeError>;
}

/// The process that embeds images and texts.
pub trait Sidecar {
    /// Embeds a batch. There is one outcome for each unit, in the order of the
    /// units; a unit that cannot be embedded does not fail the batch.
    fn embed(&self, units: &[EmbedUnit]) -> Result<Vec<EmbedOutcome>, LumeError>;

    /// Embeds one image.
    fn embed_one(&self, image: &[u8]) -> Result<Embedding, LumeError>;

    /// Embeds a query text.
    fn embed_text(&self, query: &str) -> Result<Embedding, LumeError>;
}

/// What came of embedding one unit.
#[derive(Clone, Debug)]
pub enum EmbedOutcome {
    /// A vector, and a thumbnail from the same decoding.
    Embedded { emb: Embedding, thumbnail_jpeg: Vec<u8> },
    Failed { reason: String },
}

/// How hot the machine runs.
#[derive(Clone, Copy, Debug, PartialEq, Eq, Structural)]
pub enum ThermalLevel {
    Nominal,
    Fair,
    Serious,
    Critical,
}

/// A change in a watched folder.
#[derive(Clone, Debug, PartialEq, Eq)]
pub enum FsEvent {
    Created(MediaPath),
    Modified(MediaPath),
    Removed(MediaPath),
}

/// What depends on the operating system.
pub trait Platform {
    /// Whether the machine runs on mains power.
    fn on_ac_power(&self) -> bool;

    /// How hot the machine runs.
    fn thermal_pressure(&self) -> ThermalLevel;

    /// Where the application keeps its data.
    fn data_dir(&self) -> MediaPath;

    /// Watches folders recursively and hands each change to `sink`.
    fn watch<S: Fn(FsEvent) + Send + Sync + 'static>(
        &self,
        roots: &[MediaPath],
        sink: S,
    ) -> Result<(), LumeError>;
}

}
