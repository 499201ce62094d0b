//! Items, units, embeddings and hits.
//!
//! A *file* on disk becomes an *item*, which is what is indexed and shown as one
//! tile. An item has *units*, each an input that is embedded as one vector: a
//! whole image, or one frame of a video.

use crate::float32::{Float32, Float64};
use crate::path::MediaPath;
use crate::text::{hex, to_hex};
use vstd::prelude::*;

verus! {

/// The row id of an item.
pub type FileId = i64;

/// A BLAKE3 digest, by which a moved file is known again.
#[derive(Clone, Copy, Debug, PartialEq, Eq, Hash)]
pub struct Blake3Hash(pub [u8; 32]);

impl Blake3Hash {
    /// The digest in hexadecimal.
    pub fn to_hex(&self) -> (text: String)
        ensures
            text@ == hex(self.0@),
    {
        to_hex(self.0.as_slice())
    }

    /// Whether two digests are the same.
    pub fn same(&self, other: &Blake3Hash) -> (same: bool)
        ensures
            same == (self.0@ == other.0@),
    {
        crate::text::bytes_eq(self.0.as_slice(), other.0.as_slice())
    }

    /// The digest that stored bytes stand for: the first 32 of them, with zeros
    /// after where there are fewer.
    pub fn from_stored(bytes: &[u8]) -> (hash: Blake3Hash)
        ensures
            hash.0@ == stored_digest(bytes@),
            forall|i: int| 0 <= i < 32 && i < bytes@.len() ==> #[trigger] hash.0@[i] == bytes@[i],
            forall|i: int| bytes@.len() <= i < 32 ==> #[trigger] hash.0@[i] == 0,
    {
        let mut digest: [u8; 32] = [0u8; 32];
        let mut i: usize = 0;
        while i < 32 && i < bytes.len()
            invariant
                i <= 32,
                i <= bytes@.len(),
                digest@.len() == 32,
                forall|k: int|
                    0 <= k < 32 ==> #[trigger] digest@[k] == if k < i {
                        bytes@[k]
                    } else {
                        0u8
                    },
            decreases 32 - i,
        {
            digest[i] = bytes[i];
            i += 1;
        }
        assert(digest@ =~= stored_digest(bytes@));
        Blake3Hash(digest)
    }
}

/// The 32 bytes that stored bytes stand for.
pub open spec fn stored_digest(bytes: Seq<u8>) -> Seq<u8> {
    Seq::new(
        32,
        |i: int|
            if i < bytes.len() {
                bytes[i]
            } else {
                0u8
            },
    )
}

/// A digest that is stored whole is read back as it was.
pub proof fn lemma_stored_digest_reads_back(hash: Blake3Hash)
    ensures
        stored_digest(hash.0@) == hash.0@,
{
    assert(hash.0@.len() == 32);
    assert(stored_digest(hash.0@) =~= hash.0@);
}

/// Whether an item is a still image or a video.
#[derive(Clone, Copy, Debug, PartialEq, Eq, Structural)]
pub enum MediaKind {
    Image,
    Video,
}

/// How far an item has come.
#[derive(Clone, Copy, Debug, PartialEq, Eq, Structural)]
pub enum IndexState {
    /// To be embedded.
    Pending,
    /// Embedded, with a thumbnail and at least one unit.
    Done,
    /// Not embeddable as it is.
    Failed,
    /// Its folder cannot be reached for now.
    Stale,
}

/// A vector of half-precision numbers, each as its bits, that an image or a
/// query text is mapped to.
#[derive(Clone, Debug, PartialEq, Eq)]
pub struct Embedding(pub Vec<u16>);

impl Embedding {
    /// The number of dimensions of the model.
    pub const DIM: usize = 768;

    /// The number of elements.
    pub fn dim(&self) -> (n: usize)
        ensures
            n == self.0@.len(),
    {
        self.0.len()
    }
}

/// One item, as it is stored.
#[derive(Clone, Debug, PartialEq, Eq)]
pub struct FileRecord {
    pub id: FileId,
    pub path: MediaPath,
    pub kind: MediaKind,
    pub size: u64,
    pub mtime: i64,
    pub hash: Option<Blake3Hash>,
    pub state: IndexState,
    pub captured_at: Option<i64>,
    pub width: u32,
    pub height: u32,
    /// Videos only.
    pub duration_s: Option<Float32>,
    pub folder: MediaPath,
    pub gps: Option<(Float64, Float64)>,
}

/// An input that is embedded as one vector: a whole image, or the frame of a
/// video at `frame_ts` seconds.
#[derive(Clone, Debug, PartialEq, Eq)]
pub struct EmbedUnit {
    pub file: FileId,
    pub path: MediaPath,
    pub frame_ts: Option<Float32>,
}

/// A unit with its vector.
#[derive(Clone, Copy, Debug, PartialEq, Eq)]
pub struct EmbeddedUnit<'a> {
    pub file: FileId,
    pub frame_ts: Option<Float32>,
    pub emb: &'a Embedding,
}

/// Conditions on the items that a search looks at.
#[derive(Clone, Debug, Default, PartialEq, Eq)]
pub struct SearchFilters {
    pub kind: Option<MediaKind>,
    pub captured_after: Option<i64>,
    pub captured_before: Option<i64>,
    pub folder: Option<MediaPath>,
}

/// A unit that a search found, with its similarity to the query.
#[derive(Clone, Copy, Debug, PartialEq, Eq, Structural)]
pub struct ScoredHit {
    pub file: FileId,
    pub frame_ts: Option<Float32>,
    pub score: Float32,
}

/// What a click on a tile does.
#[derive(Clone, Copy, Debug, PartialEq, Eq, Structural)]
pub enum OpenAction {
    /// Shows the item in the application.
    InApp,
    /// Hands the item to the system's default application.
    DefaultApp,
}

/// The element type of stored vectors.
#[derive(Clone, Copy, Debug, PartialEq, Eq, Structural)]
pub enum Dtype {
    F16,
    F32,
}

}
