//! What the tables hold, and what each change does to them.
//!
//! There is a row in `files` for each item and a row in `units` for each of its
//! embedded units, the vector with it. Changes are written as values and carried
//! out by whoever holds the database.

use crate::float32::Float32;
use crate::types::FileId;
use vstd::prelude::*;

verus! {

/// A row of `files`, as far as changes touch it.
#[verifier::ext_equal]
pub struct FileEntry {
    pub path: Seq<char>,
    pub kind: i64,
    pub size: i64,
    pub mtime: i64,
    pub hash: Option<Seq<u8>>,
    pub state: i64,
    pub folder: Seq<char>,
}

/// A row of `units`, with its vector.
#[verifier::ext_equal]
pub struct UnitEntry {
    pub file: int,
    pub frame_ts: Option<Float32>,
    pub vector: Seq<u8>,
}

/// The contents of the database: rows by their ids.
#[verifier::ext_equal]
pub struct Tables {
    pub files: Map<int, FileEntry>,
    pub units: Map<int, UnitEntry>,
}

impl Tables {
    /// Whether no two items have the same path, and every unit has an item.
    pub open spec fn sound(self) -> bool {
        &&& forall|a: int, b: int|
            #![trigger self.files.contains_key(a), self.files.contains_key(b)]
            self.files.contains_key(a) && self.files.contains_key(b) && self.files[a].path
                == self.files[b].path ==> a == b
        &&& forall|u: int| #[trigger]
            self.units.contains_key(u) ==> self.files.contains_key(self.units[u].file)
    }

    /// Whether `id` is the item with a path.
    pub open spec fn at_path(self, path: Seq<char>, id: int) -> bool {
        self.files.contains_key(id) && self.files[id].path == path
    }

    /// Whether an item has the path.
    pub open spec fn has_path(self, path: Seq<char>) -> bool {
        exists|id: int| #[trigger] self.at_path(path, id)
    }

    /// Whether an item has at least one unit.
    pub open spec fn searchable(self, file: int) -> bool {
        exists|u: int| #[trigger] self.units.contains_key(u) && self.units[u].file == file
    }

    /// The tables without some items and their units.
    pub open spec fn without(self, gone: Set<int>) -> Tables {
        Tables {
            files: Map::new(
                |id: int| self.files.contains_key(id) && !gone.contains(id),
                |id: int| self.files[id],
            ),
            units: Map::new(
                |u: int| self.units.contains_key(u) && !gone.contains(self.units[u].file),
                |u: int| self.units[u],
            ),
        }
    }
}

/// A change of the tables.
#[allow(inconsistent_fields)]
pub enum Change {
    /// Adds an item, or gives the item with the path these values. A new item
    /// has no hash, and the hash of a known one stays.
    Upsert {
        path: Seq<char>,
        kind: i64,
        size: i64,
        mtime: i64,
        state: i64,
        folder: Seq<char>,
    },
    /// Adds an item.
    Insert {
        path: Seq<char>,
        kind: i64,
        size: i64,
        mtime: i64,
        hash: Seq<u8>,
        state: i64,
        folder: Seq<char>,
    },
    /// Gives an item other values. Its path stays.
    Replace {
        id: FileId,
        kind: i64,
        size: i64,
        mtime: i64,
        hash: Seq<u8>,
        state: i64,
        folder: Seq<char>,
    },
    /// Gives an item another path and other values. Its state stays.
    Move {
        id: FileId,
        path: Seq<char>,
        kind: i64,
        size: i64,
        mtime: i64,
        hash: Seq<u8>,
        folder: Seq<char>,
    },
    /// Sets the state of an item, and its hash where one is given.
    SetState { id: FileId, state: i64, hash: Option<Seq<u8>> },
    /// Removes the units of an item.
    DeleteUnits { id: FileId },
    /// Removes an item.
    DeleteFile { id: FileId },
    /// Adds a unit to an item.
    InsertUnit { id: FileId, frame_ts: Option<Float32>, vector: Seq<u8> },
    /// Removes everything.
    DeleteAll,
}

/// The tables after a change. A new row gets the id `fresh`.
pub open spec fn after(change: Change, t: Tables, fresh: int) -> Tables {
    match change {
        Change::Upsert { path, kind, size, mtime, state, folder } => {
            let id = if t.has_path(path) {
                choose|id: int| #[trigger] t.at_path(path, id)
            } else {
                fresh
            };
            let hash = if t.has_path(path) {
                t.files[id].hash
            } else {
                None
            };
            Tables {
                files: t.files.insert(
                    id,
                    FileEntry { path, kind, size, mtime, hash, state, folder },
                ),
                units: t.units,
            }
        },
        Change::Insert { path, kind, size, mtime, hash, state, folder } => Tables {
            files: t.files.insert(
                fresh,
                FileEntry { path, kind, size, mtime, hash: Some(hash), state, folder },
            ),
            units: t.units,
        },
        Change::Replace { id, kind, size, mtime, hash, state, folder } => if t.files.contains_key(
            id as int,
        ) {
            Tables {
                files: t.files.insert(
                    id as int,
                    FileEntry {
                        path: t.files[id as int].path,
                        kind,
                        size,
                        mtime,
                        hash: Some(hash),
                        state,
                        folder,
                    },
                ),
                units: t.units,
            }
        } else {
            t
        },
        Change::Move { id, path, kind, size, mtime, hash, folder } => if t.files.contains_key(
            id as int,
        ) {
            Tables {
                files: t.files.insert(
                    id as int,
                    FileEntry {
                        path,
                        kind,
                        size,
                        mtime,
                        hash: Some(hash),
                        state: t.files[id as int].state,
                        folder,
                    },
                ),
                units: t.units,
            }
        } else {
            t
        },
        Change::SetState { id, state, hash } => if t.files.contains_key(id as int) {
            let row = t.files[id as int];
            Tables {
                files: t.files.insert(
                    id as int,
                    FileEntry {
                        state,
                        hash: match hash {
                            Some(h) => Some(h),
                            None => row.hash,
                        },
                        ..row
                    },
                ),
                units: t.units,
            }
        } else {
            t
        },
        Change::DeleteUnits { id } => Tables {
            files: t.files,
            units: Map::new(
                |u: int| t.units.contains_key(u) && t.units[u].file != id,
                |u: int| t.units[u],
            ),
        },
        Change::DeleteFile { id } => Tables { files: t.files.remove(id as int), units: t.units },
        Change::InsertUnit { id, frame_ts, vector } => Tables {
            files: t.files,
            units: t.units.insert(fresh, UnitEntry { file: id as int, frame_ts, vector }),
        },
        Change::DeleteAll => Tables { files: Map::empty(), units: Map::empty() },
    }
}

/// The tables after some changes, one after the other. A row that the `i`-th
/// change adds gets the id `fresh[i]`.
pub open spec fn after_all(changes: Seq<Change>, t: Tables, fresh: Seq<int>) -> Tables
    decreases changes.len(),
{
    if changes.len() == 0 {
        t
    } else {
        after(
            changes.last(),
            after_all(changes.drop_last(), t, fresh),
            fresh[changes.len() - 1],
        )
    }
}

/// A change, ready to be carried out.
#[derive(Clone, Debug, PartialEq, Eq)]
#[allow(inconsistent_fields)]
pub enum StoreOp {
    Upsert { path: String, kind: i64, size: i64, mtime: i64, state: i64, folder: String },
    Insert {
        path: String,
        kind: i64,
        size: i64,
        mtime: i64,
        hash: Vec<u8>,
        state: i64,
        folder: String,
    },
    Replace {
        id: FileId,
        kind: i64,
        size: i64,
        mtime: i64,
        hash: Vec<u8>,
        state: i64,
        folder: String,
    },
    Move {
        id: FileId,
        path: String,
        kind: i64,
        size: i64,
        mtime: i64,
        hash: Vec<u8>,
        folder: String,
    },
    SetState { id: FileId, state: i64, hash: Option<Vec<u8>> },
    DeleteUnits { id: FileId },
    DeleteFile { id: FileId },
    InsertUnit { id: FileId, frame_ts: Option<Float32>, vector: Vec<u8> },
    DeleteAll,
}

impl View for StoreOp {
    type V = Change;

    open spec fn view(&self) -> Change {
        match *self {
            StoreOp::Upsert { path, kind, size, mtime, state, folder } => Change::Upsert {
                path: path@,
                kind,
                size,
                mtime,
                state,
                folder: folder@,
            },
            StoreOp::Insert { path, kind, size, mtime, hash, state, folder } => Change::Insert {
                path: path@,
                kind,
                size,
                mtime,
                hash: hash@,
                state,
                folder: folder@,
            },
            StoreOp::Replace { id, kind, size, mtime, hash, state, folder } => Change::Replace {
                id,
                kind,
                size,
                mtime,
                hash: hash@,
                state,
                folder: folder@,
            },
            StoreOp::Move { id, path, kind, size, mtime, hash, folder } => Change::Move {
                id,
                path: path@,
                kind,
                size,
                mtime,
                hash: hash@,
                folder: folder@,
            },
            StoreOp::SetState { id, state, hash } => Change::SetState {
                id,
                state,
                hash: match hash {
                    Some(h) => Some(h@),
                    None => None,
                },
            },
            StoreOp::DeleteUnits { id } => Change::DeleteUnits { id },
            StoreOp::DeleteFile { id } => Change::DeleteFile { id },
            StoreOp::InsertUnit { id, frame_ts, vector } => Change::InsertUnit {
                id,
                frame_ts,
                vector: vector@,
            },
            StoreOp::DeleteAll => Change::DeleteAll,
        }
    }
}

/// The changes that some operations carry out.
pub open spec fn changes_of(ops: Seq<StoreOp>) -> Seq<Change> {
    Seq::new(ops.len(), |i: int| ops[i]@)
}

}
