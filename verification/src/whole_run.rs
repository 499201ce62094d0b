//! What a whole run amounts to: after it the tables show what is on the disk.
//!
//! The files of the folder are a map from their paths to what looking at them
//! finds. It is taken not to change while a run is under way. What the walk, the
//! sidecar, the disk and the database answer is left open in every other way.

use crate::commit_laws::{
    carried_on, commits, failed, in_batch, lemma_batch_is_committed, whole,
};
use crate::error::LumeError;
use crate::indexer::{
    dealt_with, moves, saw, stored_time, FileFacts, Indexer, RunAction, RunReport, RunStage,
};
use crate::path::{components, lies_under, MediaPath, PathSet};
use crate::run_laws::{
    finished, lemma_preparation, lemma_settled_item, preparation, untouched, waits,
};
use crate::store::{missing, removals, state_of, KnownFile, Prepared, ScannedItem};
use crate::store_laws::{current, lemma_missing_items_go, missing_items, rows_in};
use crate::tables::{after_all, Tables};
use crate::text::lossy_text;
use crate::traits::EmbedOutcome;
use crate::types::{Blake3Hash, FileId, IndexState, MediaKind};
use crate::walk::{found, item_among, items_among, lemma_items_among};
use vstd::prelude::*;
use vstd::utf8::encode_utf8;

verus! {

// ---------------------------------------------------------------------------
// The disk and the tables
// ---------------------------------------------------------------------------

/// Whether the path of every item is read back from the store as it was written,
/// as UTF-8 is.
pub open spec fn readable(disk: Map<Seq<u8>, FileFacts>) -> bool {
    forall|path: Seq<u8>| #[trigger]
        item_among(disk.dom(), path) ==> encode_utf8(lossy_text(path)) == path
}

/// Whether a stored path leads to an item on the disk, however it is spelled.
pub open spec fn leads_to_item(disk: Map<Seq<u8>, FileFacts>, text: Seq<char>) -> bool {
    exists|path: Seq<u8>| #[trigger]
        item_among(disk.dom(), path) && components(encode_utf8(text)) == components(path)
}

/// Whether a stored path is that of an item on the disk, spelled as the walk
/// spells it.
pub open spec fn on_disk(disk: Map<Seq<u8>, FileFacts>, text: Seq<char>) -> bool {
    exists|path: Seq<u8>| #[trigger] item_among(disk.dom(), path) && text == lossy_text(path)
}

/// Whether every stored path that leads to an item on the disk is spelled as the
/// walk spells it.
pub open spec fn spelled(disk: Map<Seq<u8>, FileFacts>, t: Tables) -> bool {
    forall|id: int| #[trigger]
        t.files.contains_key(id) && leads_to_item(disk, t.files[id].path) ==> on_disk(
            disk,
            t.files[id].path,
        )
}

/// Whether an item is what the walk found at a path.
pub open spec fn scanned(
    disk: Map<Seq<u8>, FileFacts>,
    path: Seq<u8>,
    item: ScannedItem,
) -> bool {
    &&& item.path@ == path
    &&& item.kind == MediaKind::Image
    &&& item.size == disk[path].size
    &&& item.mtime == stored_time(disk[path].modified)
    &&& item.hash == disk[path].hash
}

/// Whether a row has the path of a file, and nothing that speaks against it.
pub open spec fn shows(
    disk: Map<Seq<u8>, FileFacts>,
    t: Tables,
    path: Seq<u8>,
    id: int,
) -> bool {
    &&& t.at_path(lossy_text(path), id)
    &&& current(
        t.files[id],
        disk[path].size,
        stored_time(disk[path].modified),
        disk[path].hash.0@,
    )
}

/// Whether a row shows a file, and is finished.
pub open spec fn shows_finished(
    disk: Map<Seq<u8>, FileFacts>,
    t: Tables,
    path: Seq<u8>,
    id: int,
) -> bool {
    shows(disk, t, path, id) && state_of(t.files[id].state) != IndexState::Pending
}

/// Whether a file has a row, and the row is finished.
pub open spec fn is_shown(disk: Map<Seq<u8>, FileFacts>, t: Tables, path: Seq<u8>) -> bool {
    exists|id: int| #[trigger] shows_finished(disk, t, path, id)
}

/// Whether the tables show what is on the disk: every item on the disk has a row
/// of its own, which is finished, and every row under the folder leads to an item
/// on the disk. What is not on the disk has no row, and so no unit.
pub open spec fn settled(disk: Map<Seq<u8>, FileFacts>, root: Seq<u8>, t: Tables) -> bool {
    &&& t.sound()
    &&& forall|id: int| #[trigger]
        t.files.contains_key(id) && lies_under(encode_utf8(t.files[id].path), root)
            ==> leads_to_item(disk, t.files[id].path)
    &&& forall|path: Seq<u8>| #[trigger]
        item_among(disk.dom(), path) ==> is_shown(disk, t, path)
}

/// Whether the rows under the folder are those of the items on the disk, one for
/// each, and none is pending.
pub open spec fn row_for_row(disk: Map<Seq<u8>, FileFacts>, root: Seq<u8>, t: Tables) -> bool {
    &&& settled(disk, root, t)
    &&& forall|id: int| #[trigger]
        t.files.contains_key(id) && lies_under(encode_utf8(t.files[id].path), root) ==> exists|
            path: Seq<u8>,
        | #[trigger] item_among(disk.dom(), path) && shows_finished(disk, t, path, id)
}

/// Whether an item of the disk that was embedded is done, with its hash, its
/// thumbnail and a unit to be found by, or failed.
pub open spec fn came_through(
    disk: Map<Seq<u8>, FileFacts>,
    t: Tables,
    th: Set<FileId>,
    file: FileId,
    path: Seq<u8>,
) -> bool {
    &&& item_among(disk.dom(), path)
    &&& t.at_path(lossy_text(path), file as int)
    &&& whole(t, th, file, disk[path].hash) || failed(t, file)
}

/// Whether all items that were embedded are done with all that belongs to them,
/// or failed.
pub open spec fn all_came_through(
    disk: Map<Seq<u8>, FileFacts>,
    t: Tables,
    th: Set<FileId>,
    made: Set<FileId>,
) -> bool {
    forall|file: FileId| #[trigger]
        made.contains(file) ==> exists|path: Seq<u8>| #[trigger]
            came_through(disk, t, th, file, path)
}

// ---------------------------------------------------------------------------
// What is done for a run
// ---------------------------------------------------------------------------

/// Whether preparing an item turns `t` into `t2` with an answer.
pub open spec fn prepared_as(
    t: Tables,
    item: ScannedItem,
    seen: Set<Seq<Seq<u8>>>,
    fresh: int,
    t2: Tables,
    id: Option<FileId>,
) -> bool {
    &&& !t.files.contains_key(fresh)
    &&& exists|known: Option<KnownFile>, how: Prepared, matches: Seq<(FileId, String)>| #[trigger]
        preparation(t, item, seen, fresh, t2, row_id(id), known, how, matches)
}

/// The id of a row.
pub open spec fn row_id(id: Option<FileId>) -> Option<int> {
    match id {
        Some(file) => Some(file as int),
        None => None,
    }
}

/// Whether what a run waits for was done as the report says, and turned the
/// tables and the thumbnails into `t2` and `th2`. Of what failed nothing is said.
pub open spec fn carried_out(
    disk: Map<Seq<u8>, FileFacts>,
    x: Indexer,
    report: RunReport,
    t: Tables,
    th: Set<FileId>,
    t2: Tables,
    th2: Set<FileId>,
) -> bool {
    match (x.stage, report) {
        (RunStage::Creating, RunReport::Done(Ok(_))) => t2 == t && th2 == th,
        (RunStage::Walking, RunReport::Walked(entries)) => {
            &&& t2 == t
            &&& th2 == th
            &&& found(entries@, disk.dom())
        },
        (RunStage::Inspecting, RunReport::Inspected(Ok(facts))) => {
            &&& t2 == t
            &&& th2 == th
            &&& facts == disk[x.items@[x.at as int]@]
        },
        (RunStage::Preparing(_), RunReport::Prepared(Ok(id))) => {
            &&& th2 == th
            &&& exists|item: ScannedItem, fresh: int|
                scanned(disk, x.items@[x.at as int]@, item) && #[trigger] prepared_as(
                    t,
                    item,
                    x.seen@,
                    fresh,
                    t2,
                    id,
                )
        },
        (RunStage::Embedding, RunReport::Embedded(Ok(outcomes))) => {
            &&& t2 == t
            &&& th2 == th
            &&& outcomes@.len() == x.units@.len()
        },
        (RunStage::Committing, RunReport::Done(Ok(_))) => exists|outcomes: Seq<EmbedOutcome>|
            outcomes.len() == x.file_ids@.len() && #[trigger] commits(
                x.thumbnails_dir@,
                x.file_ids@,
                x.hashes@,
                outcomes,
                t,
                th,
                t2,
                th2,
            ),
        (RunStage::Removing, RunReport::Done(Ok(_))) => {
            &&& th2 == th
            &&& exists|rows: Seq<(FileId, String)>, fresh: Seq<int>|
                rows_in(t, rows) && t2 == #[trigger] after_all(
                    removals(rows, x.root@, x.seen@),
                    t,
                    fresh,
                )
        },
        _ => true,
    }
}

/// Whether a report is one of a failure.
pub open spec fn is_failure(report: RunReport) -> bool {
    match report {
        RunReport::Done(result) => result is Err,
        RunReport::Walked(_) => false,
        RunReport::Inspected(result) => result is Err,
        RunReport::Prepared(result) => result is Err,
        RunReport::Embedded(result) => result is Err,
    }
}

/// The items that a run has embedded, with those that a report adds.
pub open spec fn made_with(x: Indexer, report: RunReport, made: Set<FileId>) -> Set<FileId> {
    match (x.stage, report) {
        (RunStage::Embedding, RunReport::Embedded(Ok(_))) => made.union(x.file_ids@.to_set()),
        _ => made,
    }
}

// ---------------------------------------------------------------------------
// What holds on the way
// ---------------------------------------------------------------------------

/// Whether the `k`-th id of a batch is that of the `i`-th item, which waits to be
/// embedded.
pub open spec fn in_work(
    disk: Map<Seq<u8>, FileFacts>,
    items: Seq<MediaPath>,
    ids: Seq<FileId>,
    hashes: Seq<Blake3Hash>,
    t: Tables,
    k: int,
    i: int,
) -> bool {
    &&& 0 <= k < ids.len()
    &&& shows(disk, t, items[i]@, ids[k] as int)
    &&& state_of(t.files[ids[k] as int].state) == IndexState::Pending
    &&& hashes[k] == disk[items[i]@].hash
}

/// Whether an item is finished, or is one of a batch.
pub open spec fn dealt(
    disk: Map<Seq<u8>, FileFacts>,
    items: Seq<MediaPath>,
    ids: Seq<FileId>,
    hashes: Seq<Blake3Hash>,
    t: Tables,
    i: int,
) -> bool {
    is_shown(disk, t, items[i]@) || exists|k: int| #[trigger]
        in_work(disk, items, ids, hashes, t, k, i)
}

/// Whether an item that was embedded is the `i`-th one, and has come through or
/// is about to.
pub open spec fn made_item(
    disk: Map<Seq<u8>, FileFacts>,
    items: Seq<MediaPath>,
    ids: Seq<FileId>,
    committing: bool,
    t: Tables,
    th: Set<FileId>,
    file: FileId,
    i: int,
) -> bool {
    &&& t.at_path(lossy_text(items[i]@), file as int)
    &&& (committing && ids.contains(file)) || whole(t, th, file, disk[items[i]@].hash) || failed(
        t,
        file,
    )
}

/// Whether the `k`-th id of a batch is that of one of the first `n` items.
pub open spec fn belongs(
    disk: Map<Seq<u8>, FileFacts>,
    items: Seq<MediaPath>,
    ids: Seq<FileId>,
    hashes: Seq<Blake3Hash>,
    n: int,
    t: Tables,
    k: int,
) -> bool {
    exists|i: int| 0 <= i < n && #[trigger] in_work(disk, items, ids, hashes, t, k, i)
}

/// What holds of the first `n` items when they are prepared: each is finished or
/// in the batch at hand.
pub open spec fn abreast(
    disk: Map<Seq<u8>, FileFacts>,
    items: Seq<MediaPath>,
    ids: Seq<FileId>,
    hashes: Seq<Blake3Hash>,
    n: int,
    committing: bool,
    t: Tables,
    th: Set<FileId>,
    made: Set<FileId>,
) -> bool {
    &&& ids.len() == hashes.len()
    &&& ids.no_duplicates()
    &&& forall|i: int|
        0 <= i < n ==> #[trigger] dealt(disk, items, ids, hashes, t, i)
    &&& forall|k: int|
        0 <= k < ids.len() ==> #[trigger] belongs(disk, items, ids, hashes, n, t, k)
    &&& forall|file: FileId| #[trigger]
        made.contains(file) ==> exists|i: int|
            0 <= i < n && #[trigger] made_item(disk, items, ids, committing, t, th, file, i)
}

/// Whether each unit of a batch is the file of its item: the path that is embedded is
/// the path of the row whose id the unit has.
pub open spec fn units_are_of_items(x: Indexer, t: Tables) -> bool {
    &&& x.units@.len() == x.file_ids@.len()
    &&& forall|k: int|
        0 <= k < x.units@.len() ==> (#[trigger] x.units@[k]).file == x.file_ids@[k] && t.at_path(
            lossy_text(x.units@[k].path@),
            x.file_ids@[k] as int,
        )
}

/// What holds in every step of a run.
pub open spec fn run_course(
    disk: Map<Seq<u8>, FileFacts>,
    x: Indexer,
    t: Tables,
    th: Set<FileId>,
    made: Set<FileId>,
) -> bool {
    &&& t.sound()
    &&& readable(disk)
    &&& match x.stage {
        RunStage::Idle | RunStage::Creating | RunStage::Walking => made == Set::<FileId>::empty(),
        _ => {
            &&& items_among(disk.dom(), x.items@)
            &&& saw(x.seen, x.items@)
            &&& x.stage matches RunStage::Preparing(hash) ==> hash
                == disk[x.items@[x.at as int]@].hash
            &&& x.stage is Removing ==> x.file_ids@.len() == 0
            &&& units_are_of_items(x, t)
            &&& abreast(
                disk,
                x.items@,
                x.file_ids@,
                x.hashes@,
                dealt_with(x),
                x.stage is Committing,
                t,
                th,
                made,
            )
        },
    }
}

// ---------------------------------------------------------------------------
// Steps
// ---------------------------------------------------------------------------

proof fn lemma_texts_differ(
    disk: Map<Seq<u8>, FileFacts>,
    items: Seq<MediaPath>,
    i: int,
    j: int,
)
    requires
        readable(disk),
        items_among(disk.dom(), items),
        0 <= i < items.len(),
        0 <= j < items.len(),
        i != j,
    ensures
        lossy_text(items[i]@) != lossy_text(items[j]@),
{
    assert(item_among(disk.dom(), items[i]@));
    assert(item_among(disk.dom(), items[j]@));
    if i < j {
        assert(items[i]@ != items[j]@);
    } else {
        assert(items[j]@ != items[i]@);
    }
}

proof fn lemma_item_is_seen(
    disk: Map<Seq<u8>, FileFacts>,
    seen: PathSet,
    items: Seq<MediaPath>,
    i: int,
)
    requires
        readable(disk),
        items_among(disk.dom(), items),
        saw(seen, items),
        0 <= i < items.len(),
    ensures
        encode_utf8(lossy_text(items[i]@)) == items[i]@,
        seen@.contains(components(items[i]@)),
{
    assert(item_among(disk.dom(), items[i]@));
    assert(components(items[i]@) == components(items[i]@));
}

proof fn lemma_untouched_item(
    disk: Map<Seq<u8>, FileFacts>,
    items: Seq<MediaPath>,
    ids: Seq<FileId>,
    committing: bool,
    t: Tables,
    th: Set<FileId>,
    t2: Tables,
    th2: Set<FileId>,
    file: FileId,
    i: int,
)
    requires
        made_item(disk, items, ids, committing, t, th, file, i),
        untouched(t, t2, file as int),
        th.contains(file) ==> th2.contains(file),
    ensures
        t2.at_path(lossy_text(items[i]@), file as int),
        whole(t, th, file, disk[items[i]@].hash) ==> whole(t2, th2, file, disk[items[i]@].hash),
        failed(t, file) ==> failed(t2, file),
{
    if whole(t, th, file, disk[items[i]@].hash) {
        let u = choose|u: int| #[trigger]
            t.units.contains_key(u) && t.units[u].file == file as int;
        assert(t2.units.contains_key(u));
    }
}

/// Preparing the next item keeps all items before it as they are.
proof fn lemma_item_prepared(
    disk: Map<Seq<u8>, FileFacts>,
    seen: PathSet,
    items: Seq<MediaPath>,
    ids: Seq<FileId>,
    hashes: Seq<Blake3Hash>,
    n: int,
    t: Tables,
    th: Set<FileId>,
    made: Set<FileId>,
    item: ScannedItem,
    fresh: int,
    t2: Tables,
    id: Option<FileId>,
    ids2: Seq<FileId>,
    hashes2: Seq<Blake3Hash>,
)
    requires
        t.sound(),
        readable(disk),
        items_among(disk.dom(), items),
        saw(seen, items),
        abreast(disk, items, ids, hashes, n, false, t, th, made),
        0 <= n < items.len(),
        scanned(disk, items[n]@, item),
        prepared_as(t, item, seen@, fresh, t2, id),
        match id {
            Some(file) => ids2 == ids.push(file) && hashes2 == hashes.push(item.hash),
            None => ids2 == ids && hashes2 == hashes,
        },
    ensures
        t2.sound(),
        spelled(disk, t) ==> spelled(disk, t2),
        abreast(disk, items, ids2, hashes2, n + 1, false, t2, th, made),
        forall|k: int|
            0 <= k < ids.len() ==> t2.files.contains_key((#[trigger] ids[k]) as int)
                && t2.files[ids[k] as int].path == t.files[ids[k] as int].path,
        id matches Some(file) ==> t2.at_path(lossy_text(items[n]@), file as int),
{
    let (known, how, matches) = choose|
        known: Option<KnownFile>,
        how: Prepared,
        matches: Seq<(FileId, String)>,
    | #[trigger]
        preparation(t, item, seen@, fresh, t2, row_id(id), known, how, matches);
    lemma_preparation(t, item, seen@, fresh, t2, row_id(id), known, how, matches);
    let path = items[n]@;
    assert(item.path_text() == lossy_text(path));
    lemma_item_is_seen(disk, seen, items, n);
    assert forall|i: int, row: int| 0 <= i < n && #[trigger] t.at_path(
        lossy_text(items[i]@),
        row,
    ) implies untouched(t, t2, row) by {
        lemma_item_is_seen(disk, seen, items, i);
        lemma_texts_differ(disk, items, i, n);
        assert(t.files.contains_key(row));
    }
    assert forall|k: int, i: int| 0 <= i < n && #[trigger] in_work(
        disk,
        items,
        ids,
        hashes,
        t,
        k,
        i,
    ) implies in_work(disk, items, ids2, hashes2, t2, k, i) by {
        assert(t.at_path(lossy_text(items[i]@), ids[k] as int));
        assert(ids2[k] == ids[k]);
        assert(hashes2[k] == hashes[k]);
    }
    if let Some(file) = id {
        assert(waits(t2, item.path_text(), file as int));
        assert(in_work(disk, items, ids2, hashes2, t2, ids.len() as int, n));
    }
    assert forall|i: int| 0 <= i < n + 1 implies #[trigger] dealt(
        disk,
        items,
        ids2,
        hashes2,
        t2,
        i,
    ) by {
        if i < n {
            assert(dealt(disk, items, ids, hashes, t, i));
            if is_shown(disk, t, items[i]@) {
                let row = choose|row: int| #[trigger] shows_finished(disk, t, items[i]@, row);
                assert(t.at_path(lossy_text(items[i]@), row));
                assert(shows_finished(disk, t2, items[i]@, row));
            } else {
                let k = choose|k: int| #[trigger] in_work(disk, items, ids, hashes, t, k, i);
                assert(in_work(disk, items, ids2, hashes2, t2, k, i));
            }
        } else if id is None {
            let row = choose|row: int| #[trigger] finished(t2, item, row);
            assert(shows_finished(disk, t2, path, row));
        }
    }
    assert forall|k: int| 0 <= k < ids2.len() implies #[trigger] belongs(
        disk,
        items,
        ids2,
        hashes2,
        n + 1,
        t2,
        k,
    ) by {
        if k < ids.len() {
            assert(belongs(disk, items, ids, hashes, n, t, k));
            let i = choose|i: int|
                0 <= i < n && #[trigger] in_work(disk, items, ids, hashes, t, k, i);
            assert(in_work(disk, items, ids2, hashes2, t2, k, i));
        } else {
            assert(in_work(disk, items, ids2, hashes2, t2, k, n));
        }
    }
    assert forall|k: int| 0 <= k < ids.len() implies t2.files.contains_key(
        (#[trigger] ids[k]) as int,
    ) && t2.files[ids[k] as int].path == t.files[ids[k] as int].path by {
        assert(belongs(disk, items, ids, hashes, n, t, k));
        let i = choose|i: int| 0 <= i < n && #[trigger] in_work(disk, items, ids, hashes, t, k, i);
        assert(t.at_path(lossy_text(items[i]@), ids[k] as int));
        assert(untouched(t, t2, ids[k] as int));
    }
    assert(ids2.no_duplicates()) by {
        if let Some(file) = id {
            assert forall|k: int| 0 <= k < ids.len() implies ids[k] != file by {
                assert(belongs(disk, items, ids, hashes, n, t, k));
                let i = choose|i: int|
                    0 <= i < n && #[trigger] in_work(disk, items, ids, hashes, t, k, i);
                assert(in_work(disk, items, ids2, hashes2, t2, k, i));
                lemma_texts_differ(disk, items, i, n);
            }
        }
    }
    assert forall|file: FileId| #[trigger] made.contains(file) implies exists|i: int|
        0 <= i < n + 1 && #[trigger] made_item(disk, items, ids2, false, t2, th, file, i) by {
        let i = choose|i: int|
            0 <= i < n && #[trigger] made_item(disk, items, ids, false, t, th, file, i);
        assert(t.at_path(lossy_text(items[i]@), file as int));
        lemma_untouched_item(disk, items, ids, false, t, th, t2, th, file, i);
        assert(made_item(disk, items, ids2, false, t2, th, file, i));
    }
    assert forall|row: int| #[trigger]
        t2.files.contains_key(row) && leads_to_item(disk, t2.files[row].path) && spelled(
            disk,
            t,
        ) implies on_disk(disk, t2.files[row].path) by {
        if t2.files[row].path == item.path_text() {
            assert(item_among(disk.dom(), path));
        } else {
            assert(t.files.contains_key(row));
        }
    }
}

/// Committing a batch finishes its items and keeps all others as they are.
proof fn lemma_batch_committed(
    disk: Map<Seq<u8>, FileFacts>,
    items: Seq<MediaPath>,
    dir: Seq<u8>,
    ids: Seq<FileId>,
    hashes: Seq<Blake3Hash>,
    outcomes: Seq<EmbedOutcome>,
    n: int,
    t: Tables,
    th: Set<FileId>,
    made: Set<FileId>,
    t2: Tables,
    th2: Set<FileId>,
)
    requires
        t.sound(),
        readable(disk),
        items_among(disk.dom(), items),
        abreast(disk, items, ids, hashes, n, true, t, th, made),
        0 <= n <= items.len(),
        outcomes.len() == ids.len(),
        commits(dir, ids, hashes, outcomes, t, th, t2, th2),
    ensures
        t2.sound(),
        spelled(disk, t) ==> spelled(disk, t2),
        abreast(disk, items, Seq::empty(), Seq::empty(), n, false, t2, th2, made),
{
    let batch = Set::new(|file: FileId| ids.contains(file));
    let hash_of = Map::new(|file: FileId| true, |file: FileId| hashes[ids.index_of(file)]);
    assert forall|k: int| 0 <= k < ids.len() implies hash_of[#[trigger] ids[k]] == hashes[k] by {
        assert(ids.contains(ids[k]));
        assert(ids.index_of(ids[k]) == k);
    }
    assert forall|file: FileId| #[trigger] batch.contains(file) implies t.files.contains_key(
        file as int,
    ) && state_of(t.files[file as int].state) == IndexState::Pending by {
        let k = ids.index_of(file);
        assert(belongs(disk, items, ids, hashes, n, t, k));
        let i = choose|i: int| 0 <= i < n && #[trigger] in_work(disk, items, ids, hashes, t, k, i);
        assert(in_work(disk, items, ids, hashes, t, k, i));
    }
    lemma_batch_is_committed(dir, ids, hashes, outcomes, t, th, t2, th2, batch, hash_of);
    let none = Seq::<FileId>::empty();
    let no_hash = Seq::<Blake3Hash>::empty();
    assert forall|k: int, i: int| 0 <= i < n && #[trigger] in_work(
        disk,
        items,
        ids,
        hashes,
        t,
        k,
        i,
    ) implies shows_finished(disk, t2, items[i]@, ids[k] as int) && made_item(
        disk,
        items,
        none,
        false,
        t2,
        th2,
        ids[k],
        i,
    ) by {
        let file = ids[k];
        assert(ids.contains(file));
        assert(batch.contains(file));
        assert(hash_of[ids[k]] == hashes[k]);
        assert(t2.files.dom().contains(file as int));
        assert(carried_on(t.files[file as int], t2.files[file as int], hash_of[file]));
        crate::types::lemma_stored_digest_reads_back(hash_of[file]);
        assert(whole(t2, th2, file, hash_of[file]) || failed(t2, file));
    }
    assert forall|i: int| 0 <= i < n implies #[trigger] dealt(
        disk,
        items,
        none,
        no_hash,
        t2,
        i,
    ) by {
        assert(dealt(disk, items, ids, hashes, t, i));
        if is_shown(disk, t, items[i]@) {
            let row = choose|row: int| #[trigger] shows_finished(disk, t, items[i]@, row);
            assert(t.files.contains_key(row));
            assert(!in_batch(batch, row));
            assert(untouched(t, t2, row));
            assert(shows_finished(disk, t2, items[i]@, row));
        } else {
            let k = choose|k: int| #[trigger] in_work(disk, items, ids, hashes, t, k, i);
            assert(shows_finished(disk, t2, items[i]@, ids[k] as int));
        }
    }
    assert forall|file: FileId| #[trigger] made.contains(file) implies exists|i: int|
        0 <= i < n && #[trigger] made_item(disk, items, none, false, t2, th2, file, i) by {
        let i = choose|i: int|
            0 <= i < n && #[trigger] made_item(disk, items, ids, true, t, th, file, i);
        if ids.contains(file) {
            let k = ids.index_of(file);
            assert(belongs(disk, items, ids, hashes, n, t, k));
            let j = choose|j: int|
                0 <= j < n && #[trigger] in_work(disk, items, ids, hashes, t, k, j);
            assert(in_work(disk, items, ids, hashes, t, k, j));
            assert(made_item(disk, items, none, false, t2, th2, file, j));
        } else {
            assert(t.files.contains_key(file as int));
            assert(!in_batch(batch, file as int));
            lemma_untouched_item(disk, items, ids, true, t, th, t2, th2, file, i);
            assert(made_item(disk, items, none, false, t2, th2, file, i));
        }
    }
    assert forall|row: int| #[trigger]
        t2.files.contains_key(row) && leads_to_item(disk, t2.files[row].path) && spelled(
            disk,
            t,
        ) implies on_disk(disk, t2.files[row].path) by {
        assert(t.files.dom().contains(row));
        assert(t.files.contains_key(row));
        if in_batch(batch, row) {
            assert(batch.contains(row as FileId));
            assert(carried_on(t.files[row], t2.files[row], hash_of[row as FileId]));
        } else {
            assert(untouched(t, t2, row));
        }
    }
}

/// Removing what is missing leaves the tables showing what is on the disk.
proof fn lemma_missing_removed(
    disk: Map<Seq<u8>, FileFacts>,
    root: Seq<u8>,
    seen: PathSet,
    items: Seq<MediaPath>,
    t: Tables,
    th: Set<FileId>,
    made: Set<FileId>,
    rows: Seq<(FileId, String)>,
    fresh: Seq<int>,
)
    requires
        t.sound(),
        readable(disk),
        items_among(disk.dom(), items),
        saw(seen, items),
        abreast(
            disk,
            items,
            Seq::empty(),
            Seq::empty(),
            items.len() as int,
            false,
            t,
            th,
            made,
        ),
        rows_in(t, rows),
    ensures
        settled(disk, root, after_all(removals(rows, root, seen@), t, fresh)),
        all_came_through(disk, after_all(removals(rows, root, seen@), t, fresh), th, made),
        spelled(disk, t) ==> spelled(disk, after_all(removals(rows, root, seen@), t, fresh)),
{
    let gone = missing_items(t, root, seen@);
    let now = t.without(gone);
    lemma_missing_items_go(t, rows, root, seen@, fresh);
    assert forall|id: int| #[trigger]
        now.files.contains_key(id) && leads_to_item(disk, now.files[id].path) && spelled(
            disk,
            t,
        ) implies on_disk(disk, now.files[id].path) by {
        assert(t.files.contains_key(id));
    }
    assert forall|i: int, row: int| 0 <= i < items.len() && #[trigger] t.at_path(
        lossy_text(items[i]@),
        row,
    ) implies untouched(t, now, row) by {
        lemma_item_is_seen(disk, seen, items, i);
        assert(!gone.contains(row));
    }
    assert forall|id: int| #[trigger] now.files.contains_key(id) && lies_under(
        encode_utf8(now.files[id].path),
        root,
    ) implies leads_to_item(disk, now.files[id].path) by {
        assert(t.files.contains_key(id));
        assert(!missing(t.files[id].path, root, seen@));
        let key = components(encode_utf8(t.files[id].path));
        assert(seen@.contains(key));
        let i = choose|i: int| 0 <= i < items.len() && #[trigger] components(items[i]@) == key;
        assert(item_among(disk.dom(), items[i]@));
    }
    assert forall|path: Seq<u8>| #[trigger] item_among(disk.dom(), path) implies is_shown(
        disk,
        now,
        path,
    ) by {
        let i = choose|i: int| 0 <= i < items.len() && (#[trigger] items[i])@ == path;
        assert(dealt(disk, items, Seq::empty(), Seq::empty(), t, i));
        let row = choose|row: int| #[trigger] shows_finished(disk, t, items[i]@, row);
        assert(t.at_path(lossy_text(items[i]@), row));
        assert(shows_finished(disk, now, path, row));
    }
    assert forall|file: FileId| #[trigger] made.contains(file) implies exists|path: Seq<u8>|
        #[trigger]
        came_through(disk, now, th, file, path) by {
        let i = choose|i: int|
            0 <= i < items.len() && #[trigger] made_item(
                disk,
                items,
                Seq::empty(),
                false,
                t,
                th,
                file,
                i,
            );
        assert(t.at_path(lossy_text(items[i]@), file as int));
        lemma_untouched_item(disk, items, Seq::empty(), false, t, th, now, th, file, i);
        assert(item_among(disk.dom(), items[i]@));
        assert(came_through(disk, now, th, file, items[i]@));
    }
}

/// The law of a whole run. Whatever the sidecar, the disk and the database answer
/// on the way: a run that ends without an error leaves in the tables a finished
/// row for each item on the disk, and under the folder no row that leads
/// elsewhere. Each item that it embedded is done, with its hash, its thumbnail and
/// a unit to be found by, or failed. No step spells a path otherwise than the walk
/// does.
///
/// The walk finds each file once, the sidecar answers once for each unit, the
/// files do not change meanwhile, and the paths of items are read back as they
/// were written.
pub proof fn lemma_run_step(
    disk: Map<Seq<u8>, FileFacts>,
    x: Indexer,
    t: Tables,
    th: Set<FileId>,
    made: Set<FileId>,
    report: RunReport,
    next: Indexer,
    action: RunAction,
    t2: Tables,
    th2: Set<FileId>,
)
    requires
        x.consistent(),
        x.expects(report),
        moves(x, report, next, action),
        next.consistent(),
        run_course(disk, x, t, th, made),
        carried_out(disk, x, report, t, th, t2, th2),
    ensures
        !(action is Finished) ==> run_course(disk, next, t2, th2, made_with(x, report, made)),
        action == RunAction::Finished(Ok(())) ==> settled(disk, next.root@, t2)
            && all_came_through(disk, t2, th2, made),
        !is_failure(report) && spelled(disk, t) ==> spelled(disk, t2),
{
    let items = x.items@;
    match (x.stage, report) {
        (RunStage::Walking, RunReport::Walked(entries)) => {
            lemma_items_among(entries@, disk.dom(), next.items@);
            assert(next.file_ids@ =~= Seq::empty());
            assert(next.hashes@ =~= Seq::empty());
        },
        (RunStage::Preparing(hash), RunReport::Prepared(Ok(id))) => {
            let (item, fresh) = choose|item: ScannedItem, fresh: int|
                scanned(disk, x.items@[x.at as int]@, item) && #[trigger] prepared_as(
                    t,
                    item,
                    x.seen@,
                    fresh,
                    t2,
                    id,
                );
            let (ids2, hashes2) = match id {
                Some(file) => (x.file_ids@.push(file), x.hashes@.push(item.hash)),
                None => (x.file_ids@, x.hashes@),
            };
            lemma_item_prepared(
                disk,
                x.seen,
                items,
                x.file_ids@,
                x.hashes@,
                x.at as int,
                t,
                th,
                made,
                item,
                fresh,
                t2,
                id,
                ids2,
                hashes2,
            );
            assert(dealt_with(next) == x.at + 1);
            assert(next.file_ids@ =~= ids2);
            assert(next.hashes@ =~= hashes2);
            if next.file_ids@.len() > 0 {
                assert forall|k: int| 0 <= k < next.units@.len() implies (
                #[trigger] next.units@[k]).file == next.file_ids@[k] && t2.at_path(
                    lossy_text(next.units@[k].path@),
                    next.file_ids@[k] as int,
                ) by {
                    if k < x.units@.len() {
                        if id is Some {
                            assert(next.units@.drop_last()[k] == next.units@[k]);
                        }
                        assert(next.units@[k] == x.units@[k]);
                        assert(x.file_ids@[k] == next.file_ids@[k]);
                    }
                }
            }
        },
        (RunStage::Embedding, RunReport::Embedded(Ok(outcomes))) => {
            lemma_batch_embedded(x, disk, t, th, made);
        },
        (RunStage::Committing, RunReport::Done(Ok(_))) => {
            let outcomes = choose|outcomes: Seq<EmbedOutcome>|
                outcomes.len() == x.file_ids@.len() && #[trigger] commits(
                    x.thumbnails_dir@,
                    x.file_ids@,
                    x.hashes@,
                    outcomes,
                    t,
                    th,
                    t2,
                    th2,
                );
            lemma_batch_committed(
                disk,
                items,
                x.thumbnails_dir@,
                x.file_ids@,
                x.hashes@,
                outcomes,
                x.end(),
                t,
                th,
                made,
                t2,
                th2,
            );
            assert(dealt_with(next) == x.end());
            assert(next.file_ids@ =~= Seq::empty());
            assert(next.hashes@ =~= Seq::empty());
        },
        (RunStage::Removing, RunReport::Done(Ok(_))) => {
            let (rows, fresh) = choose|rows: Seq<(FileId, String)>, fresh: Seq<int>|
                rows_in(t, rows) && t2 == #[trigger] after_all(
                    removals(rows, x.root@, x.seen@),
                    t,
                    fresh,
                );
            assert(x.file_ids@ =~= Seq::empty());
            assert(x.hashes@ =~= Seq::empty());
            lemma_missing_removed(disk, x.root@, x.seen, items, t, th, made, rows, fresh);
        },
        _ => {},
    }
}

proof fn lemma_batch_embedded(
    x: Indexer,
    disk: Map<Seq<u8>, FileFacts>,
    t: Tables,
    th: Set<FileId>,
    made: Set<FileId>,
)
    requires
        abreast(disk, x.items@, x.file_ids@, x.hashes@, x.end(), false, t, th, made),
    ensures
        abreast(
            disk,
            x.items@,
            x.file_ids@,
            x.hashes@,
            x.end(),
            true,
            t,
            th,
            made.union(x.file_ids@.to_set()),
        ),
{
    let ids = x.file_ids@;
    let more = made.union(ids.to_set());
    assert forall|file: FileId| #[trigger] more.contains(file) implies exists|i: int|
        0 <= i < x.end() && #[trigger] made_item(disk, x.items@, ids, true, t, th, file, i) by {
        if ids.to_set().contains(file) {
            let k = ids.index_of(file);
            assert(belongs(disk, x.items@, ids, x.hashes@, x.end(), t, k));
            let i = choose|i: int|
                0 <= i < x.end() && #[trigger] in_work(
                    disk,
                    x.items@,
                    ids,
                    x.hashes@,
                    t,
                    k,
                    i,
                );
            assert(in_work(disk, x.items@, ids, x.hashes@, t, k, i));
            assert(made_item(disk, x.items@, ids, true, t, th, file, i));
        } else {
            let i = choose|i: int|
                0 <= i < x.end() && #[trigger] made_item(
                    disk,
                    x.items@,
                    ids,
                    false,
                    t,
                    th,
                    file,
                    i,
                );
            assert(made_item(disk, x.items@, ids, true, t, th, file, i));
        }
    }
}

/// What the sidecar is asked to embed for an item is the file of the item: the path of
/// the unit is the path of the row, and the file is on the disk.
pub proof fn lemma_embeds_the_files(
    disk: Map<Seq<u8>, FileFacts>,
    x: Indexer,
    t: Tables,
    th: Set<FileId>,
    made: Set<FileId>,
)
    requires
        x.consistent(),
        x.stage is Embedding,
        run_course(disk, x, t, th, made),
    ensures
        x.units@.len() == x.file_ids@.len(),
        forall|k: int|
            0 <= k < x.units@.len() ==> {
                let unit = #[trigger] x.units@[k];
                &&& unit.file == x.file_ids@[k]
                &&& t.files.contains_key(unit.file as int)
                &&& t.files[unit.file as int].path == lossy_text(unit.path@)
                &&& on_disk(disk, lossy_text(unit.path@))
            },
{
    assert forall|k: int| 0 <= k < x.units@.len() implies {
        let unit = #[trigger] x.units@[k];
        &&& unit.file == x.file_ids@[k]
        &&& t.files.contains_key(unit.file as int)
        &&& t.files[unit.file as int].path == lossy_text(unit.path@)
        &&& on_disk(disk, lossy_text(unit.path@))
    } by {
        assert(belongs(disk, x.items@, x.file_ids@, x.hashes@, x.end(), t, k));
        let i = choose|i: int|
            0 <= i < x.end() && #[trigger] in_work(
                disk,
                x.items@,
                x.file_ids@,
                x.hashes@,
                t,
                k,
                i,
            );
        assert(item_among(disk.dom(), x.items@[i]@));
    }
}

// ---------------------------------------------------------------------------
// A second run
// ---------------------------------------------------------------------------

/// What holds in every step of a run over a folder that is settled.
pub open spec fn quiet_course(disk: Map<Seq<u8>, FileFacts>, x: Indexer, t: Tables) -> bool {
    &&& readable(disk)
    &&& settled(disk, x.root@, t)
    &&& match x.stage {
        RunStage::Idle | RunStage::Creating | RunStage::Walking => true,
        RunStage::Embedding | RunStage::Committing => false,
        _ => {
            &&& items_among(disk.dom(), x.items@)
            &&& saw(x.seen, x.items@)
            &&& x.file_ids@.len() == 0
        },
    }
}

proof fn lemma_nothing_is_missing(
    disk: Map<Seq<u8>, FileFacts>,
    root: Seq<u8>,
    seen: PathSet,
    items: Seq<MediaPath>,
    t: Tables,
    rows: Seq<(FileId, String)>,
    fresh: Seq<int>,
)
    requires
        readable(disk),
        settled(disk, root, t),
        items_among(disk.dom(), items),
        saw(seen, items),
        rows_in(t, rows),
    ensures
        after_all(removals(rows, root, seen@), t, fresh) == t,
{
    let gone = missing_items(t, root, seen@);
    lemma_missing_items_go(t, rows, root, seen@, fresh);
    assert forall|id: int| !gone.contains(id) by {
        if gone.contains(id) {
            let path = choose|path: Seq<u8>| #[trigger]
                item_among(disk.dom(), path) && components(encode_utf8(t.files[id].path))
                    == components(path);
            let i = choose|i: int| 0 <= i < items.len() && (#[trigger] items[i])@ == path;
            lemma_item_is_seen(disk, seen, items, i);
        }
    }
    assert(t.without(gone).files =~= t.files);
    assert(t.without(gone).units =~= t.units);
}

/// The law of a second run. Where the tables show what is on the disk, a run asks
/// the sidecar for nothing and changes nothing in the tables nor among the
/// thumbnails, and it ends with an error only where something outside fails. So
/// items that are done and items that failed are left alone alike.
pub proof fn lemma_second_run_step(
    disk: Map<Seq<u8>, FileFacts>,
    x: Indexer,
    t: Tables,
    th: Set<FileId>,
    report: RunReport,
    next: Indexer,
    action: RunAction,
    t2: Tables,
    th2: Set<FileId>,
)
    requires
        x.consistent(),
        x.expects(report),
        moves(x, report, next, action),
        next.consistent(),
        quiet_course(disk, x, t),
        carried_out(disk, x, report, t, th, t2, th2),
    ensures
        !(action is Embed),
        !is_failure(report) ==> t2 == t && th2 == th && !(action matches RunAction::Finished(r)
            && r is Err),
        !(action is Finished) ==> quiet_course(disk, next, t2),
{
    match (x.stage, report) {
        (RunStage::Walking, RunReport::Walked(entries)) => {
            lemma_items_among(entries@, disk.dom(), next.items@);
        },
        (RunStage::Preparing(hash), RunReport::Prepared(Ok(id))) => {
            let (item, fresh) = choose|item: ScannedItem, fresh: int|
                scanned(disk, x.items@[x.at as int]@, item) && #[trigger] prepared_as(
                    t,
                    item,
                    x.seen@,
                    fresh,
                    t2,
                    id,
                );
            let (known, how, matches) = choose|
                known: Option<KnownFile>,
                how: Prepared,
                matches: Seq<(FileId, String)>,
            | #[trigger]
                preparation(t, item, x.seen@, fresh, t2, row_id(id), known, how, matches);
            let path = x.items@[x.at as int]@;
            assert(item_among(disk.dom(), path));
            let row = choose|row: int| #[trigger] shows_finished(disk, t, path, row);
            lemma_settled_item(
                t,
                item,
                x.seen@,
                fresh,
                t2,
                row_id(id),
                known,
                how,
                matches,
                row,
            );
        },
        (RunStage::Removing, RunReport::Done(Ok(_))) => {
            let (rows, fresh) = choose|rows: Seq<(FileId, String)>, fresh: Seq<int>|
                rows_in(t, rows) && t2 == #[trigger] after_all(
                    removals(rows, x.root@, x.seen@),
                    t,
                    fresh,
                );
            lemma_nothing_is_missing(disk, x.root@, x.seen, x.items@, t, rows, fresh);
        },
        _ => {},
    }
}

// ---------------------------------------------------------------------------
// Runs from their beginning to their end
// ---------------------------------------------------------------------------

/// A report of a failure ends the run with an error, and nothing else does.
pub proof fn lemma_failure_ends_run(x: Indexer, report: RunReport, next: Indexer, action: RunAction)
    requires
        x.expects(report),
        moves(x, report, next, action),
    ensures
        is_failure(report) <==> (action matches RunAction::Finished(end) && end is Err),
{
}

/// Whether a run can take one step from `x`, with what comes of it, and nothing
/// fails in it.
pub open spec fn run_moment(
    disk: Map<Seq<u8>, FileFacts>,
    x: Indexer,
    report: RunReport,
    next: Indexer,
    action: RunAction,
    t: Tables,
    th: Set<FileId>,
    t2: Tables,
    th2: Set<FileId>,
) -> bool {
    &&& x.expects(report)
    &&& !is_failure(report)
    &&& moves(x, report, next, action)
    &&& next.consistent()
    &&& carried_out(disk, x, report, t, th, t2, th2)
}

/// Whether a run that waits in `x`, and has embedded the items `made`, can end
/// with `end` in at most `n` steps, nothing failing on the way, and leave `t2` and
/// `th2` behind and `all` items embedded.
pub open spec fn ends(
    disk: Map<Seq<u8>, FileFacts>,
    x: Indexer,
    t: Tables,
    th: Set<FileId>,
    made: Set<FileId>,
    t2: Tables,
    th2: Set<FileId>,
    all: Set<FileId>,
    end: Result<(), LumeError>,
    n: nat,
) -> bool
    decreases n,
{
    n > 0 && exists|
        report: RunReport,
        next: Indexer,
        action: RunAction,
        t1: Tables,
        th1: Set<FileId>,
    | #[trigger]
        run_moment(disk, x, report, next, action, t, th, t1, th1) && match action {
            RunAction::Finished(result) => {
                &&& result == end
                &&& t2 == t1
                &&& th2 == th1
                &&& all == made
            },
            _ => ends(
                disk,
                next,
                t1,
                th1,
                made_with(x, report, made),
                t2,
                th2,
                all,
                end,
                (n - 1) as nat,
            ),
        }
}

/// A run in which nothing fails ends without an error. Then every item on the disk
/// has a finished row, and every row under the folder leads to an item on the
/// disk. What is gone from the disk has no row and no unit. Each item that was
/// embedded is done, with its hash, its thumbnail and a unit to be found by, or
/// failed.
///
/// Where the stored paths were spelled as the walk spells them, they still are,
/// and the rows under the folder are those of the items, one for each and none
/// pending.
pub proof fn lemma_whole_run(
    disk: Map<Seq<u8>, FileFacts>,
    x: Indexer,
    t: Tables,
    th: Set<FileId>,
    t2: Tables,
    th2: Set<FileId>,
    all: Set<FileId>,
    end: Result<(), LumeError>,
    n: nat,
)
    requires
        x.consistent(),
        x.stage is Creating,
        t.sound(),
        readable(disk),
        ends(disk, x, t, th, Set::empty(), t2, th2, all, end, n),
    ensures
        end is Ok,
        settled(disk, x.root@, t2),
        all_came_through(disk, t2, th2, all),
        forall|text: Seq<char>|
            lies_under(encode_utf8(text), x.root@) && !leads_to_item(disk, text)
                ==> !#[trigger] t2.has_path(text),
        forall|id: int| !t2.files.contains_key(id) ==> !#[trigger] t2.searchable(id),
        spelled(disk, t) ==> spelled(disk, t2) && row_for_row(disk, x.root@, t2),
{
    lemma_run_ends(disk, x, t, th, Set::empty(), t2, th2, all, end, n);
    assert forall|text: Seq<char>|
        lies_under(encode_utf8(text), x.root@) && !leads_to_item(disk, text)
            implies !#[trigger] t2.has_path(text) by {
        if t2.has_path(text) {
            let id = choose|id: int| #[trigger] t2.at_path(text, id);
            assert(t2.files.contains_key(id));
        }
    }
    assert forall|id: int| !t2.files.contains_key(id) implies !#[trigger] t2.searchable(id) by {
        if t2.searchable(id) {
            let u = choose|u: int| #[trigger] t2.units.contains_key(u) && t2.units[u].file == id;
            assert(t2.files.contains_key(t2.units[u].file));
        }
    }
    if spelled(disk, t) {
        lemma_row_for_row(disk, x.root@, t2);
    }
}

proof fn lemma_row_for_row(disk: Map<Seq<u8>, FileFacts>, root: Seq<u8>, t: Tables)
    requires
        settled(disk, root, t),
        spelled(disk, t),
    ensures
        row_for_row(disk, root, t),
{
    assert forall|id: int| #[trigger] t.files.contains_key(id) && lies_under(
        encode_utf8(t.files[id].path),
        root,
    ) implies exists|path: Seq<u8>| #[trigger]
        item_among(disk.dom(), path) && shows_finished(disk, t, path, id) by {
        assert(on_disk(disk, t.files[id].path));
        let path = choose|path: Seq<u8>| #[trigger]
            item_among(disk.dom(), path) && t.files[id].path == lossy_text(path);
        let row = choose|row: int| #[trigger] shows_finished(disk, t, path, row);
        assert(t.files.contains_key(row));
        assert(row == id);
    }
}

proof fn lemma_run_ends(
    disk: Map<Seq<u8>, FileFacts>,
    x: Indexer,
    t: Tables,
    th: Set<FileId>,
    made: Set<FileId>,
    t2: Tables,
    th2: Set<FileId>,
    all: Set<FileId>,
    end: Result<(), LumeError>,
    n: nat,
)
    requires
        x.consistent(),
        run_course(disk, x, t, th, made),
        ends(disk, x, t, th, made, t2, th2, all, end, n),
    ensures
        end is Ok,
        settled(disk, x.root@, t2),
        all_came_through(disk, t2, th2, all),
        spelled(disk, t) ==> spelled(disk, t2),
    decreases n,
{
    let (report, next, action, t1, th1) = choose|
        report: RunReport,
        next: Indexer,
        action: RunAction,
        t1: Tables,
        th1: Set<FileId>,
    | #[trigger]
        run_moment(disk, x, report, next, action, t, th, t1, th1) && match action {
            RunAction::Finished(result) => {
                &&& result == end
                &&& t2 == t1
                &&& th2 == th1
                &&& all == made
            },
            _ => ends(
                disk,
                next,
                t1,
                th1,
                made_with(x, report, made),
                t2,
                th2,
                all,
                end,
                (n - 1) as nat,
            ),
        };
    lemma_run_step(disk, x, t, th, made, report, next, action, t1, th1);
    lemma_failure_ends_run(x, report, next, action);
    assert(next.root@ == x.root@);
    if let RunAction::Finished(result) = action {
        assert(result->Ok_0 == ());
    } else {
        lemma_run_ends(
            disk,
            next,
            t1,
            th1,
            made_with(x, report, made),
            t2,
            th2,
            all,
            end,
            (n - 1) as nat,
        );
    }
}

/// A run over a folder that is settled, in which nothing fails, ends without an
/// error, embeds nothing, and leaves the tables and the thumbnails as they were.
pub proof fn lemma_second_run(
    disk: Map<Seq<u8>, FileFacts>,
    x: Indexer,
    t: Tables,
    th: Set<FileId>,
    t2: Tables,
    th2: Set<FileId>,
    all: Set<FileId>,
    end: Result<(), LumeError>,
    n: nat,
)
    requires
        x.consistent(),
        x.stage is Creating,
        readable(disk),
        settled(disk, x.root@, t),
        ends(disk, x, t, th, Set::empty(), t2, th2, all, end, n),
    ensures
        end is Ok,
        t2 == t,
        th2 == th,
        all == Set::<FileId>::empty(),
{
    lemma_quiet_run(disk, x, t, th, t2, th2, all, end, n);
}

proof fn lemma_quiet_run(
    disk: Map<Seq<u8>, FileFacts>,
    x: Indexer,
    t: Tables,
    th: Set<FileId>,
    t2: Tables,
    th2: Set<FileId>,
    all: Set<FileId>,
    end: Result<(), LumeError>,
    n: nat,
)
    requires
        x.consistent(),
        quiet_course(disk, x, t),
        ends(disk, x, t, th, Set::empty(), t2, th2, all, end, n),
    ensures
        end is Ok,
        t2 == t,
        th2 == th,
        all == Set::<FileId>::empty(),
    decreases n,
{
    let made = Set::<FileId>::empty();
    let (report, next, action, t1, th1) = choose|
        report: RunReport,
        next: Indexer,
        action: RunAction,
        t1: Tables,
        th1: Set<FileId>,
    | #[trigger]
        run_moment(disk, x, report, next, action, t, th, t1, th1) && match action {
            RunAction::Finished(result) => {
                &&& result == end
                &&& t2 == t1
                &&& th2 == th1
                &&& all == made
            },
            _ => ends(
                disk,
                next,
                t1,
                th1,
                made_with(x, report, made),
                t2,
                th2,
                all,
                end,
                (n - 1) as nat,
            ),
        };
    lemma_second_run_step(disk, x, t, th, report, next, action, t1, th1);
    lemma_failure_ends_run(x, report, next, action);
    if !(action is Finished) {
        lemma_quiet_run(disk, next, t1, th1, t2, th2, all, end, (n - 1) as nat);
    }
}

/// Running twice is running once. Whatever sound tables a first run began with: a
/// second run over the same folder, of which nothing has changed, ends without an
/// error, embeds nothing, and leaves the tables and the thumbnails as the first
/// left them.
pub proof fn lemma_run_twice(
    disk: Map<Seq<u8>, FileFacts>,
    x: Indexer,
    y: Indexer,
    t: Tables,
    th: Set<FileId>,
    t2: Tables,
    th2: Set<FileId>,
    all: Set<FileId>,
    end: Result<(), LumeError>,
    n: nat,
    t3: Tables,
    th3: Set<FileId>,
    again: Set<FileId>,
    second: Result<(), LumeError>,
    m: nat,
)
    requires
        x.consistent(),
        x.stage is Creating,
        y.consistent(),
        y.stage is Creating,
        y.root@ == x.root@,
        t.sound(),
        readable(disk),
        ends(disk, x, t, th, Set::empty(), t2, th2, all, end, n),
        ends(disk, y, t2, th2, Set::empty(), t3, th3, again, second, m),
    ensures
        second is Ok,
        t3 == t2,
        th3 == th2,
        again == Set::<FileId>::empty(),
{
    lemma_whole_run(disk, x, t, th, t2, th2, all, end, n);
    lemma_second_run(disk, y, t2, th2, t3, th3, again, second, m);
}

}
