//! What committing a whole batch amounts to in the tables.

use crate::commit::{
    is_embedded, lemma_batch_of_ids, lemma_commit_begins, lemma_commit_step, on_course,
    performed, settled, steps, takes_next, work_of, BatchCommitter, CommitAction, Stage, World,
};
use crate::error::LumeError;
use crate::run_laws::{lemma_states_are_set, lemma_units_are_stored, untouched, world_of};
use crate::store::{blob, insertions, state_change, state_of};
use crate::store_laws::{lemma_batch_is_stored, lemma_state_set, new_units};
use crate::tables::{after, after_all, Change, FileEntry, Tables};
use crate::traits::EmbedOutcome;
use crate::types::{Blake3Hash, EmbeddedUnit, FileId, IndexState};
use vstd::prelude::*;

verus! {

/// The changes that store a committer's units.
pub open spec fn unit_changes(c: BatchCommitter) -> Seq<Change> {
    Seq::new(
        c.embedded@.len(),
        |i: int|
            Change::InsertUnit {
                id: c.embedded@[i].file,
                frame_ts: None,
                vector: blob(c.embedded@[i].emb.0@),
            },
    )
}

/// Whether the tables and the thumbnails can have become `t2` and `th2` when what
/// a committer waits for was done, or failed. A thumbnail that could not be
/// written may have cost an older one. A state that could not be set may be set
/// all the same. Units are stored all or none.
pub open spec fn commit_carried_out(
    c: BatchCommitter,
    ok: bool,
    t: Tables,
    th: Set<FileId>,
    t2: Tables,
    th2: Set<FileId>,
) -> bool {
    match c.stage {
        Stage::Writing(item) => {
            &&& t2 == t
            &&& if ok {
                th2 == th.insert(item.file)
            } else {
                th2 == th || th2 == th.remove(item.file)
            }
        },
        Stage::Marking(file) => {
            &&& th2 == th
            &&& t2 == after(state_change(file, IndexState::Failed, None), t, 0) || (!ok && t2 == t)
        },
        Stage::Inserting => {
            &&& th2 == th
            &&& if ok {
                exists|fresh: Seq<int>|
                    fresh.len() == c.embedded@.len() && #[trigger] new_units(t, fresh) && t2
                        == after_all(unit_changes(c), t, fresh)
            } else {
                t2 == t
            }
        },
        Stage::Flipping(k) => {
            let item = c.embedded@[k as int];
            &&& th2 == th
            &&& t2 == after(state_change(item.file, IndexState::Done, Some(item.hash)), t, 0) || (
            !ok && t2 == t)
        },
        Stage::Over => t2 == t && th2 == th,
    }
}

/// Whether a committer can take one step from `c`, with what comes of it.
pub open spec fn commit_moment(
    c: BatchCommitter,
    report: Result<(), LumeError>,
    next: BatchCommitter,
    action: CommitAction,
    t: Tables,
    th: Set<FileId>,
    t2: Tables,
    th2: Set<FileId>,
) -> bool {
    &&& steps(c, report, next, action)
    &&& commit_carried_out(c, report is Ok, t, th, t2, th2)
}

/// Whether a committer that has asked for `action` can finish its batch in at
/// most `n` steps without an error, and leave `t2` and `th2` behind.
pub open spec fn finishes(
    c: BatchCommitter,
    action: CommitAction,
    t: Tables,
    th: Set<FileId>,
    t2: Tables,
    th2: Set<FileId>,
    n: nat,
) -> bool
    decreases n,
{
    match action {
        CommitAction::Finished(result) => result is Ok && t2 == t && th2 == th,
        _ => n > 0 && exists|
            report: Result<(), LumeError>,
            next: BatchCommitter,
            then: CommitAction,
            t1: Tables,
            th1: Set<FileId>,
        | #[trigger]
            commit_moment(c, report, next, then, t, th, t1, th1) && finishes(
                next,
                then,
                t1,
                th1,
                t2,
                th2,
                (n - 1) as nat,
            ),
    }
}

/// Whether a batch of ids, hashes and outcomes can be committed without an error,
/// and turn `t` and `th` into `t2` and `th2`.
pub open spec fn commits(
    dir: Seq<u8>,
    file_ids: Seq<FileId>,
    hashes: Seq<Blake3Hash>,
    outcomes: Seq<EmbedOutcome>,
    t: Tables,
    th: Set<FileId>,
    t2: Tables,
    th2: Set<FileId>,
) -> bool {
    exists|c: BatchCommitter, action: CommitAction, n: nat|
        takes_next(dir, work_of(file_ids, hashes, outcomes), Seq::empty(), c, action)
            && #[trigger] finishes(c, action, t, th, t2, th2, n)
}

/// Whether an id of a row is among those of a batch.
pub open spec fn in_batch(batch: Set<FileId>, id: int) -> bool {
    i64::MIN <= id <= i64::MAX && batch.contains(id as FileId)
}

/// Whether a row of a batch differs from what it was in its state and its hash at
/// most. The hash is the one it had, or the one that the batch has for it, and
/// that where the item is done.
pub open spec fn carried_on(before: FileEntry, now: FileEntry, hash: Blake3Hash) -> bool {
    &&& now.path == before.path
    &&& now.kind == before.kind
    &&& now.size == before.size
    &&& now.mtime == before.mtime
    &&& now.folder == before.folder
    &&& now.hash == before.hash || now.hash == Some(hash.0@)
    &&& state_of(now.state) == IndexState::Done ==> now.hash == Some(hash.0@)
}

/// What committing has left alone so far: the items that are not of the batch,
/// and those of the batch but for their states and hashes.
pub open spec fn leaves_alone(
    t0: Tables,
    th0: Set<FileId>,
    t: Tables,
    th: Set<FileId>,
    batch: Set<FileId>,
    hashes: Map<FileId, Blake3Hash>,
) -> bool {
    &&& t.sound()
    &&& t.files.dom() == t0.files.dom()
    &&& forall|id: int| #[trigger]
        t0.files.contains_key(id) && !in_batch(batch, id) ==> untouched(t0, t, id)
    &&& forall|file: FileId| #[trigger]
        batch.contains(file) ==> t0.files.contains_key(file as int) && carried_on(
            t0.files[file as int],
            t.files[file as int],
            hashes[file],
        )
    &&& forall|file: FileId| #[trigger]
        th0.contains(file) && !batch.contains(file) ==> th.contains(file)
}

/// Whether an item is done and nothing of it is lacking: it has this hash, its
/// thumbnail, and a unit to be found by.
pub open spec fn whole(t: Tables, th: Set<FileId>, file: FileId, hash: Blake3Hash) -> bool {
    &&& t.files.contains_key(file as int)
    &&& state_of(t.files[file as int].state) == IndexState::Done
    &&& t.files[file as int].hash == Some(hash.0@)
    &&& th.contains(file)
    &&& t.searchable(file as int)
}

/// Whether an item is marked as failed.
pub open spec fn failed(t: Tables, file: FileId) -> bool {
    t.files.contains_key(file as int) && state_of(t.files[file as int].state)
        == IndexState::Failed
}

/// A world as far as it is about some items.
pub open spec fn about(w: World, batch: Set<FileId>) -> World {
    World {
        thumbnails: w.thumbnails.intersect(batch),
        searchable: w.searchable.intersect(batch),
        states: w.states.restrict(batch),
    }
}

/// Whether the hashes of a committer's items are those of the batch.
spec fn hashes_match(c: BatchCommitter, hashes: Map<FileId, Blake3Hash>) -> bool {
    &&& forall|k: int|
        0 <= k < c.todo@.len() ==> hashes[(#[trigger] c.todo@[k]).file] == c.todo@[k].hash
    &&& forall|k: int|
        0 <= k < c.embedded@.len() ==> hashes[(#[trigger] c.embedded@[k]).file]
            == c.embedded@[k].hash
    &&& c.stage matches Stage::Writing(item) ==> hashes[item.file] == item.hash
}

/// What holds while a batch is committed.
spec fn commit_course(
    c: BatchCommitter,
    t: Tables,
    th: Set<FileId>,
    t0: Tables,
    th0: Set<FileId>,
    batch: Set<FileId>,
    hashes: Map<FileId, Blake3Hash>,
) -> bool {
    &&& on_course(c, about(world_of(t, th), batch), batch)
    &&& leaves_alone(t0, th0, t, th, batch, hashes)
    &&& hashes_match(c, hashes)
}

proof fn lemma_performed_about(
    c: BatchCommitter,
    ok: bool,
    before: World,
    now: World,
    batch: Set<FileId>,
)
    requires
        performed(c, ok, before, now),
        on_course(c, about(before, batch), batch),
    ensures
        performed(c, ok, about(before, batch), about(now, batch)),
{
    let b = about(before, batch);
    let a = about(now, batch);
    match c.stage {
        Stage::Writing(item) => {
            if ok {
                assert(a.thumbnails =~= b.thumbnails.insert(item.file));
            } else if now.thumbnails != before.thumbnails {
                assert(a.thumbnails =~= b.thumbnails.remove(item.file));
            }
        },
        Stage::Marking(file) => {
            if now.states == before.states.insert(file, IndexState::Failed) {
                assert(a.states =~= b.states.insert(file, IndexState::Failed));
            }
        },
        Stage::Inserting => {
            assert forall|file: FileId| #[trigger] a.searchable.contains(file)
                <==> b.searchable.contains(file) || (ok && is_embedded(c, file)) by {
                assert(now.searchable.contains(file) <==> before.searchable.contains(file) || (ok
                    && is_embedded(c, file)));
                if is_embedded(c, file) {
                    let k = choose|k: int|
                        0 <= k < c.embedded@.len() && (#[trigger] c.embedded@[k]).file == file;
                    assert(batch.contains(c.embedded@[k].file));
                }
            }
        },
        Stage::Flipping(k) => {
            let file = c.embedded@[k as int].file;
            assert(batch.contains(file));
            if now.states == before.states.insert(file, IndexState::Done) {
                assert(a.states =~= b.states.insert(file, IndexState::Done));
            }
        },
        Stage::Over => {},
    }
}

/// What the store makes of a committer's units are the changes that the committer
/// waits for.
pub proof fn lemma_unit_changes(c: BatchCommitter, units: Seq<EmbeddedUnit<'_>>)
    requires
        units.len() == c.embedded@.len(),
        forall|i: int|
            0 <= i < units.len() ==> {
                &&& (#[trigger] units[i]).file == c.embedded@[i].file
                &&& units[i].frame_ts is None
                &&& *units[i].emb == c.embedded@[i].emb
            },
    ensures
        insertions(units) == unit_changes(c),
{
    assert(insertions(units) =~= unit_changes(c));
}

/// The units of a committer, as a sequence.
spec fn units_of<'a>(c: &'a BatchCommitter) -> Seq<EmbeddedUnit<'a>> {
    Seq::new(
        c.embedded@.len(),
        |i: int|
            EmbeddedUnit { file: c.embedded@[i].file, frame_ts: None, emb: &c.embedded@[i].emb },
    )
}

/// What is done in the tables is what a committer waits for.
proof fn lemma_performed(
    c: BatchCommitter,
    ok: bool,
    t: Tables,
    th: Set<FileId>,
    t2: Tables,
    th2: Set<FileId>,
    batch: Set<FileId>,
)
    requires
        t.sound(),
        c.consistent(),
        commit_carried_out(c, ok, t, th, t2, th2),
        forall|file: FileId| #[trigger] batch.contains(file) ==> t.files.contains_key(file as int),
        on_course(c, about(world_of(t, th), batch), batch),
    ensures
        performed(c, ok, world_of(t, th), world_of(t2, th2)),
{
    match c.stage {
        Stage::Writing(item) => {},
        Stage::Marking(file) => {
            lemma_states_are_set(c, t, th, 0);
        },
        Stage::Flipping(k) => {
            assert(batch.contains(c.embedded@[k as int].file));
            lemma_states_are_set(c, t, th, 0);
        },
        Stage::Inserting => {
            if ok {
                let fresh = choose|fresh: Seq<int>|
                    fresh.len() == c.embedded@.len() && #[trigger] new_units(t, fresh) && t2
                        == after_all(unit_changes(c), t, fresh);
                lemma_unit_changes(c, units_of(&c));
                assert forall|i: int| 0 <= i < units_of(&c).len() implies t.files.contains_key(
                    (#[trigger] units_of(&c)[i]).file as int,
                ) by {
                    assert(batch.contains(c.embedded@[i].file));
                }
                lemma_units_are_stored(c, t, th, units_of(&c), fresh);
            } else {
                assert(world_of(t2, th2).searchable =~= world_of(t, th).searchable);
            }
        },
        Stage::Over => {},
    }
}

proof fn lemma_state_leaves_alone(
    t0: Tables,
    th0: Set<FileId>,
    t: Tables,
    th: Set<FileId>,
    batch: Set<FileId>,
    hashes: Map<FileId, Blake3Hash>,
    file: FileId,
    state: IndexState,
    hash: Option<Blake3Hash>,
)
    requires
        leaves_alone(t0, th0, t, th, batch, hashes),
        batch.contains(file),
        hash matches Some(h) ==> h == hashes[file],
        state == IndexState::Done ==> hash is Some,
    ensures
        leaves_alone(
            t0,
            th0,
            after(state_change(file, state, hash), t, 0),
            th,
            batch,
            hashes,
        ),
{
    let now = after(state_change(file, state, hash), t, 0);
    assert(t0.files.contains_key(file as int));
    assert(t.files.contains_key(file as int)) by {
        assert(t.files.dom().contains(file as int));
    }
    lemma_state_set(t, file, state, hash, 0);
    assert(now.files.dom() =~= t0.files.dom());
    assert forall|id: int| #[trigger]
        t0.files.contains_key(id) && !in_batch(batch, id) implies untouched(t0, now, id) by {
        assert(id != file as int);
        assert(untouched(t0, t, id));
    }
    assert forall|f: FileId| #[trigger] batch.contains(f) implies t0.files.contains_key(f as int)
        && carried_on(t0.files[f as int], now.files[f as int], hashes[f]) by {
        assert(t.files.dom().contains(f as int));
        assert(carried_on(t0.files[f as int], t.files[f as int], hashes[f]));
    }
}

proof fn lemma_done_leaves_alone(
    c: BatchCommitter,
    ok: bool,
    t: Tables,
    th: Set<FileId>,
    t2: Tables,
    th2: Set<FileId>,
    t0: Tables,
    th0: Set<FileId>,
    batch: Set<FileId>,
    hashes: Map<FileId, Blake3Hash>,
)
    requires
        commit_course(c, t, th, t0, th0, batch, hashes),
        commit_carried_out(c, ok, t, th, t2, th2),
    ensures
        leaves_alone(t0, th0, t2, th2, batch, hashes),
{
    match c.stage {
        Stage::Writing(item) => {
            assert forall|file: FileId| #[trigger]
                th0.contains(file) && !batch.contains(file) implies th2.contains(file) by {
                assert(th.contains(file));
            }
        },
        Stage::Marking(file) => {
            lemma_state_leaves_alone(
                t0,
                th0,
                t,
                th,
                batch,
                hashes,
                file,
                IndexState::Failed,
                None,
            );
        },
        Stage::Flipping(k) => {
            let item = c.embedded@[k as int];
            assert(batch.contains(item.file));
            lemma_state_leaves_alone(
                t0,
                th0,
                t,
                th,
                batch,
                hashes,
                item.file,
                IndexState::Done,
                Some(item.hash),
            );
        },
        Stage::Inserting => {
            if ok {
                let fresh = choose|fresh: Seq<int>|
                    fresh.len() == c.embedded@.len() && #[trigger] new_units(t, fresh) && t2
                        == after_all(unit_changes(c), t, fresh);
                lemma_unit_changes(c, units_of(&c));
                assert forall|i: int| 0 <= i < units_of(&c).len() implies t.files.contains_key(
                    (#[trigger] units_of(&c)[i]).file as int,
                ) by {
                    assert(batch.contains(c.embedded@[i].file));
                    assert(t.files.dom().contains(c.embedded@[i].file as int));
                }
                lemma_batch_is_stored(t, units_of(&c), fresh);
                assert forall|id: int| #[trigger]
                    t0.files.contains_key(id) && !in_batch(batch, id) implies untouched(
                    t0,
                    t2,
                    id,
                ) by {
                    assert(untouched(t0, t, id));
                }
            }
        },
        Stage::Over => {},
    }
}

proof fn lemma_hashes_match(
    c: BatchCommitter,
    report: Result<(), LumeError>,
    next: BatchCommitter,
    action: CommitAction,
    hashes: Map<FileId, Blake3Hash>,
)
    requires
        hashes_match(c, hashes),
        steps(c, report, next, action),
    ensures
        hashes_match(next, hashes),
{
    if let (Stage::Writing(item), Ok(_)) = (c.stage, report) {
        lemma_take_matches(
            c.thumbnails_dir@,
            c.todo@,
            c.embedded@.push(item),
            next,
            action,
            hashes,
        );
    } else if let (Stage::Marking(_), Ok(_)) = (c.stage, report) {
        lemma_take_matches(c.thumbnails_dir@, c.todo@, c.embedded@, next, action, hashes);
    }
}

proof fn lemma_take_matches(
    dir: Seq<u8>,
    todo: Seq<crate::commit::Work>,
    embedded: Seq<crate::commit::Committed>,
    next: BatchCommitter,
    action: CommitAction,
    hashes: Map<FileId, Blake3Hash>,
)
    requires
        takes_next(dir, todo, embedded, next, action),
        forall|k: int| 0 <= k < todo.len() ==> hashes[(#[trigger] todo[k]).file] == todo[k].hash,
        forall|k: int|
            0 <= k < embedded.len() ==> hashes[(#[trigger] embedded[k]).file] == embedded[k].hash,
    ensures
        hashes_match(next, hashes),
{
    if todo.len() > 0 {
        assert(hashes[todo[todo.len() - 1].file] == todo[todo.len() - 1].hash);
        assert(forall|k: int| 0 <= k < next.todo@.len() ==> next.todo@[k] == todo[k]);
    }
}

proof fn lemma_finishes(
    c: BatchCommitter,
    action: CommitAction,
    t: Tables,
    th: Set<FileId>,
    t2: Tables,
    th2: Set<FileId>,
    n: nat,
    t0: Tables,
    th0: Set<FileId>,
    batch: Set<FileId>,
    hashes: Map<FileId, Blake3Hash>,
)
    requires
        finishes(c, action, t, th, t2, th2, n),
        commit_course(c, t, th, t0, th0, batch, hashes),
        !(action is Finished) ==> !(c.stage is Over),
        action == CommitAction::Finished(Ok(())) ==> settled(about(world_of(t, th), batch), batch),
    ensures
        leaves_alone(t0, th0, t2, th2, batch, hashes),
        about(world_of(t2, th2), batch).trusted(),
        settled(about(world_of(t2, th2), batch), batch),
    decreases n,
{
    if !(action is Finished) {
        let (report, next, then, t1, th1) = choose|
            report: Result<(), LumeError>,
            next: BatchCommitter,
            then: CommitAction,
            t1: Tables,
            th1: Set<FileId>,
        | #[trigger]
            commit_moment(c, report, next, then, t, th, t1, th1) && finishes(
                next,
                then,
                t1,
                th1,
                t2,
                th2,
                (n - 1) as nat,
            );
        let before = world_of(t, th);
        let now = world_of(t1, th1);
        assert forall|file: FileId| #[trigger] batch.contains(file) implies t.files.contains_key(
            file as int,
        ) by {
            assert(t0.files.dom().contains(file as int));
        }
        lemma_performed(c, report is Ok, t, th, t1, th1, batch);
        lemma_performed_about(c, report is Ok, before, now, batch);
        lemma_commit_step(c, report, next, then, about(before, batch), about(now, batch), batch);
        lemma_done_leaves_alone(c, report is Ok, t, th, t1, th1, t0, th0, batch, hashes);
        lemma_hashes_match(c, report, next, then, hashes);
        lemma_finishes(next, then, t1, th1, t2, th2, (n - 1) as nat, t0, th0, batch, hashes);
    } else {
        assert(action->Finished_0->Ok_0 == ());
    }
}

/// A batch that is committed without an error leaves each of its items done, with
/// its hash, its thumbnail and a unit to be found by, or failed, whatever came of
/// each step on the way. Nothing else of the items changes, and no other item is
/// touched.
pub proof fn lemma_batch_is_committed(
    dir: Seq<u8>,
    file_ids: Seq<FileId>,
    hash_list: Seq<Blake3Hash>,
    outcomes: Seq<EmbedOutcome>,
    t: Tables,
    th: Set<FileId>,
    t2: Tables,
    th2: Set<FileId>,
    batch: Set<FileId>,
    hashes: Map<FileId, Blake3Hash>,
)
    requires
        t.sound(),
        file_ids.len() == hash_list.len() == outcomes.len(),
        file_ids.no_duplicates(),
        forall|file: FileId| #[trigger] batch.contains(file) <==> file_ids.contains(file),
        forall|k: int| 0 <= k < file_ids.len() ==> hashes[#[trigger] file_ids[k]] == hash_list[k],
        forall|file: FileId| #[trigger]
            batch.contains(file) ==> t.files.contains_key(file as int) && state_of(
                t.files[file as int].state,
            ) == IndexState::Pending,
        commits(dir, file_ids, hash_list, outcomes, t, th, t2, th2),
    ensures
        leaves_alone(t, th, t2, th2, batch, hashes),
        forall|file: FileId| #[trigger]
            batch.contains(file) ==> whole(t2, th2, file, hashes[file]) || failed(t2, file),
{
    let (c, action, n) = choose|c: BatchCommitter, action: CommitAction, n: nat|
        takes_next(dir, work_of(file_ids, hash_list, outcomes), Seq::empty(), c, action)
            && #[trigger] finishes(c, action, t, th, t2, th2, n);
    let w = about(world_of(t, th), batch);
    let work = work_of(file_ids, hash_list, outcomes);
    lemma_batch_of_ids(file_ids, hash_list, outcomes, batch);
    lemma_commit_begins(dir, file_ids, hash_list, outcomes, c, action, w, batch);
    assert forall|k: int| 0 <= k < work.len() implies hashes[(#[trigger] work[k]).file]
        == work[k].hash by {
        assert(hashes[file_ids[file_ids.len() - 1 - k]] == hash_list[file_ids.len() - 1 - k]);
    }
    lemma_take_matches(dir, work, Seq::empty(), c, action, hashes);
    lemma_finishes(c, action, t, th, t2, th2, n, t, th, batch, hashes);
    let now = about(world_of(t2, th2), batch);
    assert forall|file: FileId| #[trigger] batch.contains(file) implies whole(
        t2,
        th2,
        file,
        hashes[file],
    ) || failed(t2, file) by {
        assert(now.done(file) || now.failed(file));
        assert(t.files.dom().contains(file as int));
        assert(carried_on(t.files[file as int], t2.files[file as int], hashes[file]));
    }
}

// ---------------------------------------------------------------------------
// What is kept of a batch, by the positions of its inputs
// ---------------------------------------------------------------------------

/// What was done for a batch: the items for which a thumbnail was tried, the
/// thumbnails and the vectors that are kept, and the states that were set, each
/// with the hash that was given.
pub struct Kept {
    pub tried: Set<FileId>,
    pub jpegs: Map<FileId, Seq<u8>>,
    pub vectors: Map<FileId, Seq<u16>>,
    pub states: Map<FileId, (IndexState, Option<Blake3Hash>)>,
}

/// Nothing.
pub open spec fn nothing_kept() -> Kept {
    Kept {
        tried: Set::empty(),
        jpegs: Map::empty(),
        vectors: Map::empty(),
        states: Map::empty(),
    }
}

/// Whether `now` is what is kept when an action was done, or failed. Units are those
/// of the committer that asked for them.
pub open spec fn keeps(
    c: BatchCommitter,
    action: CommitAction,
    ok: bool,
    before: Kept,
    now: Kept,
) -> bool {
    match action {
        CommitAction::WriteThumbnail { file, path, jpeg } => {
            &&& now.tried == before.tried.insert(file)
            &&& now.jpegs == if ok {
                before.jpegs.insert(file, jpeg@)
            } else {
                before.jpegs.remove(file)
            }
            &&& now.vectors == before.vectors
            &&& now.states == before.states
        },
        CommitAction::SetState { file, state, hash } => {
            &&& now.tried == before.tried
            &&& now.jpegs == before.jpegs
            &&& now.vectors == before.vectors
            &&& ok ==> now.states == before.states.insert(file, (state, hash))
        },
        CommitAction::InsertBatch => {
            &&& now.tried == before.tried
            &&& now.jpegs == before.jpegs
            &&& now.states == before.states
            &&& ok ==> {
                &&& forall|i: int|
                    0 <= i < c.embedded@.len() ==> now.vectors.contains_key(
                        (#[trigger] c.embedded@[i]).file,
                    ) && now.vectors[c.embedded@[i].file] == c.embedded@[i].emb.0@
                &&& forall|file: FileId| #[trigger]
                    now.vectors.contains_key(file) ==> before.vectors.contains_key(file)
                        || is_embedded(c, file)
            }
        },
        CommitAction::Finished(_) => now == before,
    }
}

/// Whether a committer can take one step, with what is kept after it.
pub open spec fn kept_moment(
    c: BatchCommitter,
    action: CommitAction,
    report: Result<(), LumeError>,
    next: BatchCommitter,
    then: CommitAction,
    before: Kept,
    now: Kept,
) -> bool {
    &&& steps(c, report, next, then)
    &&& keeps(c, action, report is Ok, before, now)
}

/// Whether a committer that has asked for `action` can finish its batch in at most
/// `n` steps without an error, with `end` kept.
pub open spec fn kept_at_end(
    c: BatchCommitter,
    action: CommitAction,
    before: Kept,
    end: Kept,
    n: nat,
) -> bool
    decreases n,
{
    match action {
        CommitAction::Finished(result) => result is Ok && end == before,
        _ => n > 0 && exists|
            report: Result<(), LumeError>,
            next: BatchCommitter,
            then: CommitAction,
            now: Kept,
        | #[trigger]
            kept_moment(c, action, report, next, then, before, now) && kept_at_end(
                next,
                then,
                now,
                end,
                (n - 1) as nat,
            ),
    }
}

/// Whether what is kept of one item is what belongs to its outcome. An item that was
/// embedded has its thumbnail and its vector and is done with its hash, or its
/// thumbnail could not be written and it is failed. An item that could not be
/// embedded is failed, and nothing was tried for it.
pub open spec fn kept_for(
    end: Kept,
    file: FileId,
    hash: Blake3Hash,
    outcome: EmbedOutcome,
) -> bool {
    match outcome {
        EmbedOutcome::Embedded { emb, thumbnail_jpeg } => {
            &&& end.tried.contains(file)
            &&& end.states.contains_key(file)
            &&& if end.jpegs.contains_key(file) {
                &&& end.jpegs[file] == thumbnail_jpeg@
                &&& end.vectors.contains_key(file)
                &&& end.vectors[file] == emb.0@
                &&& end.states[file] == (IndexState::Done, Some(hash))
            } else {
                &&& !end.vectors.contains_key(file)
                &&& end.states[file] == (IndexState::Failed, None::<Blake3Hash>)
            }
        },
        EmbedOutcome::Failed { reason } => {
            &&& !end.tried.contains(file)
            &&& !end.jpegs.contains_key(file)
            &&& !end.vectors.contains_key(file)
            &&& end.states.contains_key(file)
            &&& end.states[file] == (IndexState::Failed, None::<Blake3Hash>)
        },
    }
}

/// Whether nothing is kept of an item yet.
spec fn untried(k: Kept, file: FileId) -> bool {
    &&& !k.tried.contains(file)
    &&& !k.jpegs.contains_key(file)
    &&& !k.vectors.contains_key(file)
    &&& !k.states.contains_key(file)
}

/// Whether nothing is kept but of some items.
pub open spec fn kept_only(k: Kept, ids: Seq<FileId>) -> bool {
    forall|file: FileId|
        #![trigger ids.contains(file)]
        k.tried.contains(file) || k.jpegs.contains_key(file) || k.vectors.contains_key(file)
            || k.states.contains_key(file) ==> ids.contains(file)
}

/// Whether an item whose thumbnail is written is the one at a position.
spec fn stands_for(
    item: crate::commit::Committed,
    ids: Seq<FileId>,
    hashes: Seq<Blake3Hash>,
    outcomes: Seq<EmbedOutcome>,
    q: int,
) -> bool {
    &&& 0 <= q < ids.len()
    &&& item.file == ids[q]
    &&& item.hash == hashes[q]
    &&& outcomes[q] matches EmbedOutcome::Embedded { emb, thumbnail_jpeg } && item.emb == emb
}

/// Whether an item whose thumbnail is written is the one at one of the first `n`
/// positions.
spec fn has_place(
    item: crate::commit::Committed,
    ids: Seq<FileId>,
    hashes: Seq<Blake3Hash>,
    outcomes: Seq<EmbedOutcome>,
    n: int,
) -> bool {
    exists|q: int| 0 <= q < n && #[trigger] stands_for(item, ids, hashes, outcomes, q)
}

/// Whether an item that was dealt with is waiting to be marked as done, or failed.
spec fn half_way(
    c: BatchCommitter,
    k: Kept,
    file: FileId,
    outcome: EmbedOutcome,
) -> bool {
    match outcome {
        EmbedOutcome::Embedded { emb, thumbnail_jpeg } => {
            &&& k.tried.contains(file)
            &&& if k.jpegs.contains_key(file) {
                k.jpegs[file] == thumbnail_jpeg@ && is_embedded(c, file)
            } else {
                !is_embedded(c, file) && k.states.contains_key(file) && k.states[file] == (
                    IndexState::Failed,
                    None::<Blake3Hash>,
                )
            }
        },
        EmbedOutcome::Failed { reason } => {
            &&& !k.tried.contains(file)
            &&& !k.jpegs.contains_key(file)
            &&& !is_embedded(c, file)
            &&& k.states.contains_key(file)
            &&& k.states[file] == (IndexState::Failed, None::<Blake3Hash>)
        },
    }
}

/// How many positions of a batch are dealt with, when an item may be at hand.
spec fn past(c: BatchCommitter, n: int) -> int {
    if c.stage is Writing || c.stage is Marking {
        n - c.todo@.len() - 1
    } else {
        n - c.todo@.len()
    }
}

/// What holds of what is kept while a batch is committed, unless it was given up.
spec fn keeping(
    c: BatchCommitter,
    action: CommitAction,
    k: Kept,
    ids: Seq<FileId>,
    hashes: Seq<Blake3Hash>,
    outcomes: Seq<EmbedOutcome>,
) -> bool {
    (action matches CommitAction::Finished(result) && result is Err) || keeping_on(
        c,
        action,
        k,
        ids,
        hashes,
        outcomes,
    )
}

/// What holds of what is kept while a batch is committed.
spec fn keeping_on(
    c: BatchCommitter,
    action: CommitAction,
    k: Kept,
    ids: Seq<FileId>,
    hashes: Seq<Blake3Hash>,
    outcomes: Seq<EmbedOutcome>,
) -> bool {
    let n = ids.len() as int;
    &&& kept_only(k, ids)
    &&& c.todo@.len() <= n
    &&& past(c, n) >= 0
    &&& forall|j: int|
        0 <= j < c.todo@.len() ==> (#[trigger] c.todo@[j]).file == ids[n - 1 - j]
            && c.todo@[j].hash == hashes[n - 1 - j] && c.todo@[j].outcome == outcomes[n - 1 - j]
    &&& forall|j: int|
        0 <= j < c.embedded@.len() ==> has_place(#[trigger] c.embedded@[j], ids, hashes, outcomes, past(c, n))
    &&& forall|i: int, j: int|
        0 <= i < j < c.embedded@.len() ==> (#[trigger] c.embedded@[i]).file != (
        #[trigger] c.embedded@[j]).file
    &&& forall|q: int|
        #![trigger ids[q]]
        0 <= q < past(c, n) && !(c.stage is Flipping || c.stage is Over) ==> half_way(
            c,
            k,
            ids[q],
            outcomes[q],
        )
    &&& forall|q: int|
        #![trigger ids[q]]
        past(c, n) <= q < n && !(c.stage is Marking && q == past(c, n)) ==> untried(k, ids[q])
    &&& !(c.stage is Flipping || c.stage is Over) ==> k.vectors == Map::<FileId, Seq<u16>>::empty()
    &&& match c.stage {
        Stage::Writing(item) => {
            let q = past(c, n);
            &&& action matches CommitAction::WriteThumbnail { file, path, jpeg }
            &&& file == ids[q]
            &&& item.file == ids[q]
            &&& item.hash == hashes[q]
            &&& outcomes[q] matches EmbedOutcome::Embedded { emb, thumbnail_jpeg }
            &&& item.emb == emb
            &&& jpeg == thumbnail_jpeg
        },
        Stage::Marking(file) => {
            let q = past(c, n);
            &&& file == ids[q]
            &&& action == (CommitAction::SetState {
                file,
                state: IndexState::Failed,
                hash: None,
            })
            &&& outcomes[q] is Embedded <==> k.tried.contains(file)
            &&& !k.jpegs.contains_key(file)
            &&& !is_embedded(c, file)
        },
        Stage::Inserting => c.todo@.len() == 0 && action is InsertBatch,
        Stage::Flipping(m) => {
            &&& c.todo@.len() == 0
            &&& m < c.embedded@.len()
            &&& action == (CommitAction::SetState {
                file: c.embedded@[m as int].file,
                state: IndexState::Done,
                hash: Some(c.embedded@[m as int].hash),
            })
            &&& flipped(c, m as int, k, ids, outcomes)
        },
        Stage::Over => {
            &&& action is Finished
            &&& c.todo@.len() == 0
            &&& flipped(
                c,
                c.embedded@.len() as int,
                k,
                ids,
                outcomes,
            )
        },
    }
}

/// Whether the units are kept and the first `m` items are marked as done.
spec fn flipped(
    c: BatchCommitter,
    m: int,
    k: Kept,
    ids: Seq<FileId>,
    outcomes: Seq<EmbedOutcome>,
) -> bool {
    &&& forall|q: int| 0 <= q < ids.len() ==> half_way(c, k, #[trigger] ids[q], outcomes[q])
    &&& forall|j: int|
        0 <= j < c.embedded@.len() ==> k.vectors.contains_key((#[trigger] c.embedded@[j]).file)
            && k.vectors[c.embedded@[j].file] == c.embedded@[j].emb.0@
    &&& forall|file: FileId| #[trigger] k.vectors.contains_key(file) ==> is_embedded(c, file)
    &&& forall|j: int|
        0 <= j < m ==> k.states.contains_key((#[trigger] c.embedded@[j]).file)
            && k.states[c.embedded@[j].file] == (IndexState::Done, Some(c.embedded@[j].hash))
}

proof fn lemma_keeping_takes(
    dir: Seq<u8>,
    todo: Seq<crate::commit::Work>,
    embedded: Seq<crate::commit::Committed>,
    c: BatchCommitter,
    action: CommitAction,
    k: Kept,
    ids: Seq<FileId>,
    hashes: Seq<Blake3Hash>,
    outcomes: Seq<EmbedOutcome>,
)
    requires
        takes_next(dir, todo, embedded, c, action),
        ids.len() == hashes.len() == outcomes.len(),
        ids.no_duplicates(),
        todo.len() <= ids.len(),
        forall|j: int|
            0 <= j < todo.len() ==> (#[trigger] todo[j]).file == ids[ids.len() - 1 - j]
                && todo[j].hash == hashes[ids.len() - 1 - j] && todo[j].outcome
                == outcomes[ids.len() - 1 - j],
        forall|j: int|
            0 <= j < embedded.len() ==> has_place(
                #[trigger] embedded[j],
                ids,
                hashes,
                outcomes,
                ids.len() - todo.len(),
            ),
        forall|i: int, j: int|
            0 <= i < j < embedded.len() ==> (#[trigger] embedded[i]).file != (
            #[trigger] embedded[j]).file,
        forall|q: int|
            #![trigger ids[q]]
            0 <= q < ids.len() - todo.len() ==> half_way(c, k, ids[q], outcomes[q]),
        forall|q: int|
            #![trigger ids[q]]
            ids.len() - todo.len() <= q < ids.len() ==> untried(k, ids[q]),
        k.vectors == Map::<FileId, Seq<u16>>::empty(),
        kept_only(k, ids),
    ensures
        keeping(c, action, k, ids, hashes, outcomes),
{
    let n = ids.len() as int;
    assert(c.embedded@ == embedded);
    let done = n - todo.len();
    assert(past(c, n) == done);
    if todo.len() > 0 {
        assert(todo[todo.len() - 1].file == ids[done]);
        assert(untried(k, ids[done]));
    }
    if c.stage is Marking {
        if is_embedded(c, ids[done]) {
            let j = choose|j: int|
                0 <= j < c.embedded@.len() && (#[trigger] c.embedded@[j]).file == ids[done];
            assert(has_place(c.embedded@[j], ids, hashes, outcomes, past(c, n)));
            let q = choose|q: int|
                0 <= q < past(c, n) && #[trigger] stands_for(c.embedded@[j], ids, hashes, outcomes, q);
            assert(ids[q] == ids[done]);
        }
    }
}

/// One step keeps what belongs to the positions.
proof fn lemma_keeping_step(
    c: BatchCommitter,
    action: CommitAction,
    report: Result<(), LumeError>,
    next: BatchCommitter,
    then: CommitAction,
    k: Kept,
    now: Kept,
    ids: Seq<FileId>,
    hashes: Seq<Blake3Hash>,
    outcomes: Seq<EmbedOutcome>,
)
    requires
        ids.len() == hashes.len() == outcomes.len(),
        ids.no_duplicates(),
        keeping(c, action, k, ids, hashes, outcomes),
        !(action is Finished),
        kept_moment(c, action, report, next, then, k, now),
    ensures
        keeping(next, then, now, ids, hashes, outcomes),
{
    let n = ids.len() as int;
    match c.stage {
        Stage::Writing(item) => {
            let q = past(c, n);
            if report is Ok {
                lemma_write_done(c, action, report, next, then, k, now, ids, hashes, outcomes);
            } else {
                lemma_write_failed(c, action, report, next, then, k, now, ids, hashes, outcomes);
            }
        },
        Stage::Marking(file) => {
            if report is Ok {
                lemma_marked(c, action, report, next, then, k, now, ids, hashes, outcomes);
            } else {
                lemma_given_up(c, action, report, next, then, k, now, ids, hashes, outcomes);
            }
        },
        Stage::Inserting => {
            if report is Ok {
                assert(c.embedded.len() == c.embedded@.len());
                lemma_embedded_are_of_batch(c, ids, hashes, outcomes);
                lemma_same_half_way(c, next, k, now, ids, outcomes);
                lemma_same_stands(c, next, ids, hashes, outcomes);
                assert(past(next, n) == n);
                assert forall|file: FileId| #[trigger] now.vectors.contains_key(file) implies is_embedded(
                    next,
                    file,
                ) by {
                    assert(is_embedded(c, file));
                    let j = choose|j: int|
                        0 <= j < c.embedded@.len() && (#[trigger] c.embedded@[j]).file == file;
                    assert(next.embedded@[j].file == file);
                }
                assert forall|j: int| 0 <= j < next.embedded@.len() implies now.vectors.contains_key(
                    (#[trigger] next.embedded@[j]).file,
                ) && now.vectors[next.embedded@[j].file] == next.embedded@[j].emb.0@ by {
                    assert(c.embedded@[j] == next.embedded@[j]);
                }
            } else {
                lemma_given_up(c, action, report, next, then, k, now, ids, hashes, outcomes);
            }
        },
        Stage::Flipping(m) => {
            if report is Ok {
                assert(c.embedded.len() == c.embedded@.len());
                lemma_flip_kept(c, action, report, next, then, k, now, ids, hashes, outcomes);
            } else {
                lemma_given_up(c, action, report, next, then, k, now, ids, hashes, outcomes);
            }
        },
        Stage::Over => {},
    }
}

proof fn lemma_embedded_are_of_batch(
    c: BatchCommitter,
    ids: Seq<FileId>,
    hashes: Seq<Blake3Hash>,
    outcomes: Seq<EmbedOutcome>,
)
    requires
        forall|j: int|
            0 <= j < c.embedded@.len() ==> has_place(
                #[trigger] c.embedded@[j],
                ids,
                hashes,
                outcomes,
                past(c, ids.len() as int),
            ),
    ensures
        forall|file: FileId| #[trigger] is_embedded(c, file) ==> ids.contains(file),
{
    assert forall|file: FileId| #[trigger] is_embedded(c, file) implies ids.contains(file) by {
        let j = choose|j: int| 0 <= j < c.embedded@.len() && (#[trigger] c.embedded@[j]).file == file;
        assert(has_place(c.embedded@[j], ids, hashes, outcomes, past(c, ids.len() as int)));
        let q = choose|q: int|
            0 <= q < past(c, ids.len() as int) && #[trigger] stands_for(
                c.embedded@[j],
                ids,
                hashes,
                outcomes,
                q,
            );
        assert(ids[q] == file);
    }
}

proof fn lemma_same_stands(
    c: BatchCommitter,
    next: BatchCommitter,
    ids: Seq<FileId>,
    hashes: Seq<Blake3Hash>,
    outcomes: Seq<EmbedOutcome>,
)
    requires
        next.embedded@ == c.embedded@,
        past(c, ids.len() as int) <= past(next, ids.len() as int),
        forall|j: int|
            0 <= j < c.embedded@.len() ==> has_place(#[trigger] c.embedded@[j], ids, hashes, outcomes, past(c, ids.len() as int)),
    ensures
        forall|j: int|
            0 <= j < next.embedded@.len() ==> has_place(#[trigger] next.embedded@[j], ids, hashes, outcomes, past(next, ids.len() as int)),
{
    assert forall|j: int| 0 <= j < next.embedded@.len() implies has_place(#[trigger] next.embedded@[j], ids, hashes, outcomes, past(next, ids.len() as int)) by {
        assert(has_place(c.embedded@[j], ids, hashes, outcomes, past(c, ids.len() as int)));
        let q = choose|q: int|
            0 <= q < past(c, ids.len() as int) && #[trigger] stands_for(c.embedded@[j], ids, hashes, outcomes, q);
        assert(stands_for(next.embedded@[j], ids, hashes, outcomes, q));
    }
}

proof fn lemma_same_embedded(c: BatchCommitter, next: BatchCommitter, file: FileId)
    requires
        next.embedded@ == c.embedded@,
    ensures
        is_embedded(next, file) == is_embedded(c, file),
{
    if is_embedded(c, file) {
        let j = choose|j: int| 0 <= j < c.embedded@.len() && (#[trigger] c.embedded@[j]).file == file;
        assert(next.embedded@[j].file == file);
    }
    if is_embedded(next, file) {
        let j = choose|j: int|
            0 <= j < next.embedded@.len() && (#[trigger] next.embedded@[j]).file == file;
        assert(c.embedded@[j].file == file);
    }
}

proof fn lemma_same_half_way(
    c: BatchCommitter,
    next: BatchCommitter,
    k: Kept,
    now: Kept,
    ids: Seq<FileId>,
    outcomes: Seq<EmbedOutcome>,
)
    requires
        next.embedded@ == c.embedded@,
        now.tried == k.tried,
        now.jpegs == k.jpegs,
        now.states == k.states,
    ensures
        forall|q: int|
            0 <= q < ids.len() && half_way(c, k, #[trigger] ids[q], outcomes[q]) ==> half_way(
                next,
                now,
                ids[q],
                outcomes[q],
            ),
{
    assert forall|q: int|
        0 <= q < ids.len() && half_way(c, k, #[trigger] ids[q], outcomes[q]) implies half_way(
        next,
        now,
        ids[q],
        outcomes[q],
    ) by {
        lemma_same_embedded(c, next, ids[q]);
    }
}

proof fn lemma_given_up(
    c: BatchCommitter,
    action: CommitAction,
    report: Result<(), LumeError>,
    next: BatchCommitter,
    then: CommitAction,
    k: Kept,
    now: Kept,
    ids: Seq<FileId>,
    hashes: Seq<Blake3Hash>,
    outcomes: Seq<EmbedOutcome>,
)
    requires
        ids.len() == hashes.len() == outcomes.len(),
        ids.no_duplicates(),
        keeping_on(c, action, k, ids, hashes, outcomes),
        !(c.stage is Writing),
        report is Err,
        !(action is Finished),
        kept_moment(c, action, report, next, then, k, now),
    ensures
        then == CommitAction::Finished(report),
        next.stage is Over,
{
}

proof fn lemma_write_done(
    c: BatchCommitter,
    action: CommitAction,
    report: Result<(), LumeError>,
    next: BatchCommitter,
    then: CommitAction,
    k: Kept,
    now: Kept,
    ids: Seq<FileId>,
    hashes: Seq<Blake3Hash>,
    outcomes: Seq<EmbedOutcome>,
)
    requires
        ids.len() == hashes.len() == outcomes.len(),
        ids.no_duplicates(),
        keeping_on(c, action, k, ids, hashes, outcomes),
        c.stage is Writing,
        report is Ok,
        kept_moment(c, action, report, next, then, k, now),
    ensures
        keeping(next, then, now, ids, hashes, outcomes),
{
    let n = ids.len() as int;
    let item = c.stage->Writing_0;
    let at = past(c, n);
    let embedded = c.embedded@.push(item);
    assert(ids.contains(ids[at]));
    assert(next.embedded@ == embedded);
    assert forall|j: int| 0 <= j < embedded.len() implies has_place(
        #[trigger] embedded[j],
        ids,
        hashes,
        outcomes,
        n - c.todo@.len(),
    ) by {
        if j < c.embedded@.len() {
            assert(has_place(c.embedded@[j], ids, hashes, outcomes, past(c, n)));
            let q = choose|q: int|
                0 <= q < past(c, n) && #[trigger] stands_for(
                    c.embedded@[j],
                    ids,
                    hashes,
                    outcomes,
                    q,
                );
            assert(stands_for(embedded[j], ids, hashes, outcomes, q));
        } else {
            assert(stands_for(embedded[j], ids, hashes, outcomes, at));
        }
    }
    assert forall|i: int, j: int| 0 <= i < j < embedded.len() implies (
    #[trigger] embedded[i]).file != (#[trigger] embedded[j]).file by {
        if j == embedded.len() - 1 {
            assert(has_place(c.embedded@[i], ids, hashes, outcomes, past(c, n)));
            let q = choose|q: int|
                0 <= q < past(c, n) && #[trigger] stands_for(c.embedded@[i], ids, hashes, outcomes, q);
            assert(ids[q] != ids[at]);
        } else {
            assert(c.embedded@[i] == embedded[i] && c.embedded@[j] == embedded[j]);
        }
    }
    assert forall|q: int|
        #![trigger ids[q]]
        0 <= q < n - c.todo@.len() implies half_way(next, now, ids[q], outcomes[q]) by {
        if q < at {
            assert(ids[q] != ids[at]);
            assert(half_way(c, k, ids[q], outcomes[q]));
            if is_embedded(c, ids[q]) {
                let j = choose|j: int|
                    0 <= j < c.embedded@.len() && (#[trigger] c.embedded@[j]).file == ids[q];
                assert(next.embedded@[j].file == ids[q]);
            }
            if is_embedded(next, ids[q]) {
                let j = choose|j: int|
                    0 <= j < next.embedded@.len() && (#[trigger] next.embedded@[j]).file == ids[q];
                assert(j < c.embedded@.len());
                assert(c.embedded@[j].file == ids[q]);
            }
        } else {
            assert(next.embedded@[embedded.len() - 1].file == ids[at]);
            assert(is_embedded(next, ids[at]));
        }
    }
    assert forall|q: int|
        #![trigger ids[q]]
        n - c.todo@.len() <= q < n implies untried(now, ids[q]) by {
        assert(ids[q] != ids[at]);
        assert(untried(k, ids[q]));
    }
    lemma_keeping_takes(
        c.thumbnails_dir@,
        c.todo@,
        embedded,
        next,
        then,
        now,
        ids,
        hashes,
        outcomes,
    );
}

proof fn lemma_write_failed(
    c: BatchCommitter,
    action: CommitAction,
    report: Result<(), LumeError>,
    next: BatchCommitter,
    then: CommitAction,
    k: Kept,
    now: Kept,
    ids: Seq<FileId>,
    hashes: Seq<Blake3Hash>,
    outcomes: Seq<EmbedOutcome>,
)
    requires
        ids.len() == hashes.len() == outcomes.len(),
        ids.no_duplicates(),
        keeping_on(c, action, k, ids, hashes, outcomes),
        c.stage is Writing,
        report is Err,
        kept_moment(c, action, report, next, then, k, now),
    ensures
        keeping(next, then, now, ids, hashes, outcomes),
{
    let n = ids.len() as int;
    let at = past(c, n);
    assert(ids.contains(ids[at]));
    assert(past(next, n) == at);
    lemma_same_stands(c, next, ids, hashes, outcomes);
    assert forall|q: int| #![trigger ids[q]] 0 <= q < at implies half_way(
        next,
        now,
        ids[q],
        outcomes[q],
    ) by {
        assert(ids[q] != ids[at]);
        assert(half_way(c, k, ids[q], outcomes[q]));
        lemma_same_embedded(c, next, ids[q]);
    }
    assert forall|q: int| #![trigger ids[q]] at < q < n implies untried(now, ids[q]) by {
        assert(ids[q] != ids[at]);
        assert(untried(k, ids[q]));
    }
    if is_embedded(next, ids[at]) {
        let j = choose|j: int|
            0 <= j < next.embedded@.len() && (#[trigger] next.embedded@[j]).file == ids[at];
        assert(has_place(next.embedded@[j], ids, hashes, outcomes, past(next, n)));
        let q = choose|q: int|
            0 <= q < past(next, n) && #[trigger] stands_for(next.embedded@[j], ids, hashes, outcomes, q);
        assert(ids[q] != ids[at]);
    }
}

proof fn lemma_marked(
    c: BatchCommitter,
    action: CommitAction,
    report: Result<(), LumeError>,
    next: BatchCommitter,
    then: CommitAction,
    k: Kept,
    now: Kept,
    ids: Seq<FileId>,
    hashes: Seq<Blake3Hash>,
    outcomes: Seq<EmbedOutcome>,
)
    requires
        ids.len() == hashes.len() == outcomes.len(),
        ids.no_duplicates(),
        keeping_on(c, action, k, ids, hashes, outcomes),
        c.stage is Marking,
        report is Ok,
        kept_moment(c, action, report, next, then, k, now),
    ensures
        keeping(next, then, now, ids, hashes, outcomes),
{
    let n = ids.len() as int;
    let at = past(c, n);
    assert(ids.contains(ids[at]));
    assert forall|j: int| 0 <= j < c.embedded@.len() implies has_place(
        #[trigger] c.embedded@[j],
        ids,
        hashes,
        outcomes,
        n - c.todo@.len(),
    ) by {
        assert(has_place(c.embedded@[j], ids, hashes, outcomes, past(c, n)));
        let q = choose|q: int|
            0 <= q < past(c, n) && #[trigger] stands_for(
                c.embedded@[j],
                ids,
                hashes,
                outcomes,
                q,
            );
        assert(stands_for(c.embedded@[j], ids, hashes, outcomes, q));
    }
    assert forall|q: int|
        #![trigger ids[q]]
        0 <= q < n - c.todo@.len() implies half_way(next, now, ids[q], outcomes[q]) by {
        lemma_same_embedded(c, next, ids[q]);
        if q < at {
            assert(ids[q] != ids[at]);
            assert(half_way(c, k, ids[q], outcomes[q]));
        }
    }
    assert forall|q: int|
        #![trigger ids[q]]
        n - c.todo@.len() <= q < n implies untried(now, ids[q]) by {
        assert(ids[q] != ids[at]);
        assert(untried(k, ids[q]));
    }
    lemma_keeping_takes(
        c.thumbnails_dir@,
        c.todo@,
        c.embedded@,
        next,
        then,
        now,
        ids,
        hashes,
        outcomes,
    );
}

proof fn lemma_flip_kept(
    c: BatchCommitter,
    action: CommitAction,
    report: Result<(), LumeError>,
    next: BatchCommitter,
    then: CommitAction,
    k: Kept,
    now: Kept,
    ids: Seq<FileId>,
    hashes: Seq<Blake3Hash>,
    outcomes: Seq<EmbedOutcome>,
)
    requires
        ids.len() == hashes.len() == outcomes.len(),
        ids.no_duplicates(),
        keeping_on(c, action, k, ids, hashes, outcomes),
        c.stage is Flipping,
        report is Ok,
        kept_moment(c, action, report, next, then, k, now),
    ensures
        keeping(next, then, now, ids, hashes, outcomes),
{
    let n = ids.len() as int;
    let m = c.stage->Flipping_0 as int;
    let item = c.embedded@[m];
    assert(c.embedded.len() == c.embedded@.len());
    lemma_embedded_are_of_batch(c, ids, hashes, outcomes);
    assert(is_embedded(c, item.file));
    lemma_same_stands(c, next, ids, hashes, outcomes);
    assert forall|q: int| 0 <= q < ids.len() implies half_way(
        next,
        now,
        #[trigger] ids[q],
        outcomes[q],
    ) by {
        assert(half_way(c, k, ids[q], outcomes[q]));
        lemma_same_embedded(c, next, ids[q]);
        if ids[q] == item.file {
            assert(c.embedded@[m].file == ids[q]);
            assert(is_embedded(c, ids[q]));
        }
    }
    assert forall|file: FileId| #[trigger] now.vectors.contains_key(file) implies is_embedded(
        next,
        file,
    ) by {
        lemma_same_embedded(c, next, file);
    }
    assert forall|j: int| 0 <= j < m + 1 implies now.states.contains_key(
        (#[trigger] next.embedded@[j]).file,
    ) && now.states[next.embedded@[j].file] == (IndexState::Done, Some(next.embedded@[j].hash)) by {
        assert(next.embedded@[j] == c.embedded@[j]);
        if j < m {
            assert(c.embedded@[j].file != c.embedded@[m].file);
        }
    }
    assert forall|j: int| 0 <= j < next.embedded@.len() implies now.vectors.contains_key(
        (#[trigger] next.embedded@[j]).file,
    ) && now.vectors[next.embedded@[j].file] == next.embedded@[j].emb.0@ by {
        assert(next.embedded@[j] == c.embedded@[j]);
    }
    assert forall|i: int, j: int| 0 <= i < j < next.embedded@.len() implies (
    #[trigger] next.embedded@[i]).file != (#[trigger] next.embedded@[j]).file by {
        assert(next.embedded@[i] == c.embedded@[i] && next.embedded@[j] == c.embedded@[j]);
    }
    assert(past(next, n) == n);
}

proof fn lemma_kept_at_end(
    c: BatchCommitter,
    action: CommitAction,
    k: Kept,
    end: Kept,
    steps_left: nat,
    ids: Seq<FileId>,
    hashes: Seq<Blake3Hash>,
    outcomes: Seq<EmbedOutcome>,
)
    requires
        ids.len() == hashes.len() == outcomes.len(),
        ids.no_duplicates(),
        keeping(c, action, k, ids, hashes, outcomes),
        kept_at_end(c, action, k, end, steps_left),
    ensures
        kept_only(end, ids),
        forall|q: int|
            0 <= q < ids.len() ==> kept_for(end, #[trigger] ids[q], hashes[q], outcomes[q]),
    decreases steps_left,
{
    if action is Finished {
        assert(c.stage is Over);
        assert forall|q: int| 0 <= q < ids.len() implies kept_for(
            end,
            #[trigger] ids[q],
            hashes[q],
            outcomes[q],
        ) by {
            assert(half_way(c, k, ids[q], outcomes[q]));
            if is_embedded(c, ids[q]) {
                let j = choose|j: int|
                    0 <= j < c.embedded@.len() && (#[trigger] c.embedded@[j]).file == ids[q];
                assert(has_place(c.embedded@[j], ids, hashes, outcomes, past(c, ids.len() as int)));
                let p = choose|p: int|
                    0 <= p < past(c, ids.len() as int) && #[trigger] stands_for(c.embedded@[j], ids, hashes, outcomes, p);
                assert(ids[p] == ids[q]);
            }
        }
    } else {
        let (report, next, then, now) = choose|
            report: Result<(), LumeError>,
            next: BatchCommitter,
            then: CommitAction,
            now: Kept,
        | #[trigger]
            kept_moment(c, action, report, next, then, k, now) && kept_at_end(
                next,
                then,
                now,
                end,
                (steps_left - 1) as nat,
            );
        lemma_keeping_step(c, action, report, next, then, k, now, ids, hashes, outcomes);
        lemma_kept_at_end(
            next,
            then,
            now,
            end,
            (steps_left - 1) as nat,
            ids,
            hashes,
            outcomes,
        );
    }
}

/// The lesser of two numbers.
pub open spec fn lesser(a: nat, b: nat) -> nat {
    if a <= b {
        a
    } else {
        b
    }
}

/// Ids, hashes and outcomes go together by position, as far as there are all three.
/// When a batch is finished without an error, the thumbnail that is kept for the
/// item at a position is that of the outcome at the position, and so is the vector;
/// the item is done with the hash at the position. Where the thumbnail could not be
/// written the item is failed and has no vector. An item is failed without that a
/// thumbnail was tried exactly where its outcome is a failure. Nothing is kept of
/// any other item.
pub proof fn lemma_outcomes_by_position(
    dir: Seq<u8>,
    ids: Seq<FileId>,
    hashes: Seq<Blake3Hash>,
    outcomes: Seq<EmbedOutcome>,
    c: BatchCommitter,
    action: CommitAction,
    end: Kept,
    n: nat,
)
    requires
        ids.no_duplicates(),
        takes_next(dir, work_of(ids, hashes, outcomes), Seq::empty(), c, action),
        kept_at_end(c, action, nothing_kept(), end, n),
    ensures
        forall|q: int|
            0 <= q < ids.len() && q < hashes.len() && q < outcomes.len() ==> kept_for(
                end,
                #[trigger] ids[q],
                hashes[q],
                outcomes[q],
            ),
        kept_only(end, ids.take(lesser(lesser(ids.len(), hashes.len()), outcomes.len()) as int)),
{
    let m = lesser(lesser(ids.len(), hashes.len()), outcomes.len()) as int;
    let (i, h, o) = (ids.take(m), hashes.take(m), outcomes.take(m));
    let work = work_of(ids, hashes, outcomes);
    assert(i.no_duplicates());
    assert forall|j: int| 0 <= j < work.len() implies (#[trigger] work[j]).file == i[m - 1 - j]
        && work[j].hash == h[m - 1 - j] && work[j].outcome == o[m - 1 - j] by {
        assert(work.len() == m);
    }
    lemma_keeping_takes(dir, work, Seq::empty(), c, action, nothing_kept(), i, h, o);
    lemma_kept_at_end(c, action, nothing_kept(), end, n, i, h, o);
    assert forall|q: int|
        0 <= q < ids.len() && q < hashes.len() && q < outcomes.len() implies kept_for(
        end,
        #[trigger] ids[q],
        hashes[q],
        outcomes[q],
    ) by {
        assert(i[q] == ids[q]);
    }
}

/// The thumbnail of an item is written right into the folder of thumbnails, under
/// the number of the item.
pub proof fn lemma_thumbnail_goes_to_its_item(
    c: BatchCommitter,
    report: Result<(), LumeError>,
    next: BatchCommitter,
    action: CommitAction,
)
    requires
        steps(c, report, next, action) || exists|todo: Seq<crate::commit::Work>| #[trigger]
            takes_next(c.thumbnails_dir@, todo, Seq::empty(), next, action),
    ensures
        action matches CommitAction::WriteThumbnail { file, path, jpeg } ==> path@
            == crate::path::joined(
            c.thumbnails_dir@,
            vstd::utf8::encode_utf8(crate::text::decimal(file as int) + ".jpg"@),
        ),
{
}

}
