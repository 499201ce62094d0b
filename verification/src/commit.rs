//! How an embedded item becomes visible.
//!
//! An item's thumbnail is written and its unit is stored before its state
//! becomes done. So an item that is done never lacks its thumbnail nor a unit to
//! be found by, wherever a run is cut short.
//!
//! A [`BatchCommitter`] says what is to be done next; the caller does it and
//! reports how it went.

use crate::error::LumeError;
use crate::path::{joined, MediaPath};
use crate::text::{decimal, decimal_i64};
use crate::traits::EmbedOutcome;
use crate::types::{Blake3Hash, EmbeddedUnit, Embedding, FileId, IndexState};
use vstd::prelude::*;
use vstd::utf8::encode_utf8;

verus! {

/// The name of an item's thumbnail.
pub open spec fn thumbnail_name(file: FileId) -> Seq<char> {
    decimal(file as int) + ".jpg"@
}

/// The name of an item's thumbnail.
pub fn thumbnail_file_name(file: FileId) -> (name: String)
    ensures
        name@ == thumbnail_name(file),
{
    let mut name: String = decimal_i64(file);
    name.append(".jpg");
    name
}

/// An item of a batch, with what came of embedding it.
#[derive(Debug)]
pub struct Work {
    pub file: FileId,
    pub hash: Blake3Hash,
    pub outcome: EmbedOutcome,
}

/// An item whose thumbnail is written.
#[derive(Debug)]
pub struct Committed {
    pub file: FileId,
    pub hash: Blake3Hash,
    pub emb: Embedding,
}

/// What a committer waits for.
#[derive(Debug)]
pub enum Stage {
    /// The thumbnail of an item is being written.
    Writing(Committed),
    /// An item is being marked as failed.
    Marking(FileId),
    /// The units are being stored.
    Inserting,
    /// The item with this number is being marked as done.
    Flipping(usize),
    /// Nothing: the batch is finished or given up.
    Over,
}

/// What is to be done next.
#[derive(Debug)]
pub enum CommitAction {
    /// Write a thumbnail.
    WriteThumbnail { file: FileId, path: MediaPath, jpeg: Vec<u8> },
    /// Set the state of an item, and its hash where one is given.
    SetState { file: FileId, state: IndexState, hash: Option<Blake3Hash> },
    /// Store the committer's units, all or none.
    InsertBatch,
    /// Nothing: this came of the batch.
    Finished(Result<(), LumeError>),
}

/// Commits one batch of outcomes.
#[derive(Debug)]
pub struct BatchCommitter {
    pub thumbnails_dir: MediaPath,
    /// The items that are left, the next one last.
    pub todo: Vec<Work>,
    /// The items whose thumbnails are written.
    pub embedded: Vec<Committed>,
    pub stage: Stage,
}

/// What a committer does when an item is dealt with: it takes the next one, or
/// stores the units if there are any.
pub open spec fn takes_next(
    dir: Seq<u8>,
    todo: Seq<Work>,
    embedded: Seq<Committed>,
    next: BatchCommitter,
    action: CommitAction,
) -> bool {
    &&& next.thumbnails_dir@ == dir
    &&& next.embedded@ == embedded
    &&& if todo.len() > 0 {
        let work = todo.last();
        &&& next.todo@ == todo.drop_last()
        &&& match work.outcome {
            EmbedOutcome::Embedded { emb, thumbnail_jpeg } => {
                &&& next.stage == Stage::Writing(
                    Committed { file: work.file, hash: work.hash, emb },
                )
                &&& action matches CommitAction::WriteThumbnail { file, path, jpeg }
                &&& file == work.file
                &&& path@ == joined(dir, encode_utf8(thumbnail_name(work.file)))
                &&& jpeg == thumbnail_jpeg
            },
            EmbedOutcome::Failed { reason } => {
                &&& next.stage == Stage::Marking(work.file)
                &&& action == (CommitAction::SetState {
                    file: work.file,
                    state: IndexState::Failed,
                    hash: None,
                })
            },
        }
    } else {
        &&& next.todo@ == todo
        &&& if embedded.len() == 0 {
            next.stage == Stage::Over && action == CommitAction::Finished(Ok(()))
        } else {
            next.stage == Stage::Inserting && action == CommitAction::InsertBatch
        }
    }
}

/// What a committer does when the units are stored: it marks one item after the
/// other as done.
pub open spec fn flips(
    c: BatchCommitter,
    k: nat,
    next: BatchCommitter,
    action: CommitAction,
) -> bool {
    &&& next.thumbnails_dir@ == c.thumbnails_dir@
    &&& next.embedded@ == c.embedded@
    &&& next.todo@ == c.todo@
    &&& if k < c.embedded@.len() {
        let item = c.embedded@[k as int];
        &&& next.stage == Stage::Flipping(k as usize)
        &&& action == (CommitAction::SetState {
            file: item.file,
            state: IndexState::Done,
            hash: Some(item.hash),
        })
    } else {
        next.stage == Stage::Over && action == CommitAction::Finished(Ok(()))
    }
}

/// What a committer does about the report on what it waited for.
pub open spec fn steps(
    c: BatchCommitter,
    report: Result<(), LumeError>,
    next: BatchCommitter,
    action: CommitAction,
) -> bool {
    match (c.stage, report) {
        (Stage::Writing(item), Ok(_)) => takes_next(
            c.thumbnails_dir@,
            c.todo@,
            c.embedded@.push(item),
            next,
            action,
        ),
        (Stage::Writing(item), Err(_)) => {
            &&& next.thumbnails_dir@ == c.thumbnails_dir@
            &&& next.todo@ == c.todo@
            &&& next.embedded@ == c.embedded@
            &&& next.stage == Stage::Marking(item.file)
            &&& action == (CommitAction::SetState {
                file: item.file,
                state: IndexState::Failed,
                hash: None,
            })
        },
        (Stage::Marking(_), Ok(_)) => takes_next(
            c.thumbnails_dir@,
            c.todo@,
            c.embedded@,
            next,
            action,
        ),
        (Stage::Inserting, Ok(_)) => flips(c, 0, next, action),
        (Stage::Flipping(k), Ok(_)) => flips(c, (k + 1) as nat, next, action),
        (_, report) => {
            &&& next.thumbnails_dir@ == c.thumbnails_dir@
            &&& next.todo@ == c.todo@
            &&& next.embedded@ == c.embedded@
            &&& next.stage == Stage::Over
            &&& action == CommitAction::Finished(report)
        },
    }
}

/// The items of a batch, the next one last. Ids, hashes and outcomes go
/// together by position; what has no counterpart is left out.
pub open spec fn work_of(
    file_ids: Seq<FileId>,
    hashes: Seq<Blake3Hash>,
    outcomes: Seq<EmbedOutcome>,
) -> Seq<Work> {
    let n = if file_ids.len() <= hashes.len() && file_ids.len() <= outcomes.len() {
        file_ids.len()
    } else if hashes.len() <= outcomes.len() {
        hashes.len()
    } else {
        outcomes.len()
    };
    Seq::new(
        n,
        |i: int|
            Work {
                file: file_ids[n - 1 - i],
                hash: hashes[n - 1 - i],
                outcome: outcomes[n - 1 - i],
            },
    )
}

impl BatchCommitter {
    /// Whether the item that is being marked as done is one of those whose
    /// thumbnails are written.
    pub open spec fn consistent(self) -> bool {
        self.stage matches Stage::Flipping(k) ==> k < self.embedded@.len()
    }

    /// A committer that writes thumbnails to a folder.
    pub fn new(thumbnails_dir: MediaPath) -> (committer: BatchCommitter)
        ensures
            committer.thumbnails_dir@ == thumbnails_dir@,
            committer.todo@.len() == 0,
            committer.embedded@.len() == 0,
            committer.stage == Stage::Over,
            committer.consistent(),
    {
        BatchCommitter {
            thumbnails_dir,
            todo: Vec::new(),
            embedded: Vec::new(),
            stage: Stage::Over,
        }
    }

    /// Begins to commit a batch, and says what is to be done first.
    pub fn commit(
        &mut self,
        file_ids: &Vec<FileId>,
        hashes: &Vec<Blake3Hash>,
        outcomes: Vec<EmbedOutcome>,
    ) -> (action: CommitAction)
        ensures
            takes_next(
                old(self).thumbnails_dir@,
                work_of(file_ids@, hashes@, outcomes@),
                Seq::empty(),
                *final(self),
                action,
            ),
            final(self).consistent(),
    {
        let ghost all = outcomes@;
        let mut outcomes = outcomes;
        let n: usize = if file_ids.len() <= hashes.len() && file_ids.len() <= outcomes.len() {
            file_ids.len()
        } else if hashes.len() <= outcomes.len() {
            hashes.len()
        } else {
            outcomes.len()
        };
        if n < outcomes.len() {
            outcomes.truncate(n);
        }
        let mut todo: Vec<Work> = Vec::new();
        let ghost work = work_of(file_ids@, hashes@, all);
        while outcomes.len() > 0
            invariant
                n == work.len(),
                n <= file_ids@.len(),
                n <= hashes@.len(),
                n <= all.len(),
                outcomes@.len() + todo@.len() == n,
                outcomes@ == all.take(outcomes@.len() as int),
                work == work_of(file_ids@, hashes@, all),
                todo@ == work.take(todo@.len() as int),
            decreases outcomes@.len(),
        {
            let outcome = outcomes.pop().unwrap();
            let i: usize = outcomes.len();
            assert(outcome == all[i as int]);
            assert(outcomes@ =~= all.take(i as int));
            todo.push(Work { file: file_ids[i], hash: hashes[i], outcome });
            assert(todo@ =~= work.take(todo@.len() as int));
        }
        assert(todo@ =~= work);
        self.todo = todo;
        self.embedded = Vec::new();
        assert(self.embedded@ =~= Seq::empty());
        self.take_next()
    }

    fn take_next(&mut self) -> (action: CommitAction)
        ensures
            takes_next(
                old(self).thumbnails_dir@,
                old(self).todo@,
                old(self).embedded@,
                *final(self),
                action,
            ),
    {
        match self.todo.pop() {
            Some(work) => match work.outcome {
                EmbedOutcome::Embedded { emb, thumbnail_jpeg } => {
                    let path = self.thumbnails_dir.join(thumbnail_file_name(work.file).as_str());
                    self.stage = Stage::Writing(
                        Committed { file: work.file, hash: work.hash, emb },
                    );
                    CommitAction::WriteThumbnail { file: work.file, path, jpeg: thumbnail_jpeg }
                },
                EmbedOutcome::Failed { .. } => {
                    self.stage = Stage::Marking(work.file);
                    CommitAction::SetState {
                        file: work.file,
                        state: IndexState::Failed,
                        hash: None,
                    }
                },
            },
            None => if self.embedded.len() == 0 {
                self.stage = Stage::Over;
                CommitAction::Finished(Ok(()))
            } else {
                self.stage = Stage::Inserting;
                CommitAction::InsertBatch
            },
        }
    }

    fn flip(&mut self, k: usize) -> (action: CommitAction)
        ensures
            flips(*old(self), k as nat, *final(self), action),
    {
        if k < self.embedded.len() {
            let file = self.embedded[k].file;
            let hash = self.embedded[k].hash;
            self.stage = Stage::Flipping(k);
            CommitAction::SetState { file, state: IndexState::Done, hash: Some(hash) }
        } else {
            self.stage = Stage::Over;
            CommitAction::Finished(Ok(()))
        }
    }

    /// Takes the report on what was to be done, and says what is to be done
    /// next. A thumbnail that cannot be written fails its item alone; whatever
    /// else fails is the end of the batch.
    pub fn next(&mut self, report: Result<(), LumeError>) -> (action: CommitAction)
        requires
            old(self).consistent(),
        ensures
            steps(*old(self), report, *final(self), action),
            final(self).consistent(),
    {
        let mut stage = Stage::Over;
        std::mem::swap(&mut stage, &mut self.stage);
        match stage {
            Stage::Writing(item) => match report {
                Ok(()) => {
                    self.embedded.push(item);
                    self.take_next()
                },
                Err(_) => {
                    self.stage = Stage::Marking(item.file);
                    CommitAction::SetState {
                        file: item.file,
                        state: IndexState::Failed,
                        hash: None,
                    }
                },
            },
            Stage::Marking(_) => match report {
                Ok(()) => self.take_next(),
                Err(e) => CommitAction::Finished(Err(e)),
            },
            Stage::Inserting => match report {
                Ok(()) => self.flip(0),
                Err(e) => CommitAction::Finished(Err(e)),
            },
            Stage::Flipping(k) => match report {
                Ok(()) => {
                    assert(k < self.embedded.len());
                    self.flip(k + 1)
                },
                Err(e) => CommitAction::Finished(Err(e)),
            },
            Stage::Over => CommitAction::Finished(report),
        }
    }

    /// The units to be stored: one for each item whose thumbnail is written.
    pub fn units(&self) -> (units: Vec<EmbeddedUnit<'_>>)
        ensures
            units@.len() == self.embedded@.len(),
            forall|i: int|
                0 <= i < units@.len() ==> {
                    &&& (#[trigger] units@[i]).file == self.embedded@[i].file
                    &&& units@[i].frame_ts is None
                    &&& *units@[i].emb == self.embedded@[i].emb
                },
    {
        let mut units: Vec<EmbeddedUnit<'_>> = Vec::new();
        let mut i: usize = 0;
        while i < self.embedded.len()
            invariant
                i <= self.embedded@.len(),
                units@.len() == i,
                forall|k: int|
                    0 <= k < i ==> {
                        &&& (#[trigger] units@[k]).file == self.embedded@[k].file
                        &&& units@[k].frame_ts is None
                        &&& *units@[k].emb == self.embedded@[k].emb
                    },
            decreases self.embedded@.len() - i,
        {
            let item = &self.embedded[i];
            units.push(EmbeddedUnit { file: item.file, frame_ts: None, emb: &item.emb });
            i += 1;
        }
        units
    }
}

// ---------------------------------------------------------------------------
// Laws
// ---------------------------------------------------------------------------

/// What a batch leaves behind: the items with a thumbnail on disk, the items
/// with a stored unit, and the states of the items.
pub struct World {
    pub thumbnails: Set<FileId>,
    pub searchable: Set<FileId>,
    pub states: Map<FileId, IndexState>,
}

impl World {
    /// Whether an item is done.
    pub open spec fn done(self, file: FileId) -> bool {
        self.states.contains_key(file) && self.states[file] == IndexState::Done
    }

    /// Whether an item is failed.
    pub open spec fn failed(self, file: FileId) -> bool {
        self.states.contains_key(file) && self.states[file] == IndexState::Failed
    }

    /// Whether no item that is done lacks its thumbnail or a unit to be found
    /// by.
    pub open spec fn trusted(self) -> bool {
        forall|file: FileId| #[trigger]
            self.done(file) ==> self.thumbnails.contains(file) && self.searchable.contains(file)
    }
}

/// Whether some items are among those of a committer whose thumbnails are
/// written.
pub open spec fn is_embedded(c: BatchCommitter, file: FileId) -> bool {
    exists|k: int| 0 <= k < c.embedded@.len() && (#[trigger] c.embedded@[k]).file == file
}

/// Whether an item is still to be dealt with.
pub open spec fn is_todo(c: BatchCommitter, file: FileId) -> bool {
    exists|k: int| 0 <= k < c.todo@.len() && (#[trigger] c.todo@[k]).file == file
}

/// Whether `now` can be what became of `before` when what a committer waits for
/// was done, or failed. A thumbnail that could not be written may have cost an
/// older one. A state that could not be set may be set all the same. Units are
/// stored all or none.
pub open spec fn performed(c: BatchCommitter, ok: bool, before: World, now: World) -> bool {
    match c.stage {
        Stage::Writing(item) => {
            &&& now.searchable == before.searchable
            &&& now.states == before.states
            &&& if ok {
                now.thumbnails == before.thumbnails.insert(item.file)
            } else {
                now.thumbnails == before.thumbnails || now.thumbnails == before.thumbnails.remove(
                    item.file,
                )
            }
        },
        Stage::Marking(file) => {
            &&& now.thumbnails == before.thumbnails
            &&& now.searchable == before.searchable
            &&& now.states == before.states.insert(file, IndexState::Failed) || (!ok && now.states
                == before.states)
        },
        Stage::Inserting => {
            &&& now.thumbnails == before.thumbnails
            &&& now.states == before.states
            &&& forall|file: FileId| #[trigger]
                now.searchable.contains(file) <==> before.searchable.contains(file) || (ok
                    && is_embedded(c, file))
        },
        Stage::Flipping(k) => {
            &&& now.thumbnails == before.thumbnails
            &&& now.searchable == before.searchable
            &&& now.states == before.states.insert(
                c.embedded@[k as int].file,
                IndexState::Done,
            ) || (!ok && now.states == before.states)
        },
        Stage::Over => now == before,
    }
}

/// What holds while a batch is committed.
pub open spec fn on_course(c: BatchCommitter, w: World, batch: Set<FileId>) -> bool {
    &&& c.consistent()
    &&& w.trusted()
    &&& distinct_items(c)
    &&& forall|k: int|
        0 <= k < c.embedded@.len() ==> batch.contains((#[trigger] c.embedded@[k]).file)
            && w.thumbnails.contains(c.embedded@[k].file)
    &&& forall|k: int| 0 <= k < c.todo@.len() ==> batch.contains((#[trigger] c.todo@[k]).file)
    &&& c.stage matches Stage::Writing(item) ==> batch.contains(item.file)
    &&& c.stage matches Stage::Marking(file) ==> batch.contains(file)
    &&& !(c.stage is Flipping) && !(c.stage is Over) ==> forall|file: FileId| #[trigger]
        batch.contains(file) ==> !w.done(file)
    &&& forall|file: FileId| #[trigger]
        batch.contains(file) ==> is_todo(c, file) || is_embedded(c, file) || w.failed(file) || (
        c.stage matches Stage::Writing(item) && item.file == file) || (
        c.stage matches Stage::Marking(f) && f == file) || c.stage is Over
    &&& c.stage is Inserting || c.stage is Flipping ==> c.todo@.len() == 0
    &&& c.stage matches Stage::Flipping(n) ==> {
        &&& forall|k: int|
            0 <= k < c.embedded@.len() ==> w.searchable.contains(
                (#[trigger] c.embedded@[k]).file,
            )
        &&& forall|k: int| 0 <= k < n ==> w.done((#[trigger] c.embedded@[k]).file)
    }
}

/// Whether no item occurs twice among those left, those whose thumbnails are
/// written, and the one at hand.
pub open spec fn distinct_items(c: BatchCommitter) -> bool {
    &&& forall|i: int, j: int|
        0 <= i < j < c.todo@.len() ==> (#[trigger] c.todo@[i]).file != (#[trigger] c.todo@[j]).file
    &&& forall|i: int, j: int|
        0 <= i < j < c.embedded@.len() ==> (#[trigger] c.embedded@[i]).file != (
        #[trigger] c.embedded@[j]).file
    &&& forall|i: int, j: int|
        0 <= i < c.todo@.len() && 0 <= j < c.embedded@.len() ==> (#[trigger] c.todo@[i]).file != (
        #[trigger] c.embedded@[j]).file
    &&& match c.stage {
        Stage::Writing(item) => {
            &&& forall|i: int| 0 <= i < c.todo@.len() ==> (#[trigger] c.todo@[i]).file != item.file
            &&& forall|i: int|
                0 <= i < c.embedded@.len() ==> (#[trigger] c.embedded@[i]).file != item.file
        },
        Stage::Marking(file) => {
            &&& forall|i: int| 0 <= i < c.todo@.len() ==> (#[trigger] c.todo@[i]).file != file
            &&& forall|i: int|
                0 <= i < c.embedded@.len() ==> (#[trigger] c.embedded@[i]).file != file
        },
        _ => true,
    }
}

/// Whether every item of a batch is done or failed.
pub open spec fn settled(w: World, batch: Set<FileId>) -> bool {
    forall|file: FileId| #[trigger] batch.contains(file) ==> w.done(file) || w.failed(file)
}

/// Whether `batch` are the items that ids, hashes and outcomes go together for,
/// each of them once.
pub open spec fn batch_of(work: Seq<Work>, batch: Set<FileId>) -> bool {
    &&& forall|i: int, j: int|
        0 <= i < j < work.len() ==> (#[trigger] work[i]).file != (#[trigger] work[j]).file
    &&& forall|i: int| 0 <= i < work.len() ==> batch.contains((#[trigger] work[i]).file)
    &&& forall|file: FileId| #[trigger]
        batch.contains(file) ==> exists|k: int|
            0 <= k < work.len() && (#[trigger] work[k]).file == file
}

/// A batch of different items, none of them done, begins on course.
pub proof fn lemma_commit_begins(
    dir: Seq<u8>,
    file_ids: Seq<FileId>,
    hashes: Seq<Blake3Hash>,
    outcomes: Seq<EmbedOutcome>,
    c: BatchCommitter,
    action: CommitAction,
    w: World,
    batch: Set<FileId>,
)
    requires
        takes_next(dir, work_of(file_ids, hashes, outcomes), Seq::empty(), c, action),
        batch_of(work_of(file_ids, hashes, outcomes), batch),
        w.trusted(),
        forall|file: FileId| #[trigger] batch.contains(file) ==> !w.done(file),
    ensures
        on_course(c, w, batch),
        action is Finished ==> settled(w, batch),
{
    lemma_take_next(
        dir,
        work_of(file_ids, hashes, outcomes),
        Seq::empty(),
        c,
        action,
        w,
        batch,
    );
}

/// Where there is an outcome and a hash for every id, and no id occurs twice, the
/// batch is made of the ids.
pub proof fn lemma_batch_of_ids(
    file_ids: Seq<FileId>,
    hashes: Seq<Blake3Hash>,
    outcomes: Seq<EmbedOutcome>,
    batch: Set<FileId>,
)
    requires
        file_ids.len() == hashes.len() == outcomes.len(),
        file_ids.no_duplicates(),
        forall|file: FileId| #[trigger] batch.contains(file) <==> file_ids.contains(file),
    ensures
        batch_of(work_of(file_ids, hashes, outcomes), batch),
{
    let work = work_of(file_ids, hashes, outcomes);
    let n = file_ids.len();
    assert forall|i: int, j: int| 0 <= i < j < work.len() implies (#[trigger] work[i]).file != (
    #[trigger] work[j]).file by {
        assert(file_ids[n - 1 - i] != file_ids[n - 1 - j]);
    }
    assert forall|i: int| 0 <= i < work.len() implies batch.contains((#[trigger] work[i]).file) by {
        assert(file_ids.contains(file_ids[n - 1 - i]));
    }
    assert forall|file: FileId| #[trigger] batch.contains(file) implies exists|k: int|
        0 <= k < work.len() && (#[trigger] work[k]).file == file by {
        let i = file_ids.index_of(file);
        assert(work[n - 1 - i].file == file);
    }
}

proof fn lemma_take_next(
    dir: Seq<u8>,
    todo: Seq<Work>,
    embedded: Seq<Committed>,
    c: BatchCommitter,
    action: CommitAction,
    w: World,
    batch: Set<FileId>,
)
    requires
        takes_next(dir, todo, embedded, c, action),
        w.trusted(),
        forall|i: int, j: int|
            0 <= i < j < todo.len() ==> (#[trigger] todo[i]).file != (#[trigger] todo[j]).file,
        forall|i: int, j: int|
            0 <= i < j < embedded.len() ==> (#[trigger] embedded[i]).file != (
            #[trigger] embedded[j]).file,
        forall|i: int, j: int|
            0 <= i < todo.len() && 0 <= j < embedded.len() ==> (#[trigger] todo[i]).file != (
            #[trigger] embedded[j]).file,
        forall|i: int| 0 <= i < todo.len() ==> batch.contains((#[trigger] todo[i]).file),
        forall|i: int|
            0 <= i < embedded.len() ==> batch.contains((#[trigger] embedded[i]).file)
                && w.thumbnails.contains(embedded[i].file),
        forall|file: FileId| #[trigger] batch.contains(file) ==> !w.done(file),
        forall|file: FileId| #[trigger]
            batch.contains(file) ==> w.failed(file) || (exists|k: int|
                0 <= k < todo.len() && (#[trigger] todo[k]).file == file) || (exists|k: int|
                0 <= k < embedded.len() && (#[trigger] embedded[k]).file == file),
    ensures
        on_course(c, w, batch),
        action matches CommitAction::Finished(r) ==> r is Ok && settled(w, batch),
{
    assert forall|file: FileId| #[trigger] batch.contains(file) implies is_todo(c, file)
        || is_embedded(c, file) || w.failed(file) || (c.stage matches Stage::Writing(item)
        && item.file == file) || (c.stage matches Stage::Marking(f) && f == file)
        || c.stage is Over by {
        if !w.failed(file) {
            if exists|k: int| 0 <= k < todo.len() && (#[trigger] todo[k]).file == file {
                let k = choose|k: int| 0 <= k < todo.len() && (#[trigger] todo[k]).file == file;
                if k < todo.len() - 1 {
                    assert(c.todo@[k].file == file);
                }
            } else {
                let k = choose|k: int|
                    0 <= k < embedded.len() && (#[trigger] embedded[k]).file == file;
                assert(c.embedded@[k].file == file);
            }
        }
    }
}

/// An item that is done never lacks its thumbnail nor a unit to be found by,
/// after every step and however the step went. A batch that is finished leaves
/// every item done or failed. Where the units could not be stored no item of the
/// batch is done, nothing of it can be found, and the error comes back.
pub proof fn lemma_commit_step(
    c: BatchCommitter,
    report: Result<(), LumeError>,
    next: BatchCommitter,
    action: CommitAction,
    before: World,
    now: World,
    batch: Set<FileId>,
)
    requires
        on_course(c, before, batch),
        !(c.stage is Over),
        performed(c, report is Ok, before, now),
        steps(c, report, next, action),
    ensures
        now.trusted(),
        on_course(next, now, batch),
        action == CommitAction::Finished(Ok(())) ==> settled(now, batch),
        c.stage is Inserting && report is Err ==> {
            &&& action == CommitAction::Finished(report)
            &&& now.states == before.states
            &&& forall|file: FileId| #[trigger] batch.contains(file) ==> !now.done(file)
            &&& forall|file: FileId| #[trigger]
                now.searchable.contains(file) <==> before.searchable.contains(file)
        },
{
    match c.stage {
        Stage::Writing(item) => {
            assert(batch.contains(item.file));
            assert forall|file: FileId| #[trigger] now.done(file) implies now.thumbnails.contains(
                file,
            ) && now.searchable.contains(file) by {
                assert(before.done(file));
            }
            assert forall|file: FileId| #[trigger] batch.contains(file) implies !now.done(file) by {
                assert(!before.done(file));
            }
            if report is Ok {
                let embedded = c.embedded@.push(item);
                assert forall|file: FileId| #[trigger] batch.contains(file) implies now.failed(file)
                    || (exists|k: int| 0 <= k < c.todo@.len() && (#[trigger] c.todo@[k]).file == file)
                    || (exists|k: int|
                    0 <= k < embedded.len() && (#[trigger] embedded[k]).file == file) by {
                    if is_embedded(c, file) {
                        let k = choose|k: int|
                            0 <= k < c.embedded@.len() && (#[trigger] c.embedded@[k]).file == file;
                        assert(embedded[k].file == file);
                    } else if item.file == file {
                        assert(embedded[embedded.len() - 1].file == file);
                    } else if !is_todo(c, file) {
                        assert(before.failed(file));
                    }
                }
                lemma_take_next(
                    c.thumbnails_dir@,
                    c.todo@,
                    embedded,
                    next,
                    action,
                    now,
                    batch,
                );
            } else {
                assert forall|file: FileId| #[trigger] batch.contains(file) implies is_todo(
                    next,
                    file,
                ) || is_embedded(next, file) || now.failed(file) || item.file == file by {
                    if is_todo(c, file) {
                        let k = choose|k: int|
                            0 <= k < c.todo@.len() && (#[trigger] c.todo@[k]).file == file;
                        assert(next.todo@[k].file == file);
                    }
                    if is_embedded(c, file) {
                        let k = choose|k: int|
                            0 <= k < c.embedded@.len() && (#[trigger] c.embedded@[k]).file == file;
                        assert(next.embedded@[k].file == file);
                    }
                    assert(before.failed(file) ==> now.failed(file));
                }
            }
        },
        Stage::Marking(marked) => {
            assert(batch.contains(marked));
            assert forall|file: FileId| #[trigger] now.done(file) implies now.thumbnails.contains(
                file,
            ) && now.searchable.contains(file) by {
                assert(before.done(file));
            }
            assert forall|file: FileId| #[trigger] batch.contains(file) implies !now.done(file) by {
                assert(!before.done(file));
            }
            if report is Ok {
                assert forall|file: FileId| #[trigger] batch.contains(file) implies now.failed(file)
                    || (exists|k: int| 0 <= k < c.todo@.len() && (#[trigger] c.todo@[k]).file == file)
                    || (exists|k: int|
                    0 <= k < c.embedded@.len() && (#[trigger] c.embedded@[k]).file == file) by {
                    if !is_todo(c, file) && !is_embedded(c, file) && file != marked {
                        assert(before.failed(file));
                    }
                }
                lemma_take_next(
                    c.thumbnails_dir@,
                    c.todo@,
                    c.embedded@,
                    next,
                    action,
                    now,
                    batch,
                );
            }
        },
        Stage::Inserting => {
            assert forall|file: FileId| #[trigger] now.done(file) implies now.thumbnails.contains(
                file,
            ) && now.searchable.contains(file) by {
                assert(before.done(file));
            }
            assert forall|file: FileId| #[trigger] batch.contains(file) implies !now.done(file) by {
                assert(!before.done(file));
            }
            if report is Ok {
                assert forall|k: int| 0 <= k < c.embedded@.len() implies now.searchable.contains(
                    (#[trigger] c.embedded@[k]).file,
                ) by {
                    assert(is_embedded(c, c.embedded@[k].file));
                }
                lemma_flip(c, 0, next, action, before, now, batch);
            }
        },
        Stage::Flipping(n) => {
            let item = c.embedded@[n as int];
            assert(now.thumbnails.contains(item.file));
            assert forall|file: FileId| #[trigger] now.done(file) implies now.thumbnails.contains(
                file,
            ) && now.searchable.contains(file) by {
                if file != item.file {
                    assert(before.done(file));
                }
            }
            if report is Ok {
                assert forall|k: int| 0 <= k < n + 1 implies now.done(
                    (#[trigger] c.embedded@[k]).file,
                ) by {
                    if k < n {
                        assert(before.done(c.embedded@[k].file));
                    }
                }
                lemma_flip(c, (n + 1) as nat, next, action, before, now, batch);
            }
        },
        Stage::Over => {},
    }
}

proof fn lemma_flip(
    c: BatchCommitter,
    k: nat,
    next: BatchCommitter,
    action: CommitAction,
    before: World,
    now: World,
    batch: Set<FileId>,
)
    requires
        on_course(c, before, batch),
        c.stage is Inserting || c.stage is Flipping,
        now.trusted(),
        now.thumbnails == before.thumbnails,
        flips(c, k, next, action),
        k <= c.embedded@.len(),
        forall|file: FileId| #[trigger]
            batch.contains(file) && !is_embedded(c, file) ==> (before.failed(file) ==> now.failed(
                file,
            )),
        forall|i: int|
            0 <= i < c.embedded@.len() ==> now.searchable.contains(
                (#[trigger] c.embedded@[i]).file,
            ),
        forall|i: int| 0 <= i < k ==> now.done((#[trigger] c.embedded@[i]).file),
    ensures
        on_course(next, now, batch),
        action == CommitAction::Finished(Ok(())) ==> settled(now, batch),
{
    assert(c.embedded.len() == c.embedded@.len());
    assert forall|file: FileId| #[trigger] batch.contains(file) implies is_embedded(next, file)
        || now.failed(file) by {
        assert(!is_todo(c, file));
        if is_embedded(c, file) {
            let i = choose|i: int|
                0 <= i < c.embedded@.len() && (#[trigger] c.embedded@[i]).file == file;
            assert(next.embedded@[i].file == file);
        }
    }
    if k == c.embedded@.len() {
        assert forall|file: FileId| #[trigger] batch.contains(file) implies now.done(file)
            || now.failed(file) by {
            if is_embedded(c, file) {
                let i = choose|i: int|
                    0 <= i < c.embedded@.len() && (#[trigger] c.embedded@[i]).file == file;
                assert(now.done(c.embedded@[i].file));
            } else {
                assert(!is_embedded(next, file));
            }
        }
    }
}

}
