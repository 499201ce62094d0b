//! A run over one folder: what is to be done, step by step.
//!
//! A run walks the folder, then takes its items in batches. Each item is looked
//! at and prepared; those that are to be embedded are embedded and committed
//! together. At the end the items that are no longer there are removed. An
//! [`Indexer`] says what is to be done next; the caller does it and reports what
//! came of it.

use crate::error::LumeError;
use crate::path::{components, MediaPath, PathSet};
use crate::progress::Progress;
use crate::sort::sorts;
use crate::store::ScannedItem;
use crate::traits::EmbedOutcome;
use crate::types::{Blake3Hash, EmbedUnit, FileId, MediaKind};
use crate::walk::{images, primaries, walk_folder, WalkEntry};
use vstd::prelude::*;

verus! {

/// What looking at a file finds: its size, the seconds from the epoch to its last
/// change, where that is known and not before it, and its hash.
#[derive(Clone, Copy, Debug, PartialEq, Eq)]
pub struct FileFacts {
    pub size: u64,
    pub modified: Option<u64>,
    pub hash: Blake3Hash,
}

/// What a run waits for.
#[derive(Clone, Copy, Debug, PartialEq, Eq)]
pub enum RunStage {
    /// Nothing: no run is under way.
    Idle,
    /// The folder for thumbnails is being created.
    Creating,
    /// The folder is being walked.
    Walking,
    /// An item is being looked at.
    Inspecting,
    /// An item with this hash is being prepared.
    Preparing(Blake3Hash),
    /// The units of a batch are being embedded.
    Embedding,
    /// A batch is being committed.
    Committing,
    /// The items that are gone are being removed.
    Removing,
}

/// What is to be done next.
#[derive(Debug)]
pub enum RunAction {
    /// Create the folder for thumbnails.
    CreateFolder(MediaPath),
    /// Walk the folder.
    Walk(MediaPath),
    /// Look at a file.
    Inspect(MediaPath),
    /// Prepare an item in the store.
    Prepare(ScannedItem),
    /// Embed the run's units.
    Embed,
    /// Commit these outcomes for the run's file ids and hashes.
    Commit(Vec<EmbedOutcome>),
    /// Remove the items under the folder that the run has not seen.
    DeleteMissing,
    /// Nothing: this came of the run.
    Finished(Result<(), LumeError>),
}

/// What came of what was to be done.
#[derive(Debug)]
pub enum RunReport {
    /// A folder was created, a batch committed, or items removed.
    Done(Result<(), LumeError>),
    /// The folder was walked.
    Walked(Vec<WalkEntry>),
    /// A file was looked at.
    Inspected(Result<FileFacts, LumeError>),
    /// An item was prepared: it is to be embedded under this id, or not at all.
    Prepared(Result<Option<FileId>, LumeError>),
    /// The units were embedded.
    Embedded(Result<Vec<EmbedOutcome>, LumeError>),
}

/// Indexes one folder.
#[derive(Debug)]
pub struct Indexer {
    pub root: MediaPath,
    pub batch_size: usize,
    pub thumbnails_dir: MediaPath,
    pub progress: Progress,
    pub stage: RunStage,
    /// The items of the folder, in the order of their paths.
    pub items: Vec<MediaPath>,
    /// The paths of the items.
    pub seen: PathSet,
    /// Where the batch at hand begins.
    pub from: usize,
    /// Where the item at hand stands.
    pub at: usize,
    /// The ids of the batch's items that are to be embedded.
    pub file_ids: Vec<FileId>,
    /// Their hashes.
    pub hashes: Vec<Blake3Hash>,
    /// Their units.
    pub units: Vec<EmbedUnit>,
}

/// The modification time that is stored: whole seconds, or zero.
pub open spec fn stored_time(modified: Option<u64>) -> i64 {
    match modified {
        Some(seconds) => seconds as i64,
        None => 0,
    }
}

/// Where a batch ends.
pub open spec fn batch_end(from: int, batch_size: int, count: int) -> int {
    if count - from <= batch_size {
        count
    } else {
        from + batch_size
    }
}

/// Whether some paths are those of the items that were seen.
pub open spec fn saw(seen: PathSet, items: Seq<MediaPath>) -> bool {
    forall|k: Seq<Seq<u8>>| #[trigger]
        seen@.contains(k) <==> exists|i: int|
            0 <= i < items.len() && #[trigger] components(items[i]@) == k
}

impl Indexer {
    /// Whether the batch and the item at hand are within the items.
    pub open spec fn consistent(self) -> bool {
        &&& self.batch_size >= 1
        &&& self.from <= self.items@.len()
        &&& self.file_ids@.len() == self.hashes@.len() == self.units@.len()
        &&& self.stage is Inspecting || self.stage is Preparing ==> self.from <= self.at
            < self.end()
        &&& self.stage is Embedding || self.stage is Committing ==> self.from < self.items@.len()
        &&& self.stage is Removing ==> self.from == self.items@.len()
    }

    /// Where the batch at hand ends.
    pub open spec fn end(self) -> int {
        batch_end(self.from as int, self.batch_size as int, self.items@.len() as int)
    }

    /// Whether a report is about what the run waits for.
    pub open spec fn expects(self, report: RunReport) -> bool {
        match self.stage {
            RunStage::Idle => false,
            RunStage::Creating | RunStage::Committing | RunStage::Removing => report is Done,
            RunStage::Walking => report is Walked,
            RunStage::Inspecting => report is Inspected,
            RunStage::Preparing(_) => report is Prepared,
            RunStage::Embedding => report is Embedded,
        }
    }

    /// Whether the folders and the batch size are the same.
    pub open spec fn same_job(self, other: Indexer) -> bool {
        &&& self.root@ == other.root@
        &&& self.thumbnails_dir@ == other.thumbnails_dir@
        &&& self.batch_size == other.batch_size
    }

    /// Whether the items and what was seen are the same.
    pub open spec fn same_items(self, other: Indexer) -> bool {
        &&& self.same_job(other)
        &&& self.items@ == other.items@
        &&& self.seen == other.seen
    }

    /// Whether the work of the batch is the same.
    pub open spec fn same_work(self, other: Indexer) -> bool {
        &&& self.file_ids@ == other.file_ids@
        &&& self.hashes@ == other.hashes@
        &&& self.units@ == other.units@
    }
}

/// Whether `next` begins the batch at `from`, or removes what is gone if there is
/// none.
pub open spec fn enters_batch(from: int, next: Indexer, action: RunAction) -> bool {
    &&& next.from == from
    &&& next.file_ids@.len() == 0
    &&& next.hashes@.len() == 0
    &&& next.units@.len() == 0
    &&& if from < next.items@.len() {
        &&& next.at == from
        &&& next.stage is Inspecting
        &&& action matches RunAction::Inspect(path)
        &&& path@ == next.items@[from]@
    } else {
        next.stage is Removing && action is DeleteMissing
    }
}

/// Whether `next` has counted the batch of `x` and gone on to the one after it.
pub open spec fn leaves_batch(x: Indexer, next: Indexer, action: RunAction) -> bool {
    &&& next.same_items(x)
    &&& next.progress.so_far().0 == (x.progress.so_far().0 + (x.end() - x.from))
        % 0x1_0000_0000_0000_0000
    &&& next.progress.so_far().1 == x.progress.so_far().1
    &&& enters_batch(x.end(), next, action)
}

/// Whether `next` has noted for the item at hand that it is to be embedded, or
/// that it is not.
pub open spec fn notes(x: Indexer, hash: Blake3Hash, id: Option<FileId>, next: Indexer) -> bool {
    match id {
        Some(file) => {
            &&& next.file_ids@ == x.file_ids@.push(file)
            &&& next.hashes@ == x.hashes@.push(hash)
            &&& next.units@.len() == x.units@.len() + 1
            &&& next.units@.drop_last() == x.units@
            &&& next.units@.last().file == file
            &&& next.units@.last().path@ == x.items@[x.at as int]@
            &&& next.units@.last().frame_ts is None
        },
        None => next.same_work(x),
    }
}

/// Whether a run that is given up says why.
pub open spec fn gives_up(x: Indexer, error: LumeError, next: Indexer, action: RunAction) -> bool {
    &&& next.same_items(x)
    &&& next.progress == x.progress
    &&& next.stage is Idle
    &&& action == RunAction::Finished(Err(error))
}

/// Whether `next` has prepared the item at hand and goes on: to the next item of
/// the batch, to embedding what is to be embedded, or past the batch.
pub open spec fn prepared(
    x: Indexer,
    hash: Blake3Hash,
    id: Option<FileId>,
    next: Indexer,
    action: RunAction,
) -> bool {
    let todo = if id is Some {
        x.file_ids@.len() + 1
    } else {
        x.file_ids@.len()
    };
    if x.at + 1 < x.end() {
        &&& next.same_items(x)
        &&& next.progress == x.progress
        &&& next.from == x.from
        &&& next.at == x.at + 1
        &&& notes(x, hash, id, next)
        &&& next.stage is Inspecting
        &&& action matches RunAction::Inspect(path)
        &&& path@ == x.items@[x.at + 1]@
    } else if todo > 0 {
        &&& next.same_items(x)
        &&& next.progress == x.progress
        &&& next.from == x.from
        &&& notes(x, hash, id, next)
        &&& next.stage is Embedding
        &&& action is Embed
    } else {
        leaves_batch(x, next, action)
    }
}

/// What a run does about a report.
pub open spec fn moves(x: Indexer, report: RunReport, next: Indexer, action: RunAction) -> bool {
    match (x.stage, report) {
        (RunStage::Creating, RunReport::Done(Ok(_))) => {
            &&& next.same_items(x)
            &&& next.progress == x.progress
            &&& next.stage is Walking
            &&& action matches RunAction::Walk(root)
            &&& root@ == x.root@
        },
        (RunStage::Walking, RunReport::Walked(entries)) => {
            &&& next.same_job(x)
            &&& sorts(next.items@, primaries(images(entries@)))
            &&& saw(next.seen, next.items@)
            &&& next.progress.so_far() == (x.progress.so_far().0, next.items@.len() as u64)
            &&& enters_batch(0, next, action)
        },
        (RunStage::Inspecting, RunReport::Inspected(Ok(facts))) => {
            &&& next.same_items(x)
            &&& next.same_work(x)
            &&& next.progress == x.progress
            &&& next.from == x.from
            &&& next.at == x.at
            &&& next.stage == RunStage::Preparing(facts.hash)
            &&& action matches RunAction::Prepare(item)
            &&& item.path@ == x.items@[x.at as int]@
            &&& item.kind == MediaKind::Image
            &&& item.size == facts.size
            &&& item.mtime == stored_time(facts.modified)
            &&& item.hash == facts.hash
        },
        (RunStage::Preparing(hash), RunReport::Prepared(Ok(id))) => prepared(
            x,
            hash,
            id,
            next,
            action,
        ),
        (RunStage::Embedding, RunReport::Embedded(Ok(outcomes))) => {
            &&& next.same_items(x)
            &&& next.same_work(x)
            &&& next.progress == x.progress
            &&& next.from == x.from
            &&& next.stage is Committing
            &&& action == RunAction::Commit(outcomes)
        },
        (RunStage::Committing, RunReport::Done(Ok(_))) => leaves_batch(x, next, action),
        (RunStage::Removing, RunReport::Done(Ok(_))) => {
            &&& next.same_items(x)
            &&& next.progress == x.progress
            &&& next.stage is Idle
            &&& action == RunAction::Finished(Ok(()))
        },
        (_, RunReport::Done(Err(e))) => gives_up(x, e, next, action),
        (_, RunReport::Inspected(Err(e))) => gives_up(x, e, next, action),
        (_, RunReport::Prepared(Err(e))) => gives_up(x, e, next, action),
        (_, RunReport::Embedded(Err(e))) => gives_up(x, e, next, action),
        _ => false,
    }
}

impl Indexer {
    /// An indexer of a folder. A batch holds at least one item.
    pub fn new(root: MediaPath, batch_size: usize, thumbnails_dir: MediaPath) -> (indexer: Indexer)
        ensures
            indexer.root@ == root@,
            indexer.thumbnails_dir@ == thumbnails_dir@,
            indexer.batch_size == if batch_size == 0 {
                1
            } else {
                batch_size
            },
            indexer.progress.so_far() == (0u64, 0u64),
            indexer.stage is Idle,
            indexer.consistent(),
    {
        let items: Vec<MediaPath> = Vec::new();
        let seen = PathSet::from_paths(&items);
        Indexer {
            root,
            batch_size: if batch_size == 0 {
                1
            } else {
                batch_size
            },
            thumbnails_dir,
            progress: Progress::default(),
            stage: RunStage::Idle,
            items,
            seen,
            from: 0,
            at: 0,
            file_ids: Vec::new(),
            hashes: Vec::new(),
            units: Vec::new(),
        }
    }

    /// How far the runs have come.
    pub fn progress(&self) -> (progress: Progress)
        ensures
            progress == self.progress,
    {
        self.progress
    }

    /// Begins a run, and says what is to be done first.
    pub fn run(&mut self) -> (action: RunAction)
        requires
            old(self).consistent(),
        ensures
            final(self).consistent(),
            final(self).same_items(*old(self)),
            final(self).progress == old(self).progress,
            final(self).stage is Creating,
            action matches RunAction::CreateFolder(path) && path@ == old(self).thumbnails_dir@,
    {
        self.stage = RunStage::Creating;
        RunAction::CreateFolder(self.thumbnails_dir.clone())
    }

    fn batch_end(&self) -> (end: usize)
        requires
            self.consistent(),
        ensures
            end == self.end(),
            self.from <= end <= self.items@.len(),
    {
        if self.items.len() - self.from <= self.batch_size {
            self.items.len()
        } else {
            self.from + self.batch_size
        }
    }

    fn enter_batch(&mut self, from: usize) -> (action: RunAction)
        requires
            old(self).consistent(),
            from <= old(self).items@.len(),
        ensures
            final(self).consistent(),
            final(self).same_items(*old(self)),
            final(self).progress == old(self).progress,
            enters_batch(from as int, *final(self), action),
    {
        self.from = from;
        self.file_ids = Vec::new();
        self.hashes = Vec::new();
        self.units = Vec::new();
        if from < self.items.len() {
            self.at = from;
            self.stage = RunStage::Inspecting;
            RunAction::Inspect(self.items[from].clone())
        } else {
            self.stage = RunStage::Removing;
            RunAction::DeleteMissing
        }
    }

    fn leave_batch(&mut self) -> (action: RunAction)
        requires
            old(self).consistent(),
        ensures
            final(self).consistent(),
            leaves_batch(*old(self), *final(self), action),
    {
        let end: usize = self.batch_end();
        self.progress.add_done((end - self.from) as u64);
        self.enter_batch(end)
    }

    fn give_up(&mut self, error: LumeError) -> (action: RunAction)
        requires
            old(self).consistent(),
        ensures
            final(self).consistent(),
            gives_up(*old(self), error, *final(self), action),
    {
        self.stage = RunStage::Idle;
        RunAction::Finished(Err(error))
    }

    fn item_prepared(&mut self, hash: Blake3Hash, id: Option<FileId>) -> (action: RunAction)
        requires
            old(self).consistent(),
            old(self).stage is Preparing,
        ensures
            final(self).consistent(),
            prepared(*old(self), hash, id, *final(self), action),
    {
        let ghost before = *self;
        if let Some(file) = id {
            let unit = EmbedUnit { file, path: self.items[self.at].clone(), frame_ts: None };
            self.file_ids.push(file);
            self.hashes.push(hash);
            self.units.push(unit);
            assert(self.units@.drop_last() =~= before.units@);
        }
        let end: usize = self.batch_end();
        if self.at + 1 < end {
            self.at = self.at + 1;
            self.stage = RunStage::Inspecting;
            RunAction::Inspect(self.items[self.at].clone())
        } else if self.file_ids.len() > 0 {
            self.stage = RunStage::Embedding;
            RunAction::Embed
        } else {
            self.leave_batch()
        }
    }

    /// Takes the report on what was to be done, and says what is to be done
    /// next. Any error ends the run.
    pub fn next(&mut self, report: RunReport) -> (action: RunAction)
        requires
            old(self).consistent(),
            old(self).expects(report),
        ensures
            final(self).consistent(),
            moves(*old(self), report, *final(self), action),
    {
        match report {
            RunReport::Done(Err(e)) => self.give_up(e),
            RunReport::Inspected(Err(e)) => self.give_up(e),
            RunReport::Prepared(Err(e)) => self.give_up(e),
            RunReport::Embedded(Err(e)) => self.give_up(e),
            RunReport::Done(Ok(())) => match self.stage {
                RunStage::Creating => {
                    self.stage = RunStage::Walking;
                    RunAction::Walk(self.root.clone())
                },
                RunStage::Committing => self.leave_batch(),
                _ => {
                    self.stage = RunStage::Idle;
                    RunAction::Finished(Ok(()))
                },
            },
            RunReport::Walked(entries) => {
                let items = walk_folder(entries);
                self.seen = PathSet::from_paths(&items);
                self.progress.set_total(items.len() as u64);
                self.stage = RunStage::Idle;
                self.items = items;
                self.from = 0;
                assert(saw(self.seen, self.items@));
                self.enter_batch(0)
            },
            RunReport::Inspected(Ok(facts)) => {
                self.stage = RunStage::Preparing(facts.hash);
                RunAction::Prepare(
                    ScannedItem {
                        path: self.items[self.at].clone(),
                        kind: MediaKind::Image,
                        size: facts.size,
                        mtime: match facts.modified {
                            Some(seconds) => #[verifier::truncate] (seconds as i64),
                            None => 0,
                        },
                        hash: facts.hash,
                    },
                )
            },
            RunReport::Prepared(Ok(id)) => match self.stage {
                RunStage::Preparing(hash) => self.item_prepared(hash, id),
                _ => RunAction::Finished(Ok(())),
            },
            RunReport::Embedded(Ok(outcomes)) => {
                self.stage = RunStage::Committing;
                RunAction::Commit(outcomes)
            },
        }
    }
}

// ---------------------------------------------------------------------------
// Laws
// ---------------------------------------------------------------------------

/// Whether the progress of a first run counts the items before the batch at hand,
/// of all items.
pub open spec fn on_track(x: Indexer) -> bool {
    match x.stage {
        RunStage::Idle | RunStage::Creating | RunStage::Walking => x.progress.so_far().0 == 0,
        _ => x.progress.so_far() == (x.from as u64, x.items@.len() as u64) && x.items@.len()
            <= u64::MAX,
    }
}

/// A first run counts each item once: in every step the items before the batch
/// at hand are counted, never more than there are, and at the end all are.
pub proof fn lemma_progress(x: Indexer, report: RunReport, next: Indexer, action: RunAction)
    requires
        x.consistent(),
        x.expects(report),
        moves(x, report, next, action),
        next.consistent(),
        on_track(x),
    ensures
        !(action is Finished) ==> on_track(next),
        !(action is Finished) ==> next.progress.so_far().0 <= next.progress.so_far().1
            || next.stage is Walking,
        action is DeleteMissing ==> next.progress.so_far() == (
            next.items@.len() as u64,
            next.items@.len() as u64,
        ),
        action == RunAction::Finished(Ok(())) ==> next.progress.so_far() == (
            next.items@.len() as u64,
            next.items@.len() as u64,
        ),
{
    assert(next.items.len() == next.items@.len());
    assert(x.items.len() == x.items@.len());
}

/// Batches follow one another without gaps: each begins where the one before it
/// ended, and holds as many items as the batch size allows.
pub proof fn lemma_batches(x: Indexer)
    requires
        x.consistent(),
        x.from < x.items@.len(),
    ensures
        x.from < x.end() <= x.items@.len(),
        x.end() - x.from <= x.batch_size,
        x.end() < x.items@.len() ==> x.end() - x.from == x.batch_size,
{
}

/// How many items a run has prepared.
pub open spec fn dealt_with(x: Indexer) -> int {
    match x.stage {
        RunStage::Inspecting | RunStage::Preparing(_) => x.at as int,
        RunStage::Embedding | RunStage::Committing => x.end(),
        RunStage::Removing => x.items@.len() as int,
        _ => 0,
    }
}

/// A run prepares every item once, in the order of the items: the item that is
/// looked at and prepared is the next one, and only when all are prepared are the
/// missing ones removed.
pub proof fn lemma_items_in_order(x: Indexer, report: RunReport, next: Indexer, action: RunAction)
    requires
        x.consistent(),
        x.expects(report),
        moves(x, report, next, action),
        next.consistent(),
    ensures
        action matches RunAction::Inspect(path) ==> dealt_with(next) < next.items@.len() && path@
            == next.items@[dealt_with(next)]@,
        action matches RunAction::Prepare(item) ==> dealt_with(next) == dealt_with(x)
            && item.path@ == x.items@[dealt_with(x)]@,
        x.stage is Preparing && !(action is Finished) ==> dealt_with(next) == dealt_with(x) + 1,
        x.stage is Embedding || x.stage is Committing ==> (!(action is Finished)
            ==> dealt_with(next) == dealt_with(x)),
        x.stage is Walking ==> dealt_with(next) == 0,
        action is DeleteMissing ==> dealt_with(next) == next.items@.len(),
{
}

/// The sidecar is not asked for a batch of which no item is to be embedded.
pub proof fn lemma_nothing_to_embed(x: Indexer, next: Indexer, action: RunAction)
    requires
        x.consistent(),
        x.stage is Preparing,
        x.file_ids@.len() == 0,
        moves(x, RunReport::Prepared(Ok(None)), next, action),
    ensures
        !(action is Embed),
        next.file_ids@.len() == 0,
{
}

/// Whether the ids and the units of a batch go together by position, and every
/// unit is a whole image.
pub open spec fn work_matches(x: Indexer) -> bool {
    &&& x.file_ids@.len() == x.units@.len()
    &&& forall|i: int|
        0 <= i < x.units@.len() ==> (#[trigger] x.units@[i]).file == x.file_ids@[i]
            && x.units@[i].frame_ts is None
}

/// What is embedded and committed goes together: the ids and the units of a batch
/// match in every step.
pub proof fn lemma_work_matches(x: Indexer, report: RunReport, next: Indexer, action: RunAction)
    requires
        x.consistent(),
        x.expects(report),
        moves(x, report, next, action),
        next.consistent(),
        work_matches(x),
        !(x.stage is Creating),
        !(action is Finished),
    ensures
        work_matches(next),
{
    if let (RunStage::Preparing(_), RunReport::Prepared(Ok(Some(file)))) = (x.stage, report) {
        if next.file_ids@.len() == x.file_ids@.len() + 1 && notes(x, x.stage->Preparing_0, Some(file), next) {
            assert forall|i: int| 0 <= i < next.units@.len() implies (
            #[trigger] next.units@[i]).file == next.file_ids@[i] && next.units@[i].frame_ts is None by {
                if i < x.units@.len() {
                    assert(next.units@.drop_last()[i] == next.units@[i]);
                    assert(x.units@[i] == next.units@[i]);
                }
            }
        }
    }
}

/// The time that is stored is the number of seconds, where that fits, and zero where
/// the time is not known.
pub proof fn lemma_stored_time(modified: Option<u64>)
    ensures
        modified matches Some(seconds) ==> (seconds <= i64::MAX ==> stored_time(modified)
            == seconds),
        modified is None ==> stored_time(modified) == 0,
{
}

/// What is prepared is the file that was looked at: its path, its size, its time and
/// its hash.
pub proof fn lemma_prepares_what_was_found(
    x: Indexer,
    facts: FileFacts,
    next: Indexer,
    action: RunAction,
)
    requires
        x.consistent(),
        x.stage is Inspecting,
        moves(x, RunReport::Inspected(Ok(facts)), next, action),
    ensures
        action matches RunAction::Prepare(item) && {
            &&& item.path@ == x.items@[x.at as int]@
            &&& item.kind == MediaKind::Image
            &&& item.size == facts.size
            &&& item.hash == facts.hash
            &&& facts.modified matches Some(seconds) ==> (seconds <= i64::MAX ==> item.mtime
                == seconds)
            &&& facts.modified is None ==> item.mtime == 0
        },
        next.stage == RunStage::Preparing(facts.hash),
        next.at == x.at,
        next.items@ == x.items@,
        next.seen == x.seen,
{
}

/// An item that is to be embedded is noted with its own id, its own hash and its own
/// path, after those that were noted before; one that is not is not noted. Only where
/// the batch is left behind are the notes gone.
pub proof fn lemma_notes_the_item(
    x: Indexer,
    hash: Blake3Hash,
    id: Option<FileId>,
    next: Indexer,
    action: RunAction,
)
    requires
        x.consistent(),
        x.stage == RunStage::Preparing(hash),
        moves(x, RunReport::Prepared(Ok(id)), next, action),
    ensures
        id matches Some(file) ==> {
            &&& next.file_ids@ == x.file_ids@.push(file)
            &&& next.hashes@ == x.hashes@.push(hash)
            &&& next.units@.len() == x.units@.len() + 1
            &&& forall|k: int|
                0 <= k < x.units@.len() ==> #[trigger] next.units@[k] == x.units@[k]
            &&& next.units@[x.units@.len() as int].file == file
            &&& next.units@[x.units@.len() as int].path@ == x.items@[x.at as int]@
            &&& next.units@[x.units@.len() as int].frame_ts is None
        },
        id is None && (x.at + 1 < x.end() || x.file_ids@.len() > 0) ==> next.file_ids@ == x.file_ids@
            && next.hashes@ == x.hashes@ && next.units@ == x.units@,
        action is Embed <==> x.at + 1 >= x.end() && (id is Some || x.file_ids@.len() > 0),
        next.items@ == x.items@,
{
    if id is Some {
        assert forall|k: int| 0 <= k < x.units@.len() implies #[trigger] next.units@[k]
            == x.units@[k] by {
            assert(next.units@.drop_last()[k] == next.units@[k]);
        }
    }
}

/// What is committed are the outcomes as the sidecar gave them, for the ids and the
/// hashes that were noted.
pub proof fn lemma_commits_the_answers(
    x: Indexer,
    outcomes: Vec<EmbedOutcome>,
    next: Indexer,
    action: RunAction,
)
    requires
        x.consistent(),
        x.stage is Embedding,
        moves(x, RunReport::Embedded(Ok(outcomes)), next, action),
    ensures
        action matches RunAction::Commit(given) && given@ == outcomes@,
        next.file_ids@ == x.file_ids@,
        next.hashes@ == x.hashes@,
        next.units@ == x.units@,
{
}

/// The paths that count as seen are those of all items and no others, whatever the
/// spelling.
pub proof fn lemma_seen_are_the_items(
    x: Indexer,
    entries: Vec<WalkEntry>,
    next: Indexer,
    action: RunAction,
)
    requires
        x.consistent(),
        x.stage is Walking,
        moves(x, RunReport::Walked(entries), next, action),
    ensures
        forall|i: int|
            0 <= i < next.items@.len() ==> next.seen@.contains(
                components((#[trigger] next.items@[i])@),
            ),
        forall|k: Seq<Seq<u8>>| #[trigger]
            next.seen@.contains(k) ==> exists|i: int|
                0 <= i < next.items@.len() && components((#[trigger] next.items@[i])@) == k,
        sorts(next.items@, primaries(images(entries@))),
{
    assert forall|i: int| 0 <= i < next.items@.len() implies next.seen@.contains(
        components((#[trigger] next.items@[i])@),
    ) by {
        let k = components(next.items@[i]@);
        assert(exists|j: int|
            0 <= j < next.items@.len() && #[trigger] components(next.items@[j]@) == k);
    }
    assert forall|k: Seq<Seq<u8>>| #[trigger] next.seen@.contains(k) implies exists|i: int|
        0 <= i < next.items@.len() && components((#[trigger] next.items@[i])@) == k by {
        let i = choose|i: int| 0 <= i < next.items@.len() && #[trigger] components(next.items@[i]@)
            == k;
        assert(components(next.items@[i]@) == k);
    }
}

/// A run that is given up ends with the very error that was reported.
pub proof fn lemma_error_comes_back(
    x: Indexer,
    report: RunReport,
    error: LumeError,
    next: Indexer,
    action: RunAction,
)
    requires
        x.expects(report),
        moves(x, report, next, action),
        report == RunReport::Done(Err(error)) || report == RunReport::Inspected(Err(error))
            || report == RunReport::Prepared(Err(error)) || report == RunReport::Embedded(
            Err(error),
        ),
    ensures
        action == RunAction::Finished(Err(error)),
        next.stage is Idle,
{
}

/// A run walks its own folder, looks for what is gone once its last batch is over and not
/// before, and ends well only after that.
pub proof fn lemma_run_in_order(x: Indexer, report: RunReport, next: Indexer, action: RunAction)
    requires
        x.consistent(),
        x.expects(report),
        moves(x, report, next, action),
    ensures
        (report matches RunReport::Done(done) && done is Ok) && x.stage is Creating ==> (action matches RunAction::Walk(
            root,
        ) && root@ == x.root@),
        (report matches RunReport::Done(done) && done is Ok) && x.stage is Committing ==> if x.from + x.batch_size
            < x.items@.len() {
            action matches RunAction::Inspect(path) && path@ == x.items@[x.from + x.batch_size]@
        } else {
            action is DeleteMissing
        },
        action is DeleteMissing ==> x.stage is Walking || x.stage is Preparing
            || x.stage is Committing,
        (action matches RunAction::Finished(ended) && ended is Ok) <==> x.stage is Removing && (
        report matches RunReport::Done(done) && done is Ok),
        next.root@ == x.root@ && next.thumbnails_dir@ == x.thumbnails_dir@ && next.batch_size
            == x.batch_size,
{
}

}
