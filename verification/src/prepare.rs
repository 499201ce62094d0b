//! Preparing one file: what is asked of the database and what is answered.
//!
//! The item with the file's path is looked up. Where there is none, the file may
//! be one that was moved, or a new one. A [`Preparer`] says what is to be done
//! next; the holder of the database does it and reports what came of it.

use crate::error::LumeError;
use crate::path::PathSet;
use crate::run_laws::{preparation, settles_unknown};
use crate::store::{
    first_unseen, prepares, KnownFile, Prepared, ScannedItem, SqliteStore,
};
use crate::store_laws::{known_in, matches_in};
use crate::tables::{after, after_all, changes_of, StoreOp, Tables};
use crate::types::FileId;
use crate::whole_run::{prepared_as, row_id};
use vstd::prelude::*;

verus! {

/// What a preparer waits for.
#[derive(Clone, Copy, Debug, PartialEq, Eq)]
pub enum PrepareStage {
    /// The item with the file's path is being looked up.
    Looking,
    /// The item with this id is being given other contents.
    Replacing { id: FileId },
    /// The items that may have been moved are being looked up.
    Matching,
    /// An item is being given the file's path.
    Moving,
    /// The file is being added.
    Inserting,
    /// Nothing: the answer is given.
    Over,
}

/// What is to be done next.
#[derive(Debug)]
pub enum PrepareAction {
    /// Look up what is stored of the item with the file's path.
    Look,
    /// Make these changes in one transaction.
    Change(Vec<StoreOp>),
    /// Look up the finished items with the file's hash and another path, by
    /// their ids.
    FindMatches,
    /// Add an item, and ask for its id.
    Insert(StoreOp),
    /// Nothing: this is the answer. The file is to be embedded under the id, or
    /// not at all.
    Answer(Result<Option<FileId>, LumeError>),
}

/// What came of what was to be done.
#[derive(Debug)]
pub enum PrepareReport {
    /// This is stored of the item with the path.
    Known(Option<KnownFile>),
    /// These items may have been moved.
    Matches(Vec<(FileId, String)>),
    /// The changes were made.
    Changed,
    /// The item was added, with this id.
    Inserted(Option<FileId>),
    /// It failed.
    Failed(LumeError),
}

/// Prepares one file.
#[derive(Debug)]
pub struct Preparer {
    pub item: ScannedItem,
    pub stage: PrepareStage,
}

/// What a preparer does about the item with the file's path.
pub open spec fn knows(
    item: ScannedItem,
    known: Option<KnownFile>,
    stage: PrepareStage,
    action: PrepareAction,
) -> bool {
    exists|how: Prepared| #[trigger]
        prepares(how, known, item) && match how {
            Prepared::Skip => stage is Over && action == PrepareAction::Answer(Ok(None)),
            Prepared::Resume { id } => stage is Over && action == PrepareAction::Answer(
                Ok(Some(id)),
            ),
            Prepared::Replace { id, ops } => stage == (PrepareStage::Replacing { id }) && action
                == PrepareAction::Change(ops),
            Prepared::Unknown => stage is Matching && action is FindMatches,
        }
}

/// What a preparer does about the items that may have been moved.
pub open spec fn relocates(
    item: ScannedItem,
    matches: Seq<(FileId, String)>,
    seen: Set<Seq<Seq<u8>>>,
    stage: PrepareStage,
    action: PrepareAction,
) -> bool {
    match first_unseen(matches, seen) {
        Some(moved) => {
            &&& stage is Moving
            &&& action matches PrepareAction::Change(ops)
            &&& changes_of(ops@) == seq![item.relocation(moved)]
        },
        None => {
            &&& stage is Inserting
            &&& action matches PrepareAction::Insert(op)
            &&& op@ == item.insertion()
        },
    }
}

/// What a preparer does about a report.
pub open spec fn prepare_steps(
    p: Preparer,
    seen: Set<Seq<Seq<u8>>>,
    report: PrepareReport,
    next: Preparer,
    action: PrepareAction,
) -> bool {
    &&& next.item == p.item
    &&& match (p.stage, report) {
        (_, PrepareReport::Failed(e)) => next.stage is Over && action == PrepareAction::Answer(
            Err(e),
        ),
        (PrepareStage::Looking, PrepareReport::Known(known)) => knows(
            p.item,
            known,
            next.stage,
            action,
        ),
        (PrepareStage::Matching, PrepareReport::Matches(matches)) => relocates(
            p.item,
            matches@,
            seen,
            next.stage,
            action,
        ),
        (PrepareStage::Replacing { id }, PrepareReport::Changed) => next.stage is Over && action
            == PrepareAction::Answer(Ok(Some(id))),
        (PrepareStage::Moving, PrepareReport::Changed) => next.stage is Over && action
            == PrepareAction::Answer(Ok(None)),
        (PrepareStage::Inserting, PrepareReport::Inserted(returned)) => {
            &&& next.stage is Over
            &&& action matches PrepareAction::Answer(answer)
            &&& match returned {
                Some(id) => answer == Ok::<Option<FileId>, LumeError>(Some(id)),
                None => answer matches Err(LumeError::Store(why)) && why@
                    == "inserted file without returned id"@,
            }
        },
        _ => false,
    }
}

impl Preparer {
    /// Whether a report is about what the preparer waits for.
    pub open spec fn expects(self, report: PrepareReport) -> bool {
        match self.stage {
            PrepareStage::Looking => report is Known || report is Failed,
            PrepareStage::Matching => report is Matches || report is Failed,
            PrepareStage::Replacing { .. } | PrepareStage::Moving => report is Changed
                || report is Failed,
            PrepareStage::Inserting => report is Inserted || report is Failed,
            PrepareStage::Over => false,
        }
    }

    /// A preparer of a file. What is to be done first is to look up the item with
    /// its path.
    pub fn new(item: ScannedItem) -> (preparer: Preparer)
        ensures
            preparer.item == item,
            preparer.stage is Looking,
    {
        Preparer { item, stage: PrepareStage::Looking }
    }

    /// Takes the report on what was to be done, and says what is to be done
    /// next. `seen` are the paths that the walk found.
    pub fn next(&mut self, store: &SqliteStore, seen: &PathSet, report: PrepareReport) -> (action:
        PrepareAction)
        requires
            old(self).expects(report),
        ensures
            prepare_steps(*old(self), seen@, report, *final(self), action),
    {
        match report {
            PrepareReport::Failed(e) => {
                self.stage = PrepareStage::Over;
                PrepareAction::Answer(Err(e))
            },
            PrepareReport::Known(known) => {
                let how = store.prepare_file_for_index(&known, &self.item);
                assert(prepares(how, known, self.item));
                match how {
                    Prepared::Skip => {
                        self.stage = PrepareStage::Over;
                        PrepareAction::Answer(Ok(None))
                    },
                    Prepared::Resume { id } => {
                        self.stage = PrepareStage::Over;
                        PrepareAction::Answer(Ok(Some(id)))
                    },
                    Prepared::Replace { id, ops } => {
                        self.stage = PrepareStage::Replacing { id };
                        PrepareAction::Change(ops)
                    },
                    Prepared::Unknown => {
                        self.stage = PrepareStage::Matching;
                        PrepareAction::FindMatches
                    },
                }
            },
            PrepareReport::Matches(matches) => match store.move_done_file_by_hash(
                &matches,
                &self.item,
                seen,
            ) {
                Some(op) => {
                    let mut ops: Vec<StoreOp> = Vec::new();
                    ops.push(op);
                    assert(changes_of(ops@) =~= seq![op@]);
                    self.stage = PrepareStage::Moving;
                    PrepareAction::Change(ops)
                },
                None => {
                    self.stage = PrepareStage::Inserting;
                    PrepareAction::Insert(store.insert_file(&self.item))
                },
            },
            PrepareReport::Changed => {
                let answer: Option<FileId> = match self.stage {
                    PrepareStage::Replacing { id } => Some(id),
                    _ => None,
                };
                self.stage = PrepareStage::Over;
                PrepareAction::Answer(Ok(answer))
            },
            PrepareReport::Inserted(returned) => {
                self.stage = PrepareStage::Over;
                match store.inserted_id(returned) {
                    Ok(id) => PrepareAction::Answer(Ok(Some(id))),
                    Err(e) => PrepareAction::Answer(Err(e)),
                }
            },
        }
    }
}

// ---------------------------------------------------------------------------
// Laws
// ---------------------------------------------------------------------------

/// Whether what a preparer asked for was done as the report says, and turned `t`
/// into `t2`. A row that was added has the id `fresh`.
pub open spec fn prepare_carried_out(
    p: Preparer,
    action: PrepareAction,
    report: PrepareReport,
    t: Tables,
    t2: Tables,
    fresh: int,
) -> bool {
    match (action, report) {
        (PrepareAction::Look, PrepareReport::Known(known)) => t2 == t && known_in(
            t,
            p.item.path_text(),
            known,
        ),
        (PrepareAction::FindMatches, PrepareReport::Matches(matches)) => t2 == t && matches_in(
            t,
            p.item,
            matches@,
        ),
        (PrepareAction::Change(ops), PrepareReport::Changed) => t2 == after_all(
            changes_of(ops@),
            t,
            seq![fresh, fresh],
        ),
        (PrepareAction::Insert(op), PrepareReport::Inserted(returned)) => {
            &&& t2 == after(op@, t, fresh)
            &&& returned matches Some(id) ==> id == fresh
        },
        _ => true,
    }
}

/// What holds of what a preparer has asked for. Until it asks for a change the
/// tables are as they were.
pub open spec fn prepare_course(
    p: Preparer,
    action: PrepareAction,
    seen: Set<Seq<Seq<u8>>>,
    t: Tables,
) -> bool {
    match p.stage {
        PrepareStage::Looking => action is Look,
        PrepareStage::Replacing { id } => {
            &&& action matches PrepareAction::Change(ops)
            &&& exists|known: KnownFile| #[trigger]
                known_in(t, p.item.path_text(), Some(known)) && prepares(
                    (Prepared::Replace { id, ops }),
                    Some(known),
                    p.item,
                )
        },
        PrepareStage::Matching => action is FindMatches && !t.has_path(p.item.path_text()),
        PrepareStage::Moving | PrepareStage::Inserting => {
            &&& !t.has_path(p.item.path_text())
            &&& exists|matches: Seq<(FileId, String)>| #[trigger]
                matches_in(t, p.item, matches) && relocates(
                    p.item,
                    matches,
                    seen,
                    p.stage,
                    action,
                )
        },
        PrepareStage::Over => action is Answer,
    }
}

/// What a preparer asks for, carried out, prepares the file: where the answer is
/// given without an error, the tables have become what preparing makes of them,
/// and the answer is the one that belongs to it.
pub proof fn lemma_prepare_step(
    p: Preparer,
    action: PrepareAction,
    seen: Set<Seq<Seq<u8>>>,
    t: Tables,
    report: PrepareReport,
    next: Preparer,
    then: PrepareAction,
    t2: Tables,
    fresh: int,
)
    requires
        !t.files.contains_key(fresh),
        p.expects(report),
        prepare_course(p, action, seen, t),
        prepare_carried_out(p, action, report, t, t2, fresh),
        prepare_steps(p, seen, report, next, then),
    ensures
        !(then is Answer) ==> t2 == t && prepare_course(next, then, seen, t2),
        then matches PrepareAction::Answer(Ok(id)) ==> prepared_as(
            t,
            p.item,
            seen,
            fresh,
            t2,
            id,
        ),
{
    let none = Seq::<(FileId, String)>::empty();
    match (p.stage, report) {
        (PrepareStage::Looking, PrepareReport::Known(known)) => {
            let how = choose|how: Prepared| #[trigger]
                prepares(how, known, p.item) && match how {
                    Prepared::Skip => next.stage is Over && then == PrepareAction::Answer(
                        Ok(None),
                    ),
                    Prepared::Resume { id } => next.stage is Over && then
                        == PrepareAction::Answer(Ok(Some(id))),
                    Prepared::Replace { id, ops } => next.stage == (PrepareStage::Replacing {
                        id,
                    }) && then == PrepareAction::Change(ops),
                    Prepared::Unknown => next.stage is Matching && then is FindMatches,
                };
            match how {
                Prepared::Skip => {
                    assert(preparation(t, p.item, seen, fresh, t2, row_id(None), known, how, none));
                },
                Prepared::Resume { id } => {
                    assert(preparation(
                        t,
                        p.item,
                        seen,
                        fresh,
                        t2,
                        row_id(Some(id)),
                        known,
                        how,
                        none,
                    ));
                },
                Prepared::Replace { id, ops } => {
                    assert(known_in(t2, next.item.path_text(), Some(known->0)));
                },
                Prepared::Unknown => {},
            }
        },
        (PrepareStage::Replacing { id }, PrepareReport::Changed) => {
            let ops = action->Change_0;
            let known = choose|known: KnownFile| #[trigger]
                known_in(t, p.item.path_text(), Some(known)) && prepares(
                    (Prepared::Replace { id, ops }),
                    Some(known),
                    p.item,
                );
            assert(preparation(
                t,
                p.item,
                seen,
                fresh,
                t2,
                row_id(Some(id)),
                Some(known),
                (Prepared::Replace { id, ops }),
                none,
            ));
        },
        (PrepareStage::Matching, PrepareReport::Matches(matches)) => {
            assert(matches_in(t, next.item, matches@));
        },
        (PrepareStage::Moving, PrepareReport::Changed) => {
            let matches = choose|matches: Seq<(FileId, String)>| #[trigger]
                matches_in(t, p.item, matches) && relocates(p.item, matches, seen, p.stage, action);
            let changes = changes_of(action->Change_0@);
            reveal_with_fuel(after_all, 2);
            assert(changes.drop_last() =~= Seq::empty());
            assert(settles_unknown(t, p.item, seen, fresh, t2, row_id(None), matches));
            assert(preparation(
                t,
                p.item,
                seen,
                fresh,
                t2,
                row_id(None),
                None,
                Prepared::Unknown,
                matches,
            ));
        },
        (PrepareStage::Inserting, PrepareReport::Inserted(Some(id))) => {
            let matches = choose|matches: Seq<(FileId, String)>| #[trigger]
                matches_in(t, p.item, matches) && relocates(p.item, matches, seen, p.stage, action);
            assert(settles_unknown(t, p.item, seen, fresh, t2, row_id(Some(id)), matches));
            assert(preparation(
                t,
                p.item,
                seen,
                fresh,
                t2,
                row_id(Some(id)),
                None,
                Prepared::Unknown,
                matches,
            ));
        },
        _ => {},
    }
}

}
