//! What preparing items and committing batches amount to in the tables.

use crate::commit::{is_embedded, performed, BatchCommitter, Stage, World};
use crate::path::components;
use crate::store::{
    first_unseen, insertions, prepares, state_change, state_of, KnownFile, Prepared, ScannedItem,
};
use crate::store_laws::{
    current, known_in, lemma_batch_is_stored, lemma_changed_item, lemma_moved_item, lemma_new_item,
    lemma_state_set, lemma_unchanged_item, lemma_written_is_current, matches_in, missing_items, movable, new_units,
};
use crate::tables::{after, after_all, changes_of, Tables};
use crate::types::{EmbeddedUnit, FileId, IndexState};
use vstd::prelude::*;
use vstd::utf8::encode_utf8;

verus! {

// ---------------------------------------------------------------------------
// Preparing
// ---------------------------------------------------------------------------

/// Whether preparing an item that is not known turns `t` into `now`: the item was
/// moved, or it is new and gets the id `fresh`.
pub open spec fn settles_unknown(
    t: Tables,
    item: ScannedItem,
    seen: Set<Seq<Seq<u8>>>,
    fresh: int,
    now: Tables,
    id: Option<int>,
    matches: Seq<(FileId, String)>,
) -> bool {
    &&& matches_in(t, item, matches)
    &&& match first_unseen(matches, seen) {
        Some(moved) => now == after(item.relocation(moved), t, fresh) && id is None,
        None => now == after(item.insertion(), t, fresh) && id == Some(fresh),
    }
}

/// Whether preparing an item turns `t` into `now` and gives the id under which it
/// is to be embedded, or none.
pub open spec fn preparation(
    t: Tables,
    item: ScannedItem,
    seen: Set<Seq<Seq<u8>>>,
    fresh: int,
    now: Tables,
    id: Option<int>,
    known: Option<KnownFile>,
    prepared: Prepared,
    matches: Seq<(FileId, String)>,
) -> bool {
    &&& known_in(t, item.path_text(), known)
    &&& prepares(prepared, known, item)
    &&& match prepared {
        Prepared::Skip => now == t && id is None,
        Prepared::Resume { id: i } => now == t && id == Some(i as int),
        Prepared::Replace { id: i, ops } => now == after_all(
            changes_of(ops@),
            t,
            seq![fresh, fresh],
        ) && id == Some(i as int),
        Prepared::Unknown => settles_unknown(t, item, seen, fresh, now, id, matches),
    }
}

/// Whether an item waits to be embedded.
pub open spec fn waits(t: Tables, path: Seq<char>, id: int) -> bool {
    t.at_path(path, id) && state_of(t.files[id].state) == IndexState::Pending
}

/// Whether an item has the same row and the same units, and perhaps more units.
pub open spec fn untouched(t: Tables, now: Tables, id: int) -> bool {
    &&& now.files.contains_key(id)
    &&& now.files[id] == t.files[id]
    &&& forall|u: int| #[trigger]
        t.units.contains_key(u) && t.units[u].file == id ==> now.units.contains_key(u)
            && now.units[u] == t.units[u]
}

/// Whether an item is finished, and what is stored of it does not speak against
/// the file that was found.
pub open spec fn finished(t: Tables, item: ScannedItem, id: int) -> bool {
    &&& t.at_path(item.path_text(), id)
    &&& current(t.files[id], item.size, item.mtime, item.hash.0@)
    &&& state_of(t.files[id].state) != IndexState::Pending
}

/// Preparing an item keeps the tables sound. An item that is to be embedded waits
/// under its path, and any other item that waits keeps waiting. So the items of a
/// batch have different ids wherever they have different paths, and none of them
/// is done when the batch is committed. An item that is not to be embedded is
/// finished. Other items whose paths were seen are not touched, and no row comes
/// into being but that of the item.
pub proof fn lemma_preparation(
    t: Tables,
    item: ScannedItem,
    seen: Set<Seq<Seq<u8>>>,
    fresh: int,
    now: Tables,
    id: Option<int>,
    known: Option<KnownFile>,
    prepared: Prepared,
    matches: Seq<(FileId, String)>,
)
    requires
        t.sound(),
        !t.files.contains_key(fresh),
        preparation(t, item, seen, fresh, now, id, known, prepared, matches),
    ensures
        now.sound(),
        id matches Some(i) ==> waits(now, item.path_text(), i),
        forall|path: Seq<char>, other: int|
            path != item.path_text() && #[trigger] waits(t, path, other) ==> waits(
                now,
                path,
                other,
            ),
        forall|path: Seq<char>, other: int|
            path != item.path_text() && #[trigger] waits(now, path, other) ==> id != Some(other),
        id matches Some(i) ==> current(now.files[i], item.size, item.mtime, item.hash.0@),
        id is None ==> exists|i: int| #[trigger] finished(now, item, i),
        forall|other: int| #[trigger]
            t.files.contains_key(other) && t.files[other].path != item.path_text()
                && seen.contains(components(encode_utf8(t.files[other].path))) ==> untouched(
                t,
                now,
                other,
            ),
        forall|other: int| #[trigger]
            now.files.contains_key(other) ==> now.files[other].path == item.path_text() || (
            t.files.contains_key(other) && now.files[other] == t.files[other]),
{
    match prepared {
        Prepared::Skip => {
            assert(finished(now, item, known->0.id as int));
        },
        Prepared::Resume { id: i } => {},
        Prepared::Replace { id: i, ops } => {
            let k = known->0;
            lemma_changed_item(t, item, k, prepared, seq![fresh, fresh]);
            assert forall|path: Seq<char>, other: int|
                path != item.path_text() && #[trigger] waits(t, path, other) implies waits(
                now,
                path,
                other,
            ) by {
                lemma_other_row(t, now, i as int, other);
            }
            lemma_written_is_current(now.files[i as int], item);
            lemma_one_row(t, now, i as int);
        },
        Prepared::Unknown => match first_unseen(matches, seen) {
            Some(moved) => {
                lemma_moved_item(t, item, matches, seen, fresh);
                assert forall|path: Seq<char>, other: int|
                    path != item.path_text() && #[trigger] waits(t, path, other) implies waits(
                    now,
                    path,
                    other,
                ) by {
                    assert(movable(t.files[moved as int], item));
                    lemma_other_row(t, now, moved as int, other);
                }
                lemma_written_is_current(now.files[moved as int], item);
                lemma_one_row(t, now, moved as int);
                assert(finished(now, item, moved as int));
            },
            None => {
                lemma_new_item(t, item, fresh);
                assert(now.files.remove(fresh) == t.files);
                assert forall|path: Seq<char>, other: int|
                    path != item.path_text() && #[trigger] waits(t, path, other) implies waits(
                    now,
                    path,
                    other,
                ) by {
                    assert(t.files.remove(fresh) =~= t.files);
                    lemma_other_row(t, now, fresh, other);
                }
                assert(t.files.remove(fresh) =~= t.files);
                lemma_written_is_current(now.files[fresh], item);
                lemma_one_row(t, now, fresh);
            },
        },
    }
}

/// Preparing an item whose file is as it was, and which is done, failed or stale,
/// changes nothing and leaves nothing to embed: a second run over a folder that
/// stayed as it was does no work.
pub proof fn lemma_settled_item(
    t: Tables,
    item: ScannedItem,
    seen: Set<Seq<Seq<u8>>>,
    fresh: int,
    now: Tables,
    id: Option<int>,
    known: Option<KnownFile>,
    prepared: Prepared,
    matches: Seq<(FileId, String)>,
    settled: int,
)
    requires
        t.sound(),
        preparation(t, item, seen, fresh, now, id, known, prepared, matches),
        t.at_path(item.path_text(), settled),
        current(t.files[settled], item.size, item.mtime, item.hash.0@),
        state_of(t.files[settled].state) != IndexState::Pending,
    ensures
        now == t,
        id is None,
{
    lemma_unchanged_item(t, item, known, prepared, settled);
}

/// An item whose path was seen is not removed at the end of the run.
pub proof fn lemma_seen_item_stays(
    t: Tables,
    root: Seq<u8>,
    seen: Set<Seq<Seq<u8>>>,
    id: int,
)
    requires
        t.files.contains_key(id),
        seen.contains(components(encode_utf8(t.files[id].path))),
    ensures
        t.without(missing_items(t, root, seen)).files.contains_key(id),
        t.without(missing_items(t, root, seen)).files[id] == t.files[id],
        forall|u: int| #[trigger]
            t.units.contains_key(u) && t.units[u].file == id ==> t.without(
                missing_items(t, root, seen),
            ).units.contains_key(u),
{
}

proof fn lemma_one_row(t: Tables, now: Tables, id: int)
    requires
        now.files.remove(id) == t.files.remove(id),
    ensures
        forall|other: int|
            other != id && #[trigger] t.files.contains_key(other) ==> now.files.contains_key(other)
                && now.files[other] == t.files[other],
        forall|other: int|
            other != id && #[trigger] now.files.contains_key(other) ==> t.files.contains_key(other)
                && now.files[other] == t.files[other],
{
    assert forall|other: int| other != id && #[trigger] t.files.contains_key(other) implies now.files.contains_key(
        other,
    ) && now.files[other] == t.files[other] by {
        lemma_other_row(t, now, id, other);
    }
    assert forall|other: int| other != id && #[trigger] now.files.contains_key(other) implies t.files.contains_key(
        other,
    ) && now.files[other] == t.files[other] by {
        lemma_other_row(now, t, id, other);
    }
}

proof fn lemma_other_row(t: Tables, now: Tables, id: int, other: int)
    requires
        now.files.remove(id) == t.files.remove(id),
        other != id,
        t.files.contains_key(other),
    ensures
        now.files.contains_key(other),
        now.files[other] == t.files[other],
{
    assert(t.files.remove(id).contains_key(other));
    assert(now.files.remove(id).contains_key(other));
    assert(now.files.remove(id)[other] == t.files.remove(id)[other]);
}

// ---------------------------------------------------------------------------
// Committing
// ---------------------------------------------------------------------------

/// What the tables and a folder of thumbnails show of the items.
pub open spec fn world_of(t: Tables, thumbnails: Set<FileId>) -> World {
    World {
        thumbnails,
        searchable: Set::new(|file: FileId| t.searchable(file as int)),
        states: Map::new(
            |file: FileId| t.files.contains_key(file as int),
            |file: FileId| state_of(t.files[file as int].state),
        ),
    }
}

/// Setting the state that a committer asks for is what the committer waits for.
pub proof fn lemma_states_are_set(
    c: BatchCommitter,
    t: Tables,
    thumbnails: Set<FileId>,
    fresh: int,
)
    requires
        t.sound(),
        c.consistent(),
        c.stage matches Stage::Marking(file) ==> t.files.contains_key(file as int),
        c.stage matches Stage::Flipping(k) ==> t.files.contains_key(
            c.embedded@[k as int].file as int,
        ),
    ensures
        c.stage matches Stage::Marking(file) ==> performed(
            c,
            true,
            world_of(t, thumbnails),
            world_of(after(state_change(file, IndexState::Failed, None), t, fresh), thumbnails),
        ),
        c.stage matches Stage::Flipping(k) ==> performed(
            c,
            true,
            world_of(t, thumbnails),
            world_of(
                after(
                    state_change(
                        c.embedded@[k as int].file,
                        IndexState::Done,
                        Some(c.embedded@[k as int].hash),
                    ),
                    t,
                    fresh,
                ),
                thumbnails,
            ),
        ),
{
    match c.stage {
        Stage::Marking(file) => {
            lemma_state_in_world(t, thumbnails, file, IndexState::Failed, None, fresh);
        },
        Stage::Flipping(k) => {
            let item = c.embedded@[k as int];
            lemma_state_in_world(
                t,
                thumbnails,
                item.file,
                IndexState::Done,
                Some(item.hash),
                fresh,
            );
        },
        _ => {},
    }
}

proof fn lemma_state_in_world(
    t: Tables,
    thumbnails: Set<FileId>,
    file: FileId,
    state: IndexState,
    hash: Option<crate::types::Blake3Hash>,
    fresh: int,
)
    requires
        t.sound(),
        t.files.contains_key(file as int),
    ensures
        ({
            let before = world_of(t, thumbnails);
            let now = world_of(after(state_change(file, state, hash), t, fresh), thumbnails);
            &&& now.thumbnails == before.thumbnails
            &&& now.searchable == before.searchable
            &&& now.states == before.states.insert(file, state)
        }),
{
    let next = after(state_change(file, state, hash), t, fresh);
    let before = world_of(t, thumbnails);
    let now = world_of(next, thumbnails);
    lemma_state_set(t, file, state, hash, fresh);
    assert(now.searchable =~= before.searchable) by {
        assert forall|f: FileId| now.searchable.contains(f) == before.searchable.contains(f) by {
            assert(next.units == t.units);
            if t.searchable(f as int) {
                let u = choose|u: int| #[trigger]
                    t.units.contains_key(u) && t.units[u].file == f as int;
                assert(next.units.contains_key(u));
            }
            if next.searchable(f as int) {
                let u = choose|u: int| #[trigger]
                    next.units.contains_key(u) && next.units[u].file == f as int;
                assert(t.units.contains_key(u));
            }
        }
    }
    assert(now.states =~= before.states.insert(file, state));
}

/// Storing the units of a committer is what the committer waits for.
pub proof fn lemma_units_are_stored(
    c: BatchCommitter,
    t: Tables,
    thumbnails: Set<FileId>,
    units: Seq<EmbeddedUnit<'_>>,
    fresh: Seq<int>,
)
    requires
        t.sound(),
        c.stage is Inserting,
        units.len() == c.embedded@.len(),
        forall|i: int| 0 <= i < units.len() ==> (#[trigger] units[i]).file == c.embedded@[i].file,
        forall|i: int|
            0 <= i < units.len() ==> t.files.contains_key((#[trigger] units[i]).file as int),
        fresh.len() == units.len(),
        new_units(t, fresh),
    ensures
        performed(
            c,
            true,
            world_of(t, thumbnails),
            world_of(after_all(insertions(units), t, fresh), thumbnails),
        ),
{
    let next = after_all(insertions(units), t, fresh);
    let before = world_of(t, thumbnails);
    let now = world_of(next, thumbnails);
    lemma_batch_is_stored(t, units, fresh);
    assert(now.states =~= before.states);
    assert forall|file: FileId| #[trigger]
        now.searchable.contains(file) <==> before.searchable.contains(file) || is_embedded(
            c,
            file,
        ) by {
        if before.searchable.contains(file) {
            let u = choose|u: int| #[trigger]
                t.units.contains_key(u) && t.units[u].file == file as int;
            assert(next.units.contains_key(u));
        }
        if is_embedded(c, file) {
            let k = choose|k: int|
                0 <= k < c.embedded@.len() && (#[trigger] c.embedded@[k]).file == file;
            assert(units[k].file == file);
            assert(next.searchable(units[k].file as int));
        }
        if now.searchable.contains(file) {
            let u = choose|u: int| #[trigger]
                next.units.contains_key(u) && next.units[u].file == file as int;
            if t.units.contains_key(u) {
                assert(t.searchable(file as int));
            } else {
                let k = fresh.index_of(u);
                assert(units[k].file == file);
                assert(c.embedded@[k].file == file);
            }
        }
    }
}

// ---------------------------------------------------------------------------
// Preparing, said of the rows
// ---------------------------------------------------------------------------

/// Whether a row speaks against the file that was found: another size, another time
/// or another digest. A row without a digest speaks for it where it is done or failed.
pub open spec fn contradicts(
    size: i64,
    mtime: i64,
    hash: Option<Seq<u8>>,
    state: i64,
    item: ScannedItem,
) -> bool {
    ||| size as u64 != item.size
    ||| mtime != item.mtime
    ||| match hash {
        Some(bytes) => crate::types::stored_digest(bytes) != item.hash.0@,
        None => state != 1 && state != 2,
    }
}

/// Whether a row is that of a file which may have been moved to where the item was
/// found: it is done, it has the digest, and its path was not seen.
pub open spec fn may_have_moved(
    t: Tables,
    item: ScannedItem,
    seen: Set<Seq<Seq<u8>>>,
    id: int,
) -> bool {
    &&& t.files.contains_key(id)
    &&& t.files[id].hash == Some(item.hash.0@)
    &&& t.files[id].state == 1
    &&& t.files[id].path != crate::text::lossy_text(item.path@)
    &&& !seen.contains(components(encode_utf8(t.files[id].path)))
}

proof fn lemma_first_unseen_is_least(
    t: Tables,
    item: ScannedItem,
    matches: Seq<(FileId, String)>,
    seen: Set<Seq<Seq<u8>>>,
)
    requires
        forall|i: int|
            0 <= i < matches.len() ==> t.at_path((#[trigger] matches[i]).1@, matches[i].0 as int)
                && movable(t.files[matches[i].0 as int], item),
        forall|i: int, j: int|
            0 <= i < j < matches.len() ==> (#[trigger] matches[i]).0 < (#[trigger] matches[j]).0,
    ensures
        first_unseen(matches, seen) matches Some(moved) ==> may_have_moved(
            t,
            item,
            seen,
            moved as int,
        ) && forall|i: int|
            0 <= i < matches.len() && may_have_moved(
                t,
                item,
                seen,
                (#[trigger] matches[i]).0 as int,
            ) ==> moved <= matches[i].0,
        first_unseen(matches, seen) is None ==> forall|i: int|
            0 <= i < matches.len() ==> !may_have_moved(
                t,
                item,
                seen,
                (#[trigger] matches[i]).0 as int,
            ),
    decreases matches.len(),
{
    if matches.len() > 0 {
        let rest = matches.skip(1);
        assert(forall|i: int| 0 <= i < rest.len() ==> rest[i] == matches[i + 1]);
        lemma_first_unseen_is_least(t, item, rest, seen);
        assert(t.at_path(matches[0].1@, matches[0].0 as int));
        assert forall|i: int|
            0 <= i < matches.len() && may_have_moved(
                t,
                item,
                seen,
                (#[trigger] matches[i]).0 as int,
            ) implies (first_unseen(matches, seen) matches Some(moved) && moved <= matches[i].0) by {
            if i > 0 {
                assert(rest[i - 1] == matches[i]);
                assert(matches[0].0 < matches[i].0);
            }
        }
    }
}

/// What preparing a file comes to, said of the rows. Where the row with its path
/// speaks against the file, the row gets what was found, loses its units, waits, and
/// is to be embedded. Where it does not, nothing changes, and it is to be embedded
/// exactly where it waits. Where there is no such row, the oldest row that may have
/// been moved there gets the path and keeps its units, and there is nothing to embed;
/// or, where there is none, a new row waits and is to be embedded. Either way the row
/// with the path then does not speak against the file.
pub proof fn lemma_prepared_rows(
    t: Tables,
    item: ScannedItem,
    seen: Set<Seq<Seq<u8>>>,
    fresh: int,
    now: Tables,
    id: Option<int>,
    known: Option<KnownFile>,
    prepared: Prepared,
    matches: Seq<(FileId, String)>,
)
    requires
        t.sound(),
        !t.files.contains_key(fresh),
        preparation(t, item, seen, fresh, now, id, known, prepared, matches),
    ensures
        forall|r: int| #[trigger]
            t.at_path(crate::text::lossy_text(item.path@), r) ==> {
                let row = t.files[r];
                &&& contradicts(row.size, row.mtime, row.hash, row.state, item) ==> {
                    &&& id == Some(r)
                    &&& now.files.contains_key(r)
                    &&& now.files[r].state == 0
                    &&& !now.searchable(r)
                }
                &&& !contradicts(row.size, row.mtime, row.hash, row.state, item) ==> {
                    &&& now == t
                    &&& id == if row.state == 1 || row.state == 2 || row.state == 3 {
                        None
                    } else {
                        Some(r)
                    }
                }
            },
        !t.has_path(crate::text::lossy_text(item.path@)) ==> {
            &&& id is Some ==> {
                &&& id == Some(fresh)
                &&& now.at_path(crate::text::lossy_text(item.path@), fresh)
                &&& now.files[fresh].state == 0
                &&& forall|r: int| !#[trigger] may_have_moved(t, item, seen, r)
            }
            &&& id is None ==> exists|r: int| #[trigger]
                may_have_moved(t, item, seen, r) && now.at_path(
                    crate::text::lossy_text(item.path@),
                    r,
                ) && now.files[r].state == 1 && now.units == t.units && forall|s: int| #[trigger]
                    may_have_moved(t, item, seen, s) ==> r <= s
        },
        forall|r: int| #[trigger]
            now.at_path(crate::text::lossy_text(item.path@), r) ==> !contradicts(
                now.files[r].size,
                now.files[r].mtime,
                now.files[r].hash,
                now.files[r].state,
                item,
            ),
        now.has_path(crate::text::lossy_text(item.path@)),
{
    let text = crate::text::lossy_text(item.path@);
    lemma_preparation(t, item, seen, fresh, now, id, known, prepared, matches);
    match prepared {
        Prepared::Skip => {
            assert(now.at_path(text, known->0.id as int));
        },
        Prepared::Resume { id: i } => {
            assert(now.at_path(text, i as int));
        },
        Prepared::Replace { id: i, ops } => {
            let k = known->0;
            lemma_changed_item(t, item, k, prepared, seq![fresh, fresh]);
            lemma_written_is_current(now.files[i as int], item);
            assert(now.at_path(text, i as int));
        },
        Prepared::Unknown => {
            lemma_first_unseen_is_least(t, item, matches, seen);
            assert forall|s: int| #[trigger] may_have_moved(t, item, seen, s) implies exists|i: int|
                0 <= i < matches.len() && (#[trigger] matches[i]).0 == s by {
                assert(t.files.contains_key(s) && movable(t.files[s], item));
            }
            match first_unseen(matches, seen) {
                Some(moved) => {
                    lemma_moved_item(t, item, matches, seen, fresh);
                    lemma_written_is_current(now.files[moved as int], item);
                    assert(now.at_path(text, moved as int));
                    assert forall|s: int| #[trigger] may_have_moved(t, item, seen, s) implies moved
                        <= s by {
                        let i = choose|i: int|
                            0 <= i < matches.len() && (#[trigger] matches[i]).0 == s;
                        assert(may_have_moved(t, item, seen, matches[i].0 as int));
                    }
                    assert(may_have_moved(t, item, seen, moved as int));
                },
                None => {
                    lemma_new_item(t, item, fresh);
                    lemma_written_is_current(now.files[fresh], item);
                    assert(now.at_path(text, fresh));
                    assert forall|r: int| !#[trigger] may_have_moved(t, item, seen, r) by {
                        if may_have_moved(t, item, seen, r) {
                            let i = choose|i: int|
                                0 <= i < matches.len() && (#[trigger] matches[i]).0 == r;
                            assert(!may_have_moved(t, item, seen, matches[i].0 as int));
                        }
                    }
                },
            }
        },
    }
    assert forall|r: int| #[trigger] now.at_path(text, r) implies !contradicts(
        now.files[r].size,
        now.files[r].mtime,
        now.files[r].hash,
        now.files[r].state,
        item,
    ) by {
        let s = choose|s: int| #[trigger] now.at_path(text, s);
        assert(now.files.contains_key(r));
    }
}

}
