//! What the decisions of the store amount to in the tables.

use crate::path::components;
use crate::store::{
    blob, deletion, first_unseen, insertions, missing, prepares, removals, state_change,
    state_code, state_of, KnownFile, Prepared, ScannedItem,
};
use crate::tables::{after, after_all, Change, FileEntry, Tables, UnitEntry};
use crate::types::{stored_digest, Blake3Hash, EmbeddedUnit, FileId, IndexState};
use vstd::prelude::*;
use vstd::utf8::encode_utf8;

verus! {

// ---------------------------------------------------------------------------
// Answers to queries
// ---------------------------------------------------------------------------

/// Whether `known` is what the tables hold of the item with a path.
pub open spec fn known_in(t: Tables, path: Seq<char>, known: Option<KnownFile>) -> bool {
    match known {
        Some(k) => {
            let row = t.files[k.id as int];
            &&& t.at_path(path, k.id as int)
            &&& k.size == row.size
            &&& k.mtime == row.mtime
            &&& k.state == row.state
            &&& k.hash is Some <==> row.hash is Some
            &&& k.hash matches Some(h) ==> h@ == row.hash->0
        },
        None => !t.has_path(path),
    }
}

/// Whether an item is one that may have been moved to where a file was found:
/// it is done, and has the file's hash and another path.
pub open spec fn movable(row: FileEntry, item: ScannedItem) -> bool {
    &&& row.hash == Some(item.hash.0@)
    &&& row.state == state_code(IndexState::Done)
    &&& row.path != item.path_text()
}

/// Whether `matches` are the items that may have been moved, by their ids.
pub open spec fn matches_in(
    t: Tables,
    item: ScannedItem,
    matches: Seq<(FileId, String)>,
) -> bool {
    &&& forall|i: int|
        0 <= i < matches.len() ==> t.at_path((#[trigger] matches[i]).1@, matches[i].0 as int)
            && movable(t.files[matches[i].0 as int], item)
    &&& forall|i: int, j: int|
        0 <= i < j < matches.len() ==> (#[trigger] matches[i]).0 < (#[trigger] matches[j]).0
    &&& forall|id: int| #[trigger]
        t.files.contains_key(id) && movable(t.files[id], item) ==> exists|i: int|
            0 <= i < matches.len() && (#[trigger] matches[i]).0 == id
}

/// Whether `rows` are the ids and the paths of all items.
pub open spec fn rows_in(t: Tables, rows: Seq<(FileId, String)>) -> bool {
    &&& forall|i: int|
        0 <= i < rows.len() ==> t.at_path((#[trigger] rows[i]).1@, rows[i].0 as int)
    &&& forall|id: int| #[trigger]
        t.files.contains_key(id) ==> exists|i: int|
            0 <= i < rows.len() && (#[trigger] rows[i]).0 == id
}

// ---------------------------------------------------------------------------
// Resume, skip, replace, move, insert
// ---------------------------------------------------------------------------

/// Whether the tables hold for an item the size, the time and the hash that the
/// walk found.
pub open spec fn written(row: FileEntry, item: ScannedItem) -> bool {
    &&& row.size == item.size as i64
    &&& row.mtime == item.mtime
    &&& row.hash == Some(item.hash.0@)
}

/// Whether what the tables hold for an item does not speak against a size, a
/// time and a hash. An item that is done or failed may have no hash.
pub open spec fn current(row: FileEntry, size: u64, mtime: i64, hash: Seq<u8>) -> bool {
    &&& row.size as u64 == size
    &&& row.mtime == mtime
    &&& match row.hash {
        Some(bytes) => stored_digest(bytes) == hash,
        None => state_of(row.state) == IndexState::Done || state_of(row.state)
            == IndexState::Failed,
    }
}

/// What was written for a file is current as long as the file stays as it is.
pub proof fn lemma_written_is_current(row: FileEntry, item: ScannedItem)
    requires
        written(row, item),
    ensures
        current(row, item.size, item.mtime, item.hash.0@),
{
    lemma_size_reads_back(item.size);
    crate::types::lemma_stored_digest_reads_back(item.hash);
}

proof fn lemma_size_reads_back(size: u64)
    ensures
        (size as i64) as u64 == size,
{
    assert((size as i64) as u64 == size) by (bit_vector);
}

/// An item whose file is as it was is left alone once it is done, failed or
/// stale, and is embedded if it is pending. Nothing changes in the tables. One
/// that is done or failed need not have a stored hash.
pub proof fn lemma_unchanged_item(
    t: Tables,
    item: ScannedItem,
    known: Option<KnownFile>,
    prepared: Prepared,
    id: int,
)
    requires
        t.sound(),
        known_in(t, item.path_text(), known),
        prepares(prepared, known, item),
        t.at_path(item.path_text(), id),
        current(t.files[id], item.size, item.mtime, item.hash.0@),
    ensures
        state_of(t.files[id].state) != IndexState::Pending ==> prepared is Skip,
        state_of(t.files[id].state) == IndexState::Pending ==> (prepared matches Prepared::Resume {
            id: i,
        } && i == id),
{
    assert(known is Some);
    assert(known->0.id == id);
}

/// An item whose file was replaced keeps its id and its path, loses its units
/// and is to be embedded again. Nothing else changes.
pub proof fn lemma_changed_item(
    t: Tables,
    item: ScannedItem,
    known: KnownFile,
    prepared: Prepared,
    fresh: Seq<int>,
)
    requires
        t.sound(),
        known_in(t, item.path_text(), Some(known)),
        prepares(prepared, Some(known), item),
        !item.unchanged(known),
    ensures
        prepared matches Prepared::Replace { id, ops } && id == known.id,
        ({
            let id = known.id as int;
            let now = after_all(item.replacement(known.id), t, fresh);
            &&& now.sound()
            &&& now.at_path(item.path_text(), id)
            &&& written(now.files[id], item)
            &&& state_of(now.files[id].state) == IndexState::Pending
            &&& !now.searchable(id)
            &&& now.files.remove(id) == t.files.remove(id)
            &&& forall|u: int| #[trigger]
                now.units.contains_key(u) <==> t.units.contains_key(u) && t.units[u].file != id
            &&& forall|u: int| #[trigger] now.units.contains_key(u) ==> now.units[u] == t.units[u]
        }),
{
    let id = known.id as int;
    let changes = item.replacement(known.id);
    let first = after(changes[0], t, fresh[0]);
    let now = after_all(changes, t, fresh);
    reveal_with_fuel(after_all, 3);
    assert(changes.drop_last().drop_last() =~= Seq::empty());
    assert(changes.drop_last().last() == changes[0]);
    assert(now == after(changes[1], first, fresh[1]));
    assert(first.files == t.files);
    assert(now.files.remove(id) =~= t.files.remove(id));
}

/// A file that was moved is known again by its hash: the item keeps its id, its
/// state and its units, and has the new path. Nothing else changes.
pub proof fn lemma_moved_item(
    t: Tables,
    item: ScannedItem,
    matches: Seq<(FileId, String)>,
    seen: Set<Seq<Seq<u8>>>,
    fresh: int,
)
    requires
        t.sound(),
        !t.has_path(item.path_text()),
        matches_in(t, item, matches),
        first_unseen(matches, seen) is Some,
    ensures
        ({
            let id = first_unseen(matches, seen)->0 as int;
            let now = after(item.relocation(id as FileId), t, fresh);
            &&& t.files.contains_key(id)
            &&& movable(t.files[id], item)
            &&& !seen.contains(components(encode_utf8(t.files[id].path)))
            &&& now.sound()
            &&& now.at_path(item.path_text(), id)
            &&& written(now.files[id], item)
            &&& state_of(now.files[id].state) == IndexState::Done
            &&& now.units == t.units
            &&& now.files.remove(id) == t.files.remove(id)
        }),
{
    lemma_first_unseen(matches, seen);
    let id = first_unseen(matches, seen)->0;
    let i = choose|i: int|
        0 <= i < matches.len() && (#[trigger] matches[i]).0 == id && !seen.contains(
            components(encode_utf8(matches[i].1@)),
        );
    assert(t.at_path(matches[i].1@, id as int));
    let now = after(item.relocation(id), t, fresh);
    assert forall|a: int, b: int|
        #![trigger now.files.contains_key(a), now.files.contains_key(b)]
        now.files.contains_key(a) && now.files.contains_key(b) && now.files[a].path
            == now.files[b].path implies a == b by {
        if a != b {
            assert(t.files.contains_key(a) && t.files.contains_key(b));
            if a == id {
                assert(t.at_path(item.path_text(), b));
            }
            if b == id {
                assert(t.at_path(item.path_text(), a));
            }
        }
    }
    assert(now.files.remove(id as int) =~= t.files.remove(id as int));
}

proof fn lemma_first_unseen(matches: Seq<(FileId, String)>, seen: Set<Seq<Seq<u8>>>)
    ensures
        first_unseen(matches, seen) matches Some(id) ==> exists|i: int|
            0 <= i < matches.len() && (#[trigger] matches[i]).0 == id && !seen.contains(
                components(encode_utf8(matches[i].1@)),
            ),
        first_unseen(matches, seen) is None ==> forall|i: int|
            0 <= i < matches.len() ==> seen.contains(
                components(encode_utf8((#[trigger] matches[i]).1@)),
            ),
    decreases matches.len(),
{
    if matches.len() > 0 {
        let rest = matches.skip(1);
        lemma_first_unseen(rest, seen);
        assert(forall|i: int| 0 <= i < rest.len() ==> rest[i] == matches[i + 1]);
        if seen.contains(components(encode_utf8(matches[0].1@))) {
            if let Some(id) = first_unseen(rest, seen) {
                let i = choose|i: int|
                    0 <= i < rest.len() && (#[trigger] rest[i]).0 == id && !seen.contains(
                        components(encode_utf8(rest[i].1@)),
                    );
                assert(matches[i + 1].0 == id);
            } else {
                assert forall|i: int| 0 <= i < matches.len() implies seen.contains(
                    components(encode_utf8((#[trigger] matches[i]).1@)),
                ) by {
                    if i > 0 {
                        assert(rest[i - 1] == matches[i]);
                    }
                }
            }
        } else {
            assert(matches[0].0 == first_unseen(matches, seen)->0);
        }
    }
}

/// A new file becomes a new item, to be embedded. Nothing else changes.
pub proof fn lemma_new_item(t: Tables, item: ScannedItem, fresh: int)
    requires
        t.sound(),
        !t.has_path(item.path_text()),
        !t.files.contains_key(fresh),
    ensures
        ({
            let now = after(item.insertion(), t, fresh);
            &&& now.sound()
            &&& now.at_path(item.path_text(), fresh)
            &&& written(now.files[fresh], item)
            &&& state_of(now.files[fresh].state) == IndexState::Pending
            &&& !now.searchable(fresh)
            &&& now.files.remove(fresh) == t.files
            &&& now.units == t.units
        }),
{
    let now = after(item.insertion(), t, fresh);
    assert forall|a: int, b: int|
        #![trigger now.files.contains_key(a), now.files.contains_key(b)]
        now.files.contains_key(a) && now.files.contains_key(b) && now.files[a].path
            == now.files[b].path implies a == b by {
        if a != b {
            if a == fresh {
                assert(t.at_path(item.path_text(), b));
            } else if b == fresh {
                assert(t.at_path(item.path_text(), a));
            } else {
                assert(t.files.contains_key(a) && t.files.contains_key(b));
            }
        }
    }
    assert(now.files.remove(fresh) =~= t.files);
}

/// Setting a state keeps the tables sound and touches one row.
pub proof fn lemma_state_set(
    t: Tables,
    file: FileId,
    state: IndexState,
    hash: Option<Blake3Hash>,
    fresh: int,
)
    requires
        t.sound(),
        t.files.contains_key(file as int),
    ensures
        ({
            let id = file as int;
            let now = after(state_change(file, state, hash), t, fresh);
            &&& now.sound()
            &&& state_of(now.files[id].state) == state
            &&& now.files[id].path == t.files[id].path
            &&& now.files[id].size == t.files[id].size
            &&& now.files[id].mtime == t.files[id].mtime
            &&& now.files[id].hash == match hash {
                Some(h) => Some(h.0@),
                None => t.files[id].hash,
            }
            &&& now.files.remove(id) == t.files.remove(id)
            &&& now.units == t.units
        }),
{
    let now = after(state_change(file, state, hash), t, fresh);
    assert(now.files.remove(file as int) =~= t.files.remove(file as int));
    assert forall|a: int, b: int|
        #![trigger now.files.contains_key(a), now.files.contains_key(b)]
        now.files.contains_key(a) && now.files.contains_key(b) && now.files[a].path
            == now.files[b].path implies a == b by {
        assert(t.files.contains_key(a) && t.files.contains_key(b));
    }
}

/// Once an item that was prepared is done or failed, the next run leaves it
/// alone as long as its file stays as it is.
pub proof fn lemma_next_run_skips(
    t: Tables,
    item: ScannedItem,
    file: FileId,
    state: IndexState,
    hash: Option<Blake3Hash>,
    known: Option<KnownFile>,
    prepared: Prepared,
    fresh: int,
)
    requires
        t.sound(),
        t.at_path(item.path_text(), file as int),
        written(t.files[file as int], item),
        state != IndexState::Pending,
        hash is None || hash == Some(item.hash),
        known_in(after(state_change(file, state, hash), t, fresh), item.path_text(), known),
        prepares(prepared, known, item),
    ensures
        prepared is Skip,
{
    lemma_state_set(t, file, state, hash, fresh);
    lemma_written_is_current(
        after(state_change(file, state, hash), t, fresh).files[file as int],
        item,
    );
    lemma_unchanged_item(
        after(state_change(file, state, hash), t, fresh),
        item,
        known,
        prepared,
        file as int,
    );
}

// ---------------------------------------------------------------------------
// Upsert
// ---------------------------------------------------------------------------

/// Adding a path twice leaves one item with one id, and the tables sound.
pub proof fn lemma_upsert_twice(t: Tables, first: Change, second: Change, fresh: int, other: int)
    requires
        t.sound(),
        !t.files.contains_key(fresh),
        first matches Change::Upsert { path: p, .. } && second matches Change::Upsert {
            path: q,
            ..
        } && p == q,
    ensures
        ({
            let once = after(first, t, fresh);
            let twice = after(second, once, other);
            &&& once.sound()
            &&& twice.sound()
            &&& once.files.dom() == twice.files.dom()
            &&& forall|id: int| #[trigger]
                once.at_path(first->Upsert_path, id) <==> twice.at_path(first->Upsert_path, id)
            &&& once.has_path(first->Upsert_path)
        }),
{
    let path = first->Upsert_path;
    lemma_upsert(t, first, fresh);
    let once = after(first, t, fresh);
    let id = choose|id: int| #[trigger] once.at_path(path, id);
    let twice = after(second, once, other);
    assert(once.files.contains_key(id));
    lemma_upsert_known(once, second, other, id);
    assert(twice.files.dom() =~= once.files.dom());
    assert forall|i: int| #[trigger]
        once.at_path(path, i) <==> twice.at_path(path, i) by {
        if twice.at_path(path, i) {
            assert(once.files.contains_key(i) && once.files.contains_key(id));
            assert(twice.files.contains_key(i) && twice.files.contains_key(id));
        }
    }
}

proof fn lemma_upsert(t: Tables, change: Change, fresh: int)
    requires
        t.sound(),
        !t.files.contains_key(fresh),
        change is Upsert,
    ensures
        after(change, t, fresh).sound(),
        after(change, t, fresh).has_path(change->Upsert_path),
{
    let path = change->Upsert_path;
    let now = after(change, t, fresh);
    if t.has_path(path) {
        let id = choose|id: int| #[trigger] t.at_path(path, id);
        lemma_upsert_known(t, change, fresh, id);
    } else {
        assert(now.at_path(path, fresh));
        assert forall|a: int, b: int|
            #![trigger now.files.contains_key(a), now.files.contains_key(b)]
            now.files.contains_key(a) && now.files.contains_key(b) && now.files[a].path
                == now.files[b].path implies a == b by {
            if a != b {
                if a == fresh {
                    assert(t.at_path(path, b));
                } else if b == fresh {
                    assert(t.at_path(path, a));
                } else {
                    assert(t.files.contains_key(a) && t.files.contains_key(b));
                }
            }
        }
    }
}

proof fn lemma_upsert_known(t: Tables, change: Change, fresh: int, id: int)
    requires
        t.sound(),
        change is Upsert,
        t.at_path(change->Upsert_path, id),
    ensures
        after(change, t, fresh).sound(),
        after(change, t, fresh).at_path(change->Upsert_path, id),
        after(change, t, fresh).files.dom() == t.files.dom(),
        after(change, t, fresh).files.remove(id) == t.files.remove(id),
{
    let path = change->Upsert_path;
    assert(t.has_path(path));
    let chosen = choose|i: int| #[trigger] t.at_path(path, i);
    assert(t.files.contains_key(chosen) && t.files.contains_key(id));
    assert(chosen == id);
    let now = after(change, t, fresh);
    assert(now.files.dom() =~= t.files.dom());
    assert(now.files.remove(id) =~= t.files.remove(id));
    assert forall|a: int, b: int|
        #![trigger now.files.contains_key(a), now.files.contains_key(b)]
        now.files.contains_key(a) && now.files.contains_key(b) && now.files[a].path
            == now.files[b].path implies a == b by {
        assert(t.files.contains_key(a) && t.files.contains_key(b));
    }
}

// ---------------------------------------------------------------------------
// Removal
// ---------------------------------------------------------------------------

proof fn lemma_remove_one(t: Tables, gone: Set<int>, id: FileId, f: int, g: int)
    ensures
        after(
            Change::DeleteFile { id },
            after(Change::DeleteUnits { id }, t.without(gone), f),
            g,
        ) == t.without(gone.insert(id as int)),
{
    let now = after(
        Change::DeleteFile { id },
        after(Change::DeleteUnits { id }, t.without(gone), f),
        g,
    );
    assert(now.files =~= t.without(gone.insert(id as int)).files);
    assert(now.units =~= t.without(gone.insert(id as int)).units);
}

/// Removing an item removes its units with it, and nothing else.
pub proof fn lemma_deletion(t: Tables, file: FileId, fresh: Seq<int>)
    requires
        t.sound(),
    ensures
        after_all(deletion(file), t, fresh) == t.without(set![file as int]),
        t.without(set![file as int]).sound(),
        !t.without(set![file as int]).searchable(file as int),
{
    let changes = deletion(file);
    reveal_with_fuel(after_all, 3);
    assert(changes.drop_last().drop_last() =~= Seq::empty());
    assert(changes.drop_last().last() == changes[0]);
    assert(t.without(Set::empty()).files =~= t.files);
    assert(t.without(Set::empty()).units =~= t.units);
    lemma_remove_one(t, Set::empty(), file, fresh[0], fresh[1]);
    lemma_without_is_sound(t, set![file as int]);
    assert(Set::empty().insert(file as int) =~= set![file as int]);
}

proof fn lemma_without_is_sound(t: Tables, gone: Set<int>)
    requires
        t.sound(),
    ensures
        t.without(gone).sound(),
{
    let now = t.without(gone);
    assert forall|a: int, b: int|
        #![trigger now.files.contains_key(a), now.files.contains_key(b)]
        now.files.contains_key(a) && now.files.contains_key(b) && now.files[a].path
            == now.files[b].path implies a == b by {
        assert(t.files.contains_key(a) && t.files.contains_key(b));
    }
    assert forall|u: int| #[trigger] now.units.contains_key(u) implies now.files.contains_key(
        now.units[u].file,
    ) by {
        assert(t.units.contains_key(u));
    }
}

/// The items that are missing.
pub open spec fn missing_items(t: Tables, root: Seq<u8>, seen: Set<Seq<Seq<u8>>>) -> Set<int> {
    Set::new(|id: int| t.files.contains_key(id) && missing(t.files[id].path, root, seen))
}

/// After a run exactly the items that lie under the folder and were not seen are
/// gone, with their units.
pub proof fn lemma_missing_items_go(
    t: Tables,
    rows: Seq<(FileId, String)>,
    root: Seq<u8>,
    seen: Set<Seq<Seq<u8>>>,
    fresh: Seq<int>,
)
    requires
        t.sound(),
        rows_in(t, rows),
    ensures
        after_all(removals(rows, root, seen), t, fresh) == t.without(missing_items(t, root, seen)),
        t.without(missing_items(t, root, seen)).sound(),
{
    lemma_removals(t, rows, root, seen, fresh);
    let gone = missing_rows(rows, root, seen);
    assert forall|id: int| gone.contains(id) == missing_items(t, root, seen).contains(id) by {
        if gone.contains(id) {
            let i = choose|i: int|
                0 <= i < rows.len() && (#[trigger] rows[i]).0 == id && missing(
                    rows[i].1@,
                    root,
                    seen,
                );
            assert(t.at_path(rows[i].1@, rows[i].0 as int));
        }
        if missing_items(t, root, seen).contains(id) {
            assert(t.files.contains_key(id));
            let i = choose|i: int| 0 <= i < rows.len() && (#[trigger] rows[i]).0 == id;
            assert(t.at_path(rows[i].1@, rows[i].0 as int));
        }
    }
    assert(gone =~= missing_items(t, root, seen));
    lemma_without_is_sound(t, missing_items(t, root, seen));
}

spec fn missing_rows(
    rows: Seq<(FileId, String)>,
    root: Seq<u8>,
    seen: Set<Seq<Seq<u8>>>,
) -> Set<int> {
    Set::new(
        |id: int|
            exists|i: int|
                0 <= i < rows.len() && (#[trigger] rows[i]).0 == id && missing(
                    rows[i].1@,
                    root,
                    seen,
                ),
    )
}

proof fn lemma_removals(
    t: Tables,
    rows: Seq<(FileId, String)>,
    root: Seq<u8>,
    seen: Set<Seq<Seq<u8>>>,
    fresh: Seq<int>,
)
    ensures
        after_all(removals(rows, root, seen), t, fresh) == t.without(missing_rows(rows, root, seen)),
    decreases rows.len(),
{
    let gone = missing_rows(rows, root, seen);
    if rows.len() == 0 {
        assert(gone =~= Set::empty());
        assert(t.without(gone).files =~= t.files);
        assert(t.without(gone).units =~= t.units);
        assert(after_all(removals(rows, root, seen), t, fresh) == t);
    } else {
        let init = rows.drop_last();
        let (id, path) = rows.last();
        lemma_removals(t, init, root, seen, fresh);
        let before = missing_rows(init, root, seen);
        let earlier = removals(init, root, seen);
        assert forall|k: int|
            gone.contains(k) == (before.contains(k) || (k == id && missing(path@, root, seen))) by {
            if before.contains(k) {
                let i = choose|i: int|
                    0 <= i < init.len() && (#[trigger] init[i]).0 == k && missing(
                        init[i].1@,
                        root,
                        seen,
                    );
                assert(rows[i].0 == k);
            }
            if gone.contains(k) {
                let i = choose|i: int|
                    0 <= i < rows.len() && (#[trigger] rows[i]).0 == k && missing(
                        rows[i].1@,
                        root,
                        seen,
                    );
                if i < init.len() {
                    assert(init[i].0 == k);
                }
            }
            if k == id && missing(path@, root, seen) {
                assert(rows[rows.len() - 1].0 == k);
            }
        }
        if missing(path@, root, seen) {
            let one = earlier.push(Change::DeleteUnits { id });
            let two = one.push(Change::DeleteFile { id });
            assert(one.drop_last() =~= earlier);
            assert(two.drop_last() =~= one);
            assert(gone =~= before.insert(id as int));
            let f = fresh[earlier.len() as int];
            let g = fresh[earlier.len() as int + 1];
            assert(removals(rows, root, seen) == two);
            assert(after_all(one, t, fresh) == after(
                Change::DeleteUnits { id },
                t.without(before),
                f,
            ));
            assert(after_all(two, t, fresh) == after(
                Change::DeleteFile { id },
                after_all(one, t, fresh),
                g,
            ));
            lemma_remove_one(
                t,
                before,
                id,
                f,
                g,
            );
        } else {
            assert(gone =~= before);
        }
    }
}

/// Removing everything leaves no item and nothing to find.
pub proof fn lemma_reset(t: Tables, fresh: int)
    ensures
        after(Change::DeleteAll, t, fresh).sound(),
        after(Change::DeleteAll, t, fresh).files.dom() == Set::<int>::empty(),
        forall|file: int| !after(Change::DeleteAll, t, fresh).searchable(file),
{
    assert(after(Change::DeleteAll, t, fresh).files.dom() =~= Set::<int>::empty());
}

// ---------------------------------------------------------------------------
// Batches
// ---------------------------------------------------------------------------

/// Whether some ids are new to the units and all different.
pub open spec fn new_units(t: Tables, fresh: Seq<int>) -> bool {
    &&& forall|i: int| 0 <= i < fresh.len() ==> !t.units.contains_key(#[trigger] fresh[i])
    &&& forall|i: int, j: int|
        0 <= i < j < fresh.len() ==> #[trigger] fresh[i] != #[trigger] fresh[j]
}

/// A batch that is stored is stored whole: each unit has its row and its vector,
/// every item of the batch can be found, and what was there before stays.
pub proof fn lemma_batch_is_stored(t: Tables, units: Seq<EmbeddedUnit<'_>>, fresh: Seq<int>)
    requires
        t.sound(),
        fresh.len() == units.len(),
        new_units(t, fresh),
        forall|i: int|
            0 <= i < units.len() ==> t.files.contains_key((#[trigger] units[i]).file as int),
    ensures
        ({
            let now = after_all(insertions(units), t, fresh);
            &&& now.sound()
            &&& now.files == t.files
            &&& forall|i: int|
                0 <= i < units.len() ==> {
                    &&& now.units.contains_key(fresh[i])
                    &&& now.units[fresh[i]] == (UnitEntry {
                        file: (#[trigger] units[i]).file as int,
                        frame_ts: units[i].frame_ts,
                        vector: blob(units[i].emb.0@),
                    })
                    &&& now.searchable(units[i].file as int)
                }
            &&& forall|u: int| #[trigger]
                t.units.contains_key(u) ==> now.units.contains_key(u) && now.units[u] == t.units[u]
            &&& forall|u: int| #[trigger]
                now.units.contains_key(u) ==> t.units.contains_key(u) || fresh.contains(u)
        }),
    decreases units.len(),
{
    let now = after_all(insertions(units), t, fresh);
    if units.len() > 0 {
        let init = units.drop_last();
        let rest = fresh.drop_last();
        assert(forall|i: int| 0 <= i < init.len() ==> init[i] == units[i]);
        assert(forall|i: int| 0 <= i < rest.len() ==> rest[i] == fresh[i]);
        lemma_batch_is_stored(t, init, rest);
        assert(insertions(units).drop_last() =~= insertions(init));
        lemma_fresh_prefix(insertions(init), t, fresh, rest);
        let before = after_all(insertions(init), t, rest);
        let last = fresh[fresh.len() - 1];
        assert(now == after(insertions(units).last(), before, last));
        assert(!before.units.contains_key(last)) by {
            if rest.contains(last) {
                let i = rest.index_of(last);
                assert(fresh[i] == last);
            }
        }
        assert forall|i: int| 0 <= i < units.len() implies now.units.contains_key(fresh[i])
            && now.units[fresh[i]] == (UnitEntry {
            file: (#[trigger] units[i]).file as int,
            frame_ts: units[i].frame_ts,
            vector: blob(units[i].emb.0@),
        }) && now.searchable(units[i].file as int) by {
            if i < init.len() {
                assert(init[i] == units[i]);
                assert(rest[i] == fresh[i]);
                assert(before.units.contains_key(rest[i]));
            }
            assert(now.units.contains_key(fresh[i]));
        }
        assert forall|u: int| #[trigger] now.units.contains_key(u) implies t.units.contains_key(u)
            || fresh.contains(u) by {
            if u != last {
                assert(before.units.contains_key(u));
                if rest.contains(u) {
                    let i = rest.index_of(u);
                    assert(fresh[i] == u);
                }
            }
        }
        assert forall|u: int| #[trigger]
            t.units.contains_key(u) implies now.units.contains_key(u) && now.units[u]
            == t.units[u] by {
            assert(before.units.contains_key(u));
        }
        assert(now.sound()) by {
            assert(now.files == before.files);
            assert forall|u: int| #[trigger] now.units.contains_key(u) implies now.files.contains_key(
                now.units[u].file,
            ) by {
                if u != last {
                    assert(before.units.contains_key(u));
                }
            }
        }
    }
}

proof fn lemma_fresh_prefix(changes: Seq<Change>, t: Tables, fresh: Seq<int>, rest: Seq<int>)
    requires
        changes.len() <= rest.len() <= fresh.len(),
        forall|i: int| 0 <= i < rest.len() ==> rest[i] == fresh[i],
    ensures
        after_all(changes, t, fresh) == after_all(changes, t, rest),
    decreases changes.len(),
{
    if changes.len() > 0 {
        lemma_fresh_prefix(changes.drop_last(), t, fresh, rest);
    }
}

/// What is removed at the end of a run, said of the rows: a row goes exactly where its
/// path begins with all components of the folder and was not seen. Its units go with
/// it, and nothing else changes.
pub proof fn lemma_what_is_removed(
    t: Tables,
    rows: Seq<(FileId, String)>,
    root: Seq<u8>,
    seen: Set<Seq<Seq<u8>>>,
    fresh: Seq<int>,
)
    requires
        t.sound(),
        rows_in(t, rows),
    ensures
        ({
            let now = after_all(removals(rows, root, seen), t, fresh);
            &&& forall|id: int| #[trigger]
                now.files.contains_key(id) <==> t.files.contains_key(id) && !(components(
                    root,
                ).is_prefix_of(components(encode_utf8(t.files[id].path))) && !seen.contains(
                    components(encode_utf8(t.files[id].path)),
                ))
            &&& forall|id: int| #[trigger]
                now.files.contains_key(id) ==> now.files[id] == t.files[id]
            &&& forall|u: int| #[trigger]
                now.units.contains_key(u) <==> t.units.contains_key(u) && now.files.contains_key(
                    t.units[u].file,
                )
            &&& forall|u: int| #[trigger] now.units.contains_key(u) ==> now.units[u] == t.units[u]
        }),
{
    lemma_missing_items_go(t, rows, root, seen, fresh);
    let now = after_all(removals(rows, root, seen), t, fresh);
    assert forall|u: int| #[trigger]
        now.units.contains_key(u) <==> t.units.contains_key(u) && now.files.contains_key(
            t.units[u].file,
        ) by {
        if t.units.contains_key(u) {
            assert(t.files.contains_key(t.units[u].file));
        }
    }
}

}
