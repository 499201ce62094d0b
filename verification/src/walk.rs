//! Which files of a folder are items.
//!
//! Still images are known by their extensions. A raw image beside a display
//! image of the same name is a companion of it and no item of its own.

use crate::path::{
    components, extension_of, folder_of, parts_side, stem_of, MediaPath, PathKey, PathSet, Side,
};
use crate::sort::{reversed, sort, sorts, Ranked};
use crate::text::{ascii_lower, text_eq, to_ascii_lower, utf8_text};
use vstd::prelude::*;

verus! {

/// What a walk comes across.
#[derive(Clone, Debug, PartialEq, Eq)]
pub struct WalkEntry {
    pub path: MediaPath,
    /// Whether this is a regular file.
    pub is_file: bool,
}

/// The extensions of images that can be shown as they are.
pub open spec fn display_extensions() -> Seq<Seq<char>> {
    seq!["jpg"@, "jpeg"@, "png"@, "heic"@, "heif"@, "heics"@, "heifs"@, "hif"@]
}

/// The extensions of raw images.
pub open spec fn raw_extensions() -> Seq<Seq<char>> {
    seq![
        "3fr"@,
        "arw"@,
        "cr2"@,
        "cr3"@,
        "dcr"@,
        "dng"@,
        "erf"@,
        "fff"@,
        "gpr"@,
        "iiq"@,
        "k25"@,
        "kdc"@,
        "mrw"@,
        "nef"@,
        "nrw"@,
        "orf"@,
        "pef"@,
        "raf"@,
        "raw"@,
        "rw2"@,
        "sr2"@,
        "srf"@,
        "srw"@,
        "x3f"@,
    ]
}

/// Whether a path has one of some extensions, in upper or lower case.
pub open spec fn has_extension(path: Seq<u8>, extensions: Seq<Seq<char>>) -> bool {
    match extension_of(path) {
        Some(e) => vstd::utf8::valid_utf8(e) && extensions.contains(
            ascii_lower(vstd::utf8::decode_utf8(e)),
        ),
        None => false,
    }
}

/// Whether a path names an image that can be shown as it is.
pub open spec fn display_image(path: Seq<u8>) -> bool {
    has_extension(path, display_extensions())
}

/// Whether a path names a raw image.
pub open spec fn raw_image(path: Seq<u8>) -> bool {
    has_extension(path, raw_extensions())
}

/// Whether a path names a still image of either kind.
pub open spec fn supported_image(path: Seq<u8>) -> bool {
    display_image(path) || raw_image(path)
}

/// What pairs a raw image with a display image: the folder, and the name up to
/// the extension, where that is UTF-8.
pub open spec fn pairing(path: Seq<u8>) -> Seq<Seq<u8>> {
    components(folder_of(path)).push(
        match stem_of(path) {
            Some(stem) if vstd::utf8::valid_utf8(stem) => stem,
            _ => Seq::empty(),
        },
    )
}

/// Whether a path is that of a raw image with a display image beside it.
pub open spec fn companion(path: Seq<u8>, paths: Seq<MediaPath>) -> bool {
    raw_image(path) && exists|i: int|
        0 <= i < paths.len() && display_image((#[trigger] paths[i])@) && pairing(paths[i]@)
            == pairing(path)
}

/// The paths that are no companions.
pub open spec fn primaries(paths: Seq<MediaPath>) -> Seq<MediaPath> {
    paths.filter(|p: MediaPath| !companion(p@, paths))
}

/// The paths of the supported images among some entries.
pub open spec fn images(entries: Seq<WalkEntry>) -> Seq<MediaPath>
    decreases entries.len(),
{
    if entries.len() == 0 {
        Seq::empty()
    } else {
        let e = entries.last();
        if e.is_file && supported_image(e.path@) {
            images(entries.drop_last()).push(e.path)
        } else {
            images(entries.drop_last())
        }
    }
}

impl Ranked for MediaPath {
    open spec fn ahead(self, other: Self) -> bool {
        parts_side(components(self@), components(other@)) == Side::Before
    }

    proof fn ahead_is_an_order(a: Self, b: Self, c: Self) {
        crate::path::lemma_path_order(components(a@), components(b@), components(c@));
    }

    fn is_ahead(&self, other: &Self) -> bool {
        self.key().side(&other.key()) == Side::Before
    }
}

fn lower_extension(path: &MediaPath) -> (lower: Option<String>)
    ensures
        lower is Some <==> (extension_of(path@) matches Some(e) && vstd::utf8::valid_utf8(e)),
        lower matches Some(t) ==> t@ == ascii_lower(
            vstd::utf8::decode_utf8(extension_of(path@)->0),
        ),
{
    match path.extension() {
        Some(e) => Some(to_ascii_lower(e.as_str())),
        None => None,
    }
}

fn is_one_of(text: &str, candidates: &[&str]) -> (found: bool)
    ensures
        found <==> exists|i: int| 0 <= i < candidates@.len() && (#[trigger] candidates@[i])@
            == text@,
{
    let mut i: usize = 0;
    while i < candidates.len()
        invariant
            i <= candidates@.len(),
            forall|k: int| 0 <= k < i ==> (#[trigger] candidates@[k])@ != text@,
        decreases candidates@.len() - i,
    {
        if text_eq(candidates[i], text) {
            return true;
        }
        i += 1;
    }
    false
}

/// Whether a path names an image that can be shown as it is.
pub fn is_display_image(path: &MediaPath) -> (display: bool)
    ensures
        display == display_image(path@),
{
    match lower_extension(path) {
        Some(ext) => {
            let known: [&str; 8] = [
                "jpg",
                "jpeg",
                "png",
                "heic",
                "heif",
                "heics",
                "heifs",
                "hif",
            ];
            let found = is_one_of(ext.as_str(), known.as_slice());
            proof {
                lemma_listed(known@, display_extensions(), ext@);
            }
            found
        },
        None => false,
    }
}

/// Whether a path names a raw image.
pub fn is_raw_image(path: &MediaPath) -> (raw: bool)
    ensures
        raw == raw_image(path@),
{
    match lower_extension(path) {
        Some(ext) => {
            let known: [&str; 24] = [
                "3fr",
                "arw",
                "cr2",
                "cr3",
                "dcr",
                "dng",
                "erf",
                "fff",
                "gpr",
                "iiq",
                "k25",
                "kdc",
                "mrw",
                "nef",
                "nrw",
                "orf",
                "pef",
                "raf",
                "raw",
                "rw2",
                "sr2",
                "srf",
                "srw",
                "x3f",
            ];
            let found = is_one_of(ext.as_str(), known.as_slice());
            proof {
                lemma_listed(known@, raw_extensions(), ext@);
            }
            found
        },
        None => false,
    }
}

proof fn lemma_listed(known: Seq<&str>, extensions: Seq<Seq<char>>, text: Seq<char>)
    requires
        known.len() == extensions.len(),
        forall|i: int| 0 <= i < known.len() ==> (#[trigger] known[i])@ == extensions[i],
    ensures
        extensions.contains(text) <==> exists|i: int|
            0 <= i < known.len() && (#[trigger] known[i])@ == text,
{
    if extensions.contains(text) {
        let k = extensions.index_of(text);
        assert(known[k]@ == text);
    }
}

/// Whether a path names a still image of either kind.
pub fn is_supported_image(path: &MediaPath) -> (supported: bool)
    ensures
        supported == supported_image(path@),
{
    is_display_image(path) || is_raw_image(path)
}

/// What pairs a raw image with a display image.
pub fn group_key(path: &MediaPath) -> (key: PathKey)
    ensures
        key@ == pairing(path@),
{
    let folder = path.folder().key();
    let mut parts = folder.parts;
    let stem: Vec<u8> = match path.file_stem() {
        Some(stem) => if utf8_text(stem.as_slice()).is_some() {
            stem
        } else {
            Vec::new()
        },
        None => Vec::new(),
    };
    assert(stem@ =~= pairing(path@).last());
    parts.push(stem);
    let key = PathKey { parts };
    assert(key@ =~= pairing(path@));
    key
}

/// Drops companions and puts the rest in the order of their paths.
pub fn primary_items(paths: Vec<MediaPath>) -> (items: Vec<MediaPath>)
    ensures
        sorts(items@, primaries(paths@)),
{
    let ghost all = paths@;
    let mut keys: Vec<PathKey> = Vec::new();
    let mut i: usize = 0;
    while i < paths.len()
        invariant
            i <= paths@.len(),
            forall|k: int|
                0 <= k < keys@.len() ==> shows(paths@, (#[trigger] keys@[k])@),
            forall|k: int|
                0 <= k < i && display_image((#[trigger] paths@[k])@) ==> listed(
                    keys@,
                    pairing(paths@[k]@),
                ),
        decreases paths@.len() - i,
    {
        let ghost before = keys@;
        if is_display_image(&paths[i]) {
            let key = group_key(&paths[i]);
            assert(paths@[i as int]@ == paths[i as int]@);
            keys.push(key);
            assert(keys@.last()@ == pairing(paths@[i as int]@));
        }
        proof {
            assert forall|k: int| 0 <= k <= i && display_image((#[trigger] paths@[k])@) implies listed(
                keys@,
                pairing(paths@[k]@),
            ) by {
                if k < i {
                    let j = choose|j: int|
                        0 <= j < before.len() && (#[trigger] before[j])@ == pairing(paths@[k]@);
                    assert(keys@[j] == before[j]);
                }
            }
        }
        i += 1;
    }
    let ghost shown = keys@;
    let groups = PathSet::from_keys(keys);
    let mut rest = reversed(paths);
    let mut kept: Vec<MediaPath> = Vec::new();
    let ghost keep = |p: MediaPath| !companion(p@, all);
    proof {
        reveal(Seq::filter);
        assert(kept@ =~= all.take(0).filter(keep));
        assert(all.reverse().take(all.len() as int) =~= all.reverse());
    }
    #[verifier::loop_isolation(false)]
    while rest.len() > 0
        invariant
            rest@.len() <= all.len(),
            rest@ == all.reverse().take(rest@.len() as int),
            kept@ == all.take(all.len() - rest@.len()).filter(keep),
        decreases rest@.len(),
    {
        let ghost n = all.len() - rest@.len();
        let path = rest.pop().unwrap();
        proof {
            reveal(Seq::filter);
            assert(path == all[n]);
            assert(all.take(n + 1).drop_last() =~= all.take(n));
            assert(rest@ =~= all.reverse().take(rest@.len() as int));
        }
        let raw = is_raw_image(&path);
        let key = group_key(&path);
        let paired = groups.contains_key(&key);
        proof {
            if paired {
                let k = choose|k: int| 0 <= k < shown.len() && #[trigger] shown[k]@ == key@;
                assert(shows(all, shown[k]@));
            } else if companion(path@, all) {
                let k = choose|k: int|
                    0 <= k < all.len() && display_image((#[trigger] all[k])@) && pairing(all[k]@)
                        == pairing(path@);
                assert(listed(shown, pairing(all[k]@)));
            }
            assert(companion(path@, all) == (raw && paired));
        }
        if !(raw && paired) {
            kept.push(path);
        }
    }
    assert(all.take(all.len() as int) =~= all);
    sort(kept)
}

/// Whether a key pairs one of some display images.
spec fn shows(paths: Seq<MediaPath>, key: Seq<Seq<u8>>) -> bool {
    exists|i: int|
        0 <= i < paths.len() && display_image((#[trigger] paths[i])@) && pairing(paths[i]@) == key
}

spec fn listed(keys: Seq<PathKey>, key: Seq<Seq<u8>>) -> bool {
    exists|k: int| 0 <= k < keys.len() && (#[trigger] keys[k])@ == key
}

/// The items among what a walk came across, in the order of their paths.
pub fn walk_folder(entries: Vec<WalkEntry>) -> (items: Vec<MediaPath>)
    ensures
        sorts(items@, primaries(images(entries@))),
{
    let ghost all = entries@;
    let mut entries = entries;
    let mut back: Vec<MediaPath> = Vec::new();
    assert(all.skip(all.len() as int) =~= Seq::empty());
    assert(images(all) =~= images(all) + back@.reverse());
    while entries.len() > 0
        invariant
            entries@ == all.take(entries@.len() as int),
            entries@.len() <= all.len(),
            images(all) == images(entries@) + back@.reverse(),
        decreases entries@.len(),
    {
        let ghost now = entries@;
        let ghost sofar = back@;
        let entry = entries.pop().unwrap();
        assert(now.drop_last() =~= entries@);
        assert(entries@ =~= all.take(entries@.len() as int));
        if entry.is_file && is_supported_image(&entry.path) {
            back.push(entry.path);
            assert(back@.reverse() =~= seq![now.last().path] + sofar.reverse());
            assert(images(now) + sofar.reverse() =~= images(entries@) + back@.reverse());
        }
    }
    assert(images(all) =~= back@.reverse());
    primary_items(reversed(back))
}

// ---------------------------------------------------------------------------
// Laws
// ---------------------------------------------------------------------------

/// No extension is that of both a display image and a raw image.
proof fn lemma_extensions_differ(i: int, j: int)
    requires
        0 <= i < display_extensions().len(),
        0 <= j < raw_extensions().len(),
    ensures
        display_extensions()[i] != raw_extensions()[j],
{
    reveal_strlit("jpg");
    reveal_strlit("jpeg");
    reveal_strlit("png");
    reveal_strlit("heic");
    reveal_strlit("heif");
    reveal_strlit("heics");
    reveal_strlit("heifs");
    reveal_strlit("hif");
    reveal_strlit("3fr");
    reveal_strlit("arw");
    reveal_strlit("cr2");
    reveal_strlit("cr3");
    reveal_strlit("dcr");
    reveal_strlit("dng");
    reveal_strlit("erf");
    reveal_strlit("fff");
    reveal_strlit("gpr");
    reveal_strlit("iiq");
    reveal_strlit("k25");
    reveal_strlit("kdc");
    reveal_strlit("mrw");
    reveal_strlit("nef");
    reveal_strlit("nrw");
    reveal_strlit("orf");
    reveal_strlit("pef");
    reveal_strlit("raf");
    reveal_strlit("raw");
    reveal_strlit("rw2");
    reveal_strlit("sr2");
    reveal_strlit("srf");
    reveal_strlit("srw");
    reveal_strlit("x3f");
    let d = display_extensions()[i];
    let r = raw_extensions()[j];
    assert(r.len() == 3);
    if d.len() == 3 {
        assert(i == 0 || i == 2 || i == 7);
        assert(d[0] == 'j' || d[0] == 'p' || d[0] == 'h');
        assert(r[0] == 'p' ==> r[1] == 'e');
    }
}

/// A display image is no companion.
pub proof fn lemma_display_is_primary(path: Seq<u8>, paths: Seq<MediaPath>)
    requires
        display_image(path),
    ensures
        !companion(path, paths),
{
    if raw_image(path) {
        let e = ascii_lower(vstd::utf8::decode_utf8(extension_of(path)->0));
        lemma_extensions_differ(display_extensions().index_of(e), raw_extensions().index_of(e));
    }
}

/// The items are the given paths without companions: each item is one of the
/// paths, every display image is an item, and a raw image is an item exactly
/// where no display image is paired with it.
pub proof fn lemma_items(items: Seq<MediaPath>, paths: Seq<MediaPath>)
    requires
        sorts(items, primaries(paths)),
    ensures
        forall|i: int|
            0 <= i < items.len() ==> paths.contains(#[trigger] items[i]) && !companion(
                items[i]@,
                paths,
            ),
        forall|i: int|
            0 <= i < paths.len() ==> items.contains(#[trigger] paths[i]) || companion(
                paths[i]@,
                paths,
            ),
        forall|i: int|
            0 <= i < paths.len() && display_image((#[trigger] paths[i])@) ==> items.contains(
                paths[i],
            ),
{
    broadcast use vstd::seq_lib::group_to_multiset_ensures;

    let keep = |p: MediaPath| !companion(p@, paths);
    let kept = primaries(paths);
    assert(kept =~= paths.filter(keep));
    assert forall|i: int| 0 <= i < items.len() implies paths.contains(#[trigger] items[i])
        && !companion(items[i]@, paths) by {
        assert(items.to_multiset().contains(items[i]));
        assert(kept.contains(items[i]));
        let k = kept.index_of(items[i]);
        paths.lemma_filter_pred(keep, k);
        paths.lemma_filter_contains_rev(keep, items[i]);
    }
    assert forall|i: int| 0 <= i < paths.len() implies items.contains(#[trigger] paths[i])
        || companion(paths[i]@, paths) by {
        if keep(paths[i]) {
            paths.lemma_filter_contains(keep, i);
            assert(kept.to_multiset().contains(paths[i]));
            assert(items.to_multiset().contains(paths[i]));
        }
    }
    assert forall|i: int| 0 <= i < paths.len() && display_image((#[trigger] paths[i])@) implies items.contains(
        paths[i],
    ) by {
        lemma_display_is_primary(paths[i]@, paths);
    }
}

/// Of a raw image and a display image with the same folder and name, the
/// display image is the item.
pub proof fn lemma_pair_is_one_item(
    items: Seq<MediaPath>,
    paths: Seq<MediaPath>,
    raw: int,
    display: int,
)
    requires
        sorts(items, primaries(paths)),
        0 <= raw < paths.len(),
        0 <= display < paths.len(),
        raw_image(paths[raw]@),
        display_image(paths[display]@),
        pairing(paths[raw]@) == pairing(paths[display]@),
    ensures
        items.contains(paths[display]),
        !items.contains(paths[raw]),
{
    lemma_items(items, paths);
    assert(companion(paths[raw]@, paths));
}

/// Whether a path is that of an item among some files: a supported image, and no
/// raw image with a display image beside it.
pub open spec fn item_among(files: Set<Seq<u8>>, path: Seq<u8>) -> bool {
    &&& files.contains(path)
    &&& supported_image(path)
    &&& !(raw_image(path) && exists|other: Seq<u8>| #[trigger]
        files.contains(other) && display_image(other) && pairing(other) == pairing(path))
}

/// Whether a walk came across exactly some files, each of them once.
pub open spec fn found(entries: Seq<WalkEntry>, files: Set<Seq<u8>>) -> bool {
    &&& forall|i: int, j: int|
        0 <= i < j < entries.len() ==> (#[trigger] entries[i]).path@ != (
        #[trigger] entries[j]).path@
    &&& forall|i: int|
        0 <= i < entries.len() && (#[trigger] entries[i]).is_file ==> files.contains(
            entries[i].path@,
        )
    &&& forall|path: Seq<u8>| #[trigger]
        files.contains(path) ==> exists|i: int|
            0 <= i < entries.len() && (#[trigger] entries[i]).is_file && entries[i].path@ == path
}

/// Whether some paths are those of the items among some files, each of them once.
pub open spec fn items_among(files: Set<Seq<u8>>, items: Seq<MediaPath>) -> bool {
    &&& forall|i: int, j: int|
        0 <= i < j < items.len() ==> (#[trigger] items[i])@ != (#[trigger] items[j])@
    &&& forall|i: int| 0 <= i < items.len() ==> item_among(files, (#[trigger] items[i])@)
    &&& forall|path: Seq<u8>| #[trigger]
        item_among(files, path) ==> exists|i: int|
            0 <= i < items.len() && (#[trigger] items[i])@ == path
}

/// Whether no two of some paths are the same.
spec fn differ(paths: Seq<MediaPath>) -> bool {
    forall|i: int, j: int|
        0 <= i < j < paths.len() ==> (#[trigger] paths[i])@ != (#[trigger] paths[j])@
}

/// Whether the entry at `i` is a supported image with a path.
spec fn images_at(entries: Seq<WalkEntry>, path: MediaPath, i: int) -> bool {
    &&& 0 <= i < entries.len()
    &&& entries[i].is_file
    &&& supported_image(entries[i].path@)
    &&& entries[i].path == path
}

/// Whether a path is that of a supported image among some entries.
spec fn comes_from(entries: Seq<WalkEntry>, path: MediaPath) -> bool {
    exists|i: int| #[trigger] images_at(entries, path, i)
}

proof fn lemma_images(entries: Seq<WalkEntry>)
    requires
        forall|i: int, j: int|
            0 <= i < j < entries.len() ==> (#[trigger] entries[i]).path@ != (
            #[trigger] entries[j]).path@,
    ensures
        differ(images(entries)),
        forall|k: int|
            0 <= k < images(entries).len() ==> comes_from(entries, #[trigger] images(entries)[k]),
        forall|i: int|
            0 <= i < entries.len() && (#[trigger] entries[i]).is_file && supported_image(
                entries[i].path@,
            ) ==> images(entries).contains(entries[i].path),
    decreases entries.len(),
{
    if entries.len() > 0 {
        let init = entries.drop_last();
        let e = entries.last();
        assert(forall|i: int| 0 <= i < init.len() ==> init[i] == entries[i]);
        lemma_images(init);
        let before = images(init);
        let now = images(entries);
        assert forall|k: int| 0 <= k < now.len() implies comes_from(entries, #[trigger] now[k]) by {
            if k < before.len() {
                assert(now[k] == before[k]);
                assert(comes_from(init, before[k]));
                let i = choose|i: int| #[trigger] images_at(init, before[k], i);
                assert(images_at(entries, now[k], i));
            } else {
                assert(images_at(entries, now[k], entries.len() - 1));
            }
        }
        assert forall|i: int| 0 <= i < entries.len() && (#[trigger] entries[i]).is_file
            && supported_image(entries[i].path@) implies now.contains(entries[i].path) by {
            if i < init.len() {
                assert(init[i].is_file);
                let k = before.index_of(init[i].path);
                assert(now[k] == init[i].path);
            } else {
                assert(now[now.len() - 1] == e.path);
            }
        }
        assert forall|a: int, b: int| 0 <= a < b < now.len() implies (#[trigger] now[a])@ != (
        #[trigger] now[b])@ by {
            assert(now[a] == before[a]);
            if b < before.len() {
                assert(now[b] == before[b]);
            } else {
                assert(comes_from(init, before[a]));
                let i = choose|i: int| #[trigger] images_at(init, before[a], i);
                assert(entries[i].path@ != entries[entries.len() - 1].path@);
            }
        }
    }
}

proof fn lemma_filtered_differ(paths: Seq<MediaPath>, keep: spec_fn(MediaPath) -> bool)
    requires
        differ(paths),
    ensures
        differ(paths.filter(keep)),
    decreases paths.len(),
{
    reveal(Seq::filter);
    if paths.len() > 0 {
        let init = paths.drop_last();
        assert(forall|i: int| 0 <= i < init.len() ==> init[i] == paths[i]);
        lemma_filtered_differ(init, keep);
        let before = init.filter(keep);
        let now = paths.filter(keep);
        assert forall|a: int, b: int| 0 <= a < b < now.len() implies (#[trigger] now[a])@ != (
        #[trigger] now[b])@ by {
            assert(now[a] == before[a]);
            if b < before.len() {
                assert(now[b] == before[b]);
            } else {
                assert(before.contains(before[a]));
                init.lemma_filter_contains_rev(keep, before[a]);
                let i = init.index_of(before[a]);
                assert(paths[i]@ != paths[paths.len() - 1]@);
            }
        }
    }
}

/// The items of a walk are those among the files that it came across, each of
/// them once. So they depend on the files alone and not on their order.
pub proof fn lemma_items_among(
    entries: Seq<WalkEntry>,
    files: Set<Seq<u8>>,
    items: Seq<MediaPath>,
)
    requires
        found(entries, files),
        sorts(items, primaries(images(entries))),
    ensures
        items_among(files, items),
{
    broadcast use vstd::seq_lib::group_to_multiset_ensures;

    let paths = images(entries);
    lemma_images(entries);
    lemma_items(items, paths);
    assert forall|path: Seq<u8>|
        (exists|i: int| 0 <= i < paths.len() && (#[trigger] paths[i])@ == path) == (
        #[trigger] files.contains(path) && supported_image(path)) by {
        if exists|i: int| 0 <= i < paths.len() && (#[trigger] paths[i])@ == path {
            let k = choose|i: int| 0 <= i < paths.len() && (#[trigger] paths[i])@ == path;
            assert(comes_from(entries, paths[k]));
            let i = choose|i: int| #[trigger] images_at(entries, paths[k], i);
            assert(files.contains(entries[i].path@));
        }
        if files.contains(path) && supported_image(path) {
            let i = choose|i: int|
                0 <= i < entries.len() && (#[trigger] entries[i]).is_file && entries[i].path@
                    == path;
            let k = paths.index_of(entries[i].path);
            assert(paths[k]@ == path);
        }
    }
    assert forall|path: Seq<u8>| #[trigger] companion(path, paths) == (raw_image(path) && exists|
        other: Seq<u8>,
    | #[trigger]
        files.contains(other) && display_image(other) && pairing(other) == pairing(path)) by {
        if companion(path, paths) {
            let i = choose|i: int|
                0 <= i < paths.len() && display_image((#[trigger] paths[i])@) && pairing(
                    paths[i]@,
                ) == pairing(path);
            assert(files.contains(paths[i]@));
        }
        if raw_image(path) && exists|other: Seq<u8>| #[trigger]
            files.contains(other) && display_image(other) && pairing(other) == pairing(path) {
            let other = choose|other: Seq<u8>| #[trigger]
                files.contains(other) && display_image(other) && pairing(other) == pairing(path);
            let i = choose|i: int| 0 <= i < paths.len() && (#[trigger] paths[i])@ == other;
            assert(display_image(paths[i]@));
        }
    }
    assert forall|i: int| 0 <= i < items.len() implies item_among(files, (#[trigger] items[i])@) by {
        let k = paths.index_of(items[i]);
        assert(paths[k]@ == items[i]@);
        assert(files.contains(items[i]@));
        assert(!companion(items[i]@, paths));
    }
    assert forall|path: Seq<u8>| #[trigger] item_among(files, path) implies exists|i: int|
        0 <= i < items.len() && (#[trigger] items[i])@ == path by {
        assert(files.contains(path));
        let k = choose|i: int| 0 <= i < paths.len() && (#[trigger] paths[i])@ == path;
        assert(!companion(path, paths));
        assert(items.contains(paths[k]));
        let i = items.index_of(paths[k]);
        assert(items[i]@ == path);
    }
    let keep = |p: MediaPath| !companion(p@, paths);
    let kept = primaries(paths);
    assert(kept =~= paths.filter(keep));
    lemma_filtered_differ(paths, keep);
    assert(kept.no_duplicates());
    kept.lemma_multiset_has_no_duplicates();
    items.lemma_multiset_has_no_duplicates_conv();
    assert forall|i: int, j: int| 0 <= i < j < items.len() implies (#[trigger] items[i])@ != (
    #[trigger] items[j])@ by {
        let a = paths.index_of(items[i]);
        let b = paths.index_of(items[j]);
        assert(items[i] != items[j]);
        assert(paths[a] != paths[b]);
    }
}

/// Whether a path has no stem, or one that is no text.
pub open spec fn textless(path: Seq<u8>) -> bool {
    match stem_of(path) {
        Some(stem) => !vstd::utf8::valid_utf8(stem) || stem.len() == 0,
        None => true,
    }
}

/// Whether two paths have the same stem. Stems that are no text count as one.
pub open spec fn same_stem(p: Seq<u8>, q: Seq<u8>) -> bool {
    stem_of(p) == stem_of(q) || (textless(p) && textless(q))
}

/// A raw image is left out of the items exactly where a display image stands in
/// the same folder, by all the components of the folder, and has the same stem. A
/// display image is never left out, and whatever is no supported image always is.
pub proof fn lemma_left_out(entries: Seq<WalkEntry>, files: Set<Seq<u8>>, items: Seq<MediaPath>)
    requires
        found(entries, files),
        sorts(items, primaries(images(entries))),
    ensures
        forall|i: int|
            0 <= i < items.len() ==> files.contains((#[trigger] items[i])@) && (display_image(
                items[i]@,
            ) || raw_image(items[i]@)),
        forall|i: int, j: int|
            0 <= i < j < items.len() ==> (#[trigger] items[i])@ != (#[trigger] items[j])@,
        forall|p: Seq<u8>| #[trigger]
            files.contains(p) && display_image(p) ==> is_listed(items, p),
        forall|p: Seq<u8>| #[trigger]
            files.contains(p) && raw_image(p) && !display_image(p) && !is_listed(items, p)
                ==> has_display_twin(files, p),
        forall|p: Seq<u8>, q: Seq<u8>| #[trigger]
            files.contains(p) && raw_image(p) && #[trigger] files.contains(q) && display_image(q)
                && components(folder_of(q)) == components(folder_of(p)) && stem_of(p) is Some
                && stem_of(q) == stem_of(p) ==> !is_listed(items, p),
{
    lemma_items_among(entries, files, items);
    assert forall|p: Seq<u8>| #[trigger] files.contains(p) && display_image(p) implies is_listed(
        items,
        p,
    ) by {
        lemma_display_is_primary(p, Seq::empty());
        lemma_display_is_not_raw(p);
        assert(item_among(files, p));
    }
    assert forall|p: Seq<u8>| #[trigger]
        files.contains(p) && raw_image(p) && !display_image(p) && !is_listed(items, p)
            implies has_display_twin(files, p) by {
        assert(!item_among(files, p));
        let q = choose|other: Seq<u8>| #[trigger]
            files.contains(other) && display_image(other) && pairing(other) == pairing(p);
        lemma_pairing(p, q);
        assert(twins(files, p, q));
    }
    assert forall|p: Seq<u8>, q: Seq<u8>| #[trigger]
        files.contains(p) && raw_image(p) && #[trigger] files.contains(q) && display_image(q)
            && components(folder_of(q)) == components(folder_of(p)) && stem_of(p) is Some
            && stem_of(q) == stem_of(p) implies !is_listed(items, p) by {
        assert(pairing(q) == pairing(p));
        assert(!item_among(files, p));
    }
}

/// Whether a path is among some items.
pub open spec fn is_listed(items: Seq<MediaPath>, path: Seq<u8>) -> bool {
    exists|i: int| 0 <= i < items.len() && (#[trigger] items[i])@ == path
}

/// Whether `q` is a display image in the folder of `p` with its stem.
pub open spec fn twins(files: Set<Seq<u8>>, p: Seq<u8>, q: Seq<u8>) -> bool {
    &&& files.contains(q)
    &&& display_image(q)
    &&& components(folder_of(q)) == components(folder_of(p))
    &&& same_stem(p, q)
}

/// Whether a display image stands in the folder of a path and has its stem.
pub open spec fn has_display_twin(files: Set<Seq<u8>>, p: Seq<u8>) -> bool {
    exists|q: Seq<u8>| #[trigger] twins(files, p, q)
}

proof fn lemma_display_is_not_raw(path: Seq<u8>)
    requires
        display_image(path),
    ensures
        !raw_image(path),
{
    if raw_image(path) {
        let e = ascii_lower(vstd::utf8::decode_utf8(extension_of(path)->0));
        lemma_extensions_differ(display_extensions().index_of(e), raw_extensions().index_of(e));
    }
}

proof fn lemma_pairing(p: Seq<u8>, q: Seq<u8>)
    requires
        pairing(p) == pairing(q),
    ensures
        components(folder_of(p)) == components(folder_of(q)),
        same_stem(p, q),
{
    let (a, b) = (components(folder_of(p)), components(folder_of(q)));
    assert(pairing(p).len() == a.len() + 1);
    assert(pairing(q).len() == b.len() + 1);
    assert(pairing(p).drop_last() =~= a);
    assert(pairing(q).drop_last() =~= b);
    assert(pairing(p).last() == pairing(q).last());
}

/// Which names are known as which images: by what follows the last dot, in upper or
/// lower case.
pub proof fn lemma_known_formats(path: Seq<u8>, extension: Seq<char>)
    requires
        extension_of(path) is Some,
        vstd::utf8::valid_utf8(extension_of(path)->0),
        extension == ascii_lower(vstd::utf8::decode_utf8(extension_of(path)->0)),
    ensures
        display_image(path) <==> (extension == "jpg"@ || extension == "jpeg"@ || extension == "png"@
            || extension == "heic"@ || extension == "heif"@ || extension == "heics"@ || extension
            == "heifs"@ || extension == "hif"@),
        raw_image(path) <==> (extension == "3fr"@ || extension == "arw"@ || extension == "cr2"@
            || extension == "cr3"@ || extension == "dcr"@ || extension == "dng"@ || extension
            == "erf"@ || extension == "fff"@ || extension == "gpr"@ || extension == "iiq"@
            || extension == "k25"@ || extension == "kdc"@ || extension == "mrw"@ || extension
            == "nef"@ || extension == "nrw"@ || extension == "orf"@ || extension == "pef"@
            || extension == "raf"@ || extension == "raw"@ || extension == "rw2"@ || extension
            == "sr2"@ || extension == "srf"@ || extension == "srw"@ || extension == "x3f"@),
{
    let d = display_extensions();
    let r = raw_extensions();
    assert(d[0] == "jpg"@ && d[1] == "jpeg"@ && d[2] == "png"@ && d[3] == "heic"@ && d[4] == "heif"@
        && d[5] == "heics"@ && d[6] == "heifs"@ && d[7] == "hif"@ && d.len() == 8);
    assert(r[0] == "3fr"@ && r[1] == "arw"@ && r[2] == "cr2"@ && r[3] == "cr3"@ && r[4] == "dcr"@
        && r[5] == "dng"@ && r[6] == "erf"@ && r[7] == "fff"@ && r[8] == "gpr"@ && r[9] == "iiq"@
        && r[10] == "k25"@ && r[11] == "kdc"@ && r[12] == "mrw"@ && r[13] == "nef"@ && r[14]
        == "nrw"@ && r[15] == "orf"@ && r[16] == "pef"@ && r[17] == "raf"@ && r[18] == "raw"@
        && r[19] == "rw2"@ && r[20] == "sr2"@ && r[21] == "srf"@ && r[22] == "srw"@ && r[23]
        == "x3f"@ && r.len() == 24);
}

/// A name without an extension, or with one that is not UTF-8, is that of no image.
pub proof fn lemma_no_format(path: Seq<u8>)
    requires
        extension_of(path) is None || !vstd::utf8::valid_utf8(extension_of(path)->0),
    ensures
        !display_image(path),
        !raw_image(path),
{
}

/// Items stand in the order of their paths: of two items whose paths have their first `k`
/// components in common, the one whose path ends there comes first, and otherwise the
/// one whose next component comes first, byte by byte.
pub proof fn lemma_items_in_order(
    items: Seq<MediaPath>,
    paths: Seq<MediaPath>,
    i: int,
    j: int,
    k: int,
    m: int,
)
    requires
        sorts(items, primaries(paths)),
        0 <= i < items.len(),
        0 <= j < items.len(),
        ({
            let a = components(items[i]@);
            let b = components(items[j]@);
            &&& 0 <= k <= a.len()
            &&& k < b.len()
            &&& forall|c: int| 0 <= c < k ==> #[trigger] a[c] == b[c]
            &&& k == a.len() || {
                &&& 0 <= m <= a[k].len()
                &&& m < b[k].len()
                &&& forall|c: int| 0 <= c < m ==> #[trigger] a[k][c] == b[k][c]
                &&& m == a[k].len() || a[k][m] < b[k][m]
            }
        }),
    ensures
        i < j,
{
    let a = components(items[i]@);
    let b = components(items[j]@);
    if k < a.len() {
        crate::path::lemma_bytes_in_order(a[k], b[k], m);
    }
    crate::path::lemma_paths_in_order(a, b, k);
    assert(items[i].ahead(items[j]));
    if j < i {
        assert(!items[i].ahead(items[j]));
    }
}

}
