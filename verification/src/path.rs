//! Unix paths as bytes, read by their components.
//!
//! Two paths are the same when their components are, and one lies under
//! another when the other's components come first: `/a//b/` and `/a/./b` name
//! one place, and `/ab` does not lie under `/a`.

use crate::sort::{sort, Ranked};
use crate::text::{lossy_text, to_lossy_text, utf8_text};
use vstd::prelude::*;
use vstd::slice::slice_to_vec;

verus! {

/// A path, as the bytes that name it.
#[derive(Debug, PartialEq, Eq, Hash)]
pub struct MediaPath {
    pub bytes: Vec<u8>,
}

impl View for MediaPath {
    type V = Seq<u8>;

    open spec fn view(&self) -> Seq<u8> {
        self.bytes@
    }
}

impl Clone for MediaPath {
    fn clone(&self) -> (copy: Self)
        ensures
            copy@ == self@,
    {
        MediaPath { bytes: slice_to_vec(self.bytes.as_slice()) }
    }
}

// ---------------------------------------------------------------------------
// Components
// ---------------------------------------------------------------------------

/// Where the last segment of a path starts: after the last slash.
pub open spec fn segment_start(s: Seq<u8>) -> int
    decreases s.len(),
{
    if s.len() == 0 {
        0
    } else if s.last() == 47 {
        s.len() as int
    } else {
        segment_start(s.drop_last())
    }
}

/// Whether a segment is a component. An empty segment is none, and neither is a
/// dot, except at the beginning of the path.
pub open spec fn is_component(s: Seq<u8>, from: int, to: int) -> bool {
    from < to && !(to - from == 1 && s[from] == 46 && from > 0)
}

/// The components of a path that a slash ends, each as the stretch of bytes
/// that it takes. A slash that the path begins with is the root, a component.
pub open spec fn closed_spans(s: Seq<u8>) -> Seq<(int, int)>
    decreases s.len(),
{
    if s.len() == 0 {
        Seq::empty()
    } else if s.last() != 47 {
        closed_spans(s.drop_last())
    } else if s.len() == 1 {
        seq![(0int, 1int)]
    } else {
        let before = s.drop_last();
        let from = segment_start(before);
        let to = before.len() as int;
        if is_component(before, from, to) {
            closed_spans(before).push((from, to))
        } else {
            closed_spans(before)
        }
    }
}

/// The components of a path, each as the stretch of bytes that it takes.
pub open spec fn spans(s: Seq<u8>) -> Seq<(int, int)> {
    let from = segment_start(s);
    if is_component(s, from, s.len() as int) {
        closed_spans(s).push((from, s.len() as int))
    } else {
        closed_spans(s)
    }
}

/// A component, told apart by its kind: the root, the dot at the beginning, two
/// dots, or a name.
pub open spec fn component_key(text: Seq<u8>) -> Seq<u8> {
    if text == seq![47u8] {
        seq![0u8]
    } else if text == seq![46u8] {
        seq![1u8]
    } else if text == seq![46u8, 46u8] {
        seq![2u8]
    } else {
        seq![3u8] + text
    }
}

/// The components of a path.
pub open spec fn components(s: Seq<u8>) -> Seq<Seq<u8>> {
    Seq::new(
        spans(s).len(),
        |i: int| component_key(s.subrange(spans(s)[i].0, spans(s)[i].1)),
    )
}

/// Whether a path is `root` or lies under it.
pub open spec fn lies_under(s: Seq<u8>, root: Seq<u8>) -> bool {
    components(root).is_prefix_of(components(s))
}

/// A path without its last component, as far as the component before it
/// reaches. The root and the empty path have none.
pub open spec fn parent_of(s: Seq<u8>) -> Option<Seq<u8>> {
    let n = spans(s).len();
    if n == 0 || components(s).last() == seq![0u8] {
        None
    } else if n == 1 {
        Some(Seq::empty())
    } else {
        Some(s.take(spans(s)[n - 2].1))
    }
}

/// The folder that a path lies in: its parent, or the empty path.
pub open spec fn folder_of(s: Seq<u8>) -> Seq<u8> {
    match parent_of(s) {
        Some(p) => p,
        None => Seq::empty(),
    }
}

/// The last component of a path, where that is a name.
pub open spec fn name_of(s: Seq<u8>) -> Option<Seq<u8>> {
    if spans(s).len() > 0 && components(s).last().len() > 0 && components(s).last()[0] == 3 {
        Some(components(s).last().skip(1))
    } else {
        None
    }
}

/// Where the last dot of a name stands, if it has one.
pub open spec fn last_dot(name: Seq<u8>) -> Option<int>
    decreases name.len(),
{
    if name.len() == 0 {
        None
    } else if name.last() == 46 {
        Some(name.len() - 1)
    } else {
        last_dot(name.drop_last())
    }
}

/// What follows the last dot of a path's name. A dot that the name begins with
/// does not count.
pub open spec fn extension_of(s: Seq<u8>) -> Option<Seq<u8>> {
    match name_of(s) {
        Some(name) => match last_dot(name) {
            Some(i) if i > 0 => Some(name.skip(i + 1)),
            _ => None,
        },
        None => None,
    }
}

/// A path's name up to its last dot. A dot that the name begins with does not
/// count.
pub open spec fn stem_of(s: Seq<u8>) -> Option<Seq<u8>> {
    match name_of(s) {
        Some(name) => match last_dot(name) {
            Some(i) if i > 0 => Some(name.take(i)),
            _ => Some(name),
        },
        None => None,
    }
}

/// A path with one more component or several, or `name` itself where that is
/// absolute.
pub open spec fn joined(base: Seq<u8>, name: Seq<u8>) -> Seq<u8> {
    if name.len() > 0 && name[0] == 47 {
        name
    } else if base.len() > 0 && base.last() != 47 {
        base + seq![47u8] + name
    } else {
        base + name
    }
}

proof fn lemma_segment_start(s: Seq<u8>)
    ensures
        0 <= segment_start(s) <= s.len(),
    decreases s.len(),
{
    if s.len() > 0 && s.last() != 47 {
        lemma_segment_start(s.drop_last());
    }
}

proof fn lemma_closed_spans(s: Seq<u8>)
    ensures
        forall|k: int|
            0 <= k < closed_spans(s).len() ==> 0 <= (#[trigger] closed_spans(s)[k]).0
                < closed_spans(s)[k].1 <= s.len(),
        forall|k: int|
            0 <= k < closed_spans(s).len() ==> spans(s.take((#[trigger] closed_spans(s)[k]).1))
                == closed_spans(s).take(k + 1),
    decreases s.len(),
{
    if s.len() == 0 {
    } else if s.last() != 47 {
        let p = s.drop_last();
        lemma_closed_spans(p);
        assert forall|k: int| 0 <= k < closed_spans(s).len() implies 0 <= (
        #[trigger] closed_spans(s)[k]).0 < closed_spans(s)[k].1 <= s.len() && spans(
            s.take(closed_spans(s)[k].1),
        ) == closed_spans(s).take(k + 1) by {
            assert(closed_spans(p)[k].1 <= p.len());
            assert(s.take(closed_spans(s)[k].1) =~= p.take(closed_spans(p)[k].1));
        }
    } else if s.len() == 1 {
        assert(s.take(1) =~= s);
        assert(segment_start(s) == 1);
        assert(closed_spans(s).take(1) =~= closed_spans(s));
    } else {
        let p = s.drop_last();
        let to = p.len() as int;
        lemma_closed_spans(p);
        lemma_segment_start(p);
        assert forall|k: int| 0 <= k < closed_spans(s).len() implies 0 <= (
        #[trigger] closed_spans(s)[k]).0 < closed_spans(s)[k].1 <= s.len() && spans(
            s.take(closed_spans(s)[k].1),
        ) == closed_spans(s).take(k + 1) by {
            if k < closed_spans(p).len() {
                assert(closed_spans(s)[k] == closed_spans(p)[k]);
                assert(s.take(closed_spans(s)[k].1) =~= p.take(closed_spans(p)[k].1));
                assert(closed_spans(s).take(k + 1) =~= closed_spans(p).take(k + 1));
            } else {
                assert(s.take(to) =~= p);
                assert(closed_spans(s).take(k + 1) =~= closed_spans(s));
            }
        }
    }
}

proof fn lemma_spans(s: Seq<u8>)
    ensures
        forall|k: int|
            0 <= k < spans(s).len() ==> 0 <= (#[trigger] spans(s)[k]).0 < spans(s)[k].1 <= s.len(),
        forall|k: int|
            0 <= k < spans(s).len() ==> spans(s.take((#[trigger] spans(s)[k]).1)) == spans(
                s,
            ).take(k + 1),
{
    lemma_closed_spans(s);
    lemma_segment_start(s);
    assert forall|k: int| 0 <= k < spans(s).len() implies spans(
        s.take((#[trigger] spans(s)[k]).1),
    ) == spans(s).take(k + 1) by {
        if k < closed_spans(s).len() {
            assert(spans(s)[k] == closed_spans(s)[k]);
            assert(spans(s).take(k + 1) =~= closed_spans(s).take(k + 1));
        } else {
            assert(s.take(s.len() as int) =~= s);
            assert(spans(s).take(k + 1) =~= spans(s));
        }
    }
}

/// The components of a path's parent are those of the path without the last.
pub proof fn lemma_parent_components(s: Seq<u8>)
    ensures
        parent_of(s) matches Some(p) ==> components(p) == components(s).drop_last(),
        parent_of(s) is None <==> components(s).len() == 0 || components(s).last() == seq![0u8],
{
    lemma_spans(s);
    let n = spans(s).len();
    if let Some(p) = parent_of(s) {
        if n == 1 {
            assert(p.len() == 0);
            assert(spans(p) =~= Seq::empty());
            assert(components(p) =~= components(s).drop_last());
        } else {
            let e = spans(s)[n - 2].1;
            assert(p == s.take(e));
            assert(spans(p) == spans(s).take(n - 1));
            assert forall|i: int| 0 <= i < n - 1 implies components(p)[i] == components(s)[i] by {
                assert(spans(p)[i] == spans(s)[i]);
                lemma_spans(p);
                assert(p.subrange(spans(p)[i].0, spans(p)[i].1) =~= s.subrange(
                    spans(s)[i].0,
                    spans(s)[i].1,
                ));
            }
            assert(components(p) =~= components(s).drop_last());
        }
    }
}

/// Every path lies under itself and under its parent.
pub proof fn lemma_lies_under_parent(s: Seq<u8>)
    ensures
        lies_under(s, s),
        lies_under(s, folder_of(s)) || parent_of(s) is None,
{
    lemma_parent_components(s);
}

proof fn lemma_extend(s: Seq<u8>, name: Seq<u8>)
    requires
        forall|i: int| 0 <= i < name.len() ==> #[trigger] name[i] != 47,
    ensures
        closed_spans(s + name) == closed_spans(s),
        segment_start(s + name) == segment_start(s),
    decreases name.len(),
{
    if name.len() == 0 {
        assert(s + name =~= s);
    } else {
        let init = name.drop_last();
        assert(forall|i: int| 0 <= i < init.len() ==> init[i] == name[i]);
        lemma_extend(s, init);
        assert((s + name).drop_last() =~= s + init);
        assert((s + name).last() == name[name.len() - 1]);
    }
}

/// Joining one name to a path adds one component to it. The result lies under
/// the path.
pub proof fn lemma_join_adds_component(base: Seq<u8>, name: Seq<u8>)
    requires
        name.len() > 0,
        forall|i: int| 0 <= i < name.len() ==> #[trigger] name[i] != 47,
        name != seq![46u8],
    ensures
        components(joined(base, name)) == components(base).push(component_key(name)),
        lies_under(joined(base, name), base),
{
    let whole = joined(base, name);
    let s = if base.len() > 0 && base.last() != 47 {
        base.push(47)
    } else {
        base
    };
    assert(name[0] != 47);
    assert(whole =~= s + name);
    lemma_extend(s, name);
    if base.len() > 0 && base.last() != 47 {
        assert(s.drop_last() =~= base);
        assert(s.last() == 47);
        assert(closed_spans(s) == spans(base));
        assert(segment_start(s) == s.len());
    } else {
        assert(segment_start(s) == s.len());
        assert(closed_spans(s) == spans(base));
    }
    let from = s.len() as int;
    let to = whole.len() as int;
    assert(whole.subrange(from, to) =~= name);
    assert(is_component(whole, from, to)) by {
        if to - from == 1 && whole[from] == 46 {
            assert(name =~= seq![46u8]);
        }
    }
    assert(spans(whole) == spans(base).push((from, to)));
    lemma_spans(base);
    assert forall|i: int| 0 <= i < spans(base).len() implies components(whole)[i] == components(
        base,
    )[i] by {
        let (a, b) = spans(base)[i];
        assert(spans(whole)[i] == (a, b));
        assert(whole.subrange(a, b) =~= base.subrange(a, b));
    }
    assert(components(whole) =~= components(base).push(component_key(name)));
    assert(components(base) =~= components(whole).take(components(base).len() as int));
}

// ---------------------------------------------------------------------------
// Reading paths
// ---------------------------------------------------------------------------

spec fn spans_view(v: Seq<(usize, usize)>) -> Seq<(int, int)> {
    Seq::new(v.len(), |i: int| (v[i].0 as int, v[i].1 as int))
}

fn push_component(found: &mut Vec<(usize, usize)>, s: &[u8], from: usize, to: usize)
    requires
        from <= to <= s@.len(),
    ensures
        spans_view(final(found)@) == if is_component(s@, from as int, to as int) {
            spans_view(old(found)@).push((from as int, to as int))
        } else {
            spans_view(old(found)@)
        },
{
    let ghost before = found@;
    if from < to && !(to - from == 1 && s[from] == 46 && from > 0) {
        found.push((from, to));
        assert(spans_view(found@) =~= spans_view(before).push((from as int, to as int)));
    }
}

/// Finds the components of a path.
fn find_spans(s: &[u8]) -> (found: Vec<(usize, usize)>)
    ensures
        spans_view(found@) == spans(s@),
{
    let mut found: Vec<(usize, usize)> = Vec::new();
    let mut from: usize = 0;
    let mut i: usize = 0;
    assert(spans_view(found@) =~= closed_spans(s@.take(0)));
    while i < s.len()
        invariant
            from <= i <= s@.len(),
            from == segment_start(s@.take(i as int)),
            spans_view(found@) == closed_spans(s@.take(i as int)),
        decreases s@.len() - i,
    {
        let ghost now = s@.take(i as int);
        let ghost next = s@.take(i + 1);
        assert(next.drop_last() =~= now);
        assert(next.last() == s@[i as int]);
        if s[i] == 47 {
            if i == 0 {
                assert(found@.len() == 0) by {
                    assert(now =~= Seq::empty());
                    assert(spans_view(found@).len() == 0);
                }
                found.push((0, 1));
                assert(spans_view(found@) =~= closed_spans(next));
            } else {
                push_component(&mut found, s, from, i);
                proof {
                    lemma_segment_start(now);
                    assert(is_component(s@, from as int, i as int) == is_component(
                        now,
                        from as int,
                        i as int,
                    ));
                }
            }
            from = i + 1;
        }
        i += 1;
    }
    assert(s@.take(s@.len() as int) =~= s@);
    push_component(&mut found, s, from, s.len());
    found
}

/// The byte string of one component, kind first.
fn key_of_component(s: &[u8], from: usize, to: usize) -> (key: Vec<u8>)
    requires
        from < to <= s@.len(),
    ensures
        key@ == component_key(s@.subrange(from as int, to as int)),
{
    let ghost text = s@.subrange(from as int, to as int);
    if to - from == 1 && s[from] == 47 {
        assert(text =~= seq![47u8]);
        vec![0u8]
    } else if to - from == 1 && s[from] == 46 {
        assert(text =~= seq![46u8]);
        vec![1u8]
    } else if to - from == 2 && s[from] == 46 && s[from + 1] == 46 {
        assert(text =~= seq![46u8, 46u8]);
        vec![2u8]
    } else {
        proof {
            if text == seq![47u8] || text == seq![46u8] {
                assert(text[0] == s@[from as int]);
            }
            if text == seq![46u8, 46u8] {
                assert(text[0] == s@[from as int] && text[1] == s@[from + 1]);
            }
        }
        let mut key: Vec<u8> = vec![3u8];
        let mut i: usize = from;
        while i < to
            invariant
                from <= i <= to <= s@.len(),
                key@ == seq![3u8] + s@.subrange(from as int, i as int),
            decreases to - i,
        {
            key.push(s[i]);
            i += 1;
            assert(key@ =~= seq![3u8] + s@.subrange(from as int, i as int));
        }
        key
    }
}

/// The bytes of a stretch.
fn stretch(s: &[u8], from: usize, to: usize) -> (copy: Vec<u8>)
    requires
        from <= to <= s@.len(),
    ensures
        copy@ == s@.subrange(from as int, to as int),
{
    let mut copy: Vec<u8> = Vec::new();
    let mut i: usize = from;
    while i < to
        invariant
            from <= i <= to <= s@.len(),
            copy@ == s@.subrange(from as int, i as int),
        decreases to - i,
    {
        copy.push(s[i]);
        i += 1;
        assert(copy@ =~= s@.subrange(from as int, i as int));
    }
    copy
}

fn find_last_dot(name: &[u8]) -> (at: Option<usize>)
    ensures
        last_dot(name@) == (match at {
            Some(i) => Some(i as int),
            None => None,
        }),
        at matches Some(i) ==> i < name@.len(),
{
    let mut n: usize = name.len();
    assert(name@.take(n as int) =~= name@);
    while n > 0
        invariant
            n <= name@.len(),
            last_dot(name@) == last_dot(name@.take(n as int)),
        decreases n,
    {
        assert(name@.take(n as int).drop_last() =~= name@.take(n - 1));
        if name[n - 1] == 46 {
            return Some(n - 1);
        }
        n -= 1;
    }
    None
}

impl MediaPath {
    /// The path that a text names.
    pub fn from_text(text: &str) -> (path: MediaPath)
        ensures
            path@ == vstd::utf8::encode_utf8(text@),
    {
        MediaPath { bytes: slice_to_vec(text.as_bytes()) }
    }

    /// The text of the path. What is not UTF-8 in it becomes replacement
    /// characters.
    pub fn to_text(&self) -> (text: String)
        ensures
            text@ == lossy_text(self@),
            vstd::utf8::valid_utf8(self@) ==> text@ == vstd::utf8::decode_utf8(self@),
    {
        to_lossy_text(self.bytes.as_slice())
    }

    /// The components of the path.
    pub fn key(&self) -> (key: PathKey)
        ensures
            key@ == components(self@),
    {
        let found = find_spans(self.bytes.as_slice());
        let mut parts: Vec<Vec<u8>> = Vec::new();
        let mut i: usize = 0;
        proof {
            lemma_spans(self@);
        }
        while i < found.len()
            invariant
                i <= found@.len(),
                spans_view(found@) == spans(self@),
                parts@.len() == i,
                forall|k: int|
                    0 <= k < spans(self@).len() ==> 0 <= (#[trigger] spans(self@)[k]).0 < spans(
                        self@,
                    )[k].1 <= self@.len(),
                forall|k: int| 0 <= k < i ==> (#[trigger] parts@[k])@ == components(self@)[k],
            decreases found@.len() - i,
        {
            let (from, to) = found[i];
            assert(spans(self@)[i as int] == (from as int, to as int));
            parts.push(key_of_component(self.bytes.as_slice(), from, to));
            i += 1;
        }
        let key = PathKey { parts };
        assert(key@ =~= components(self@));
        key
    }

    /// The path without its last component.
    pub fn parent(&self) -> (parent: Option<MediaPath>)
        ensures
            parent is Some <==> parent_of(self@) is Some,
            parent matches Some(p) ==> Some(p@) == parent_of(self@),
    {
        let s = self.bytes.as_slice();
        let found = find_spans(s);
        let n: usize = found.len();
        proof {
            lemma_spans(self@);
            assert(n == spans(self@).len());
        }
        if n == 0 {
            return None;
        }
        let (from, to) = found[n - 1];
        assert(spans(self@)[n - 1] == (from as int, to as int));
        assert(components(self@).last() == component_key(
            self@.subrange(from as int, to as int),
        ));
        if to - from == 1 && s[from] == 47 {
            assert(self@.subrange(from as int, to as int) =~= seq![47u8]);
            return None;
        }
        proof {
            let text = self@.subrange(from as int, to as int);
            assert(text[0] == s@[from as int]);
            assert(text != seq![47u8]) by {
                if text == seq![47u8] {
                    assert(text.len() == 1 && text[0] == 47);
                }
            }
            assert(component_key(text)[0] != 0);
            assert(component_key(text) != seq![0u8]) by {
                if component_key(text) == seq![0u8] {
                    assert(component_key(text)[0] == 0);
                }
            }
        }
        if n == 1 {
            let bytes: Vec<u8> = Vec::new();
            assert(bytes@ =~= Seq::empty());
            return Some(MediaPath { bytes });
        }
        let end = found[n - 2].1;
        assert(spans(self@)[n - 2] == (found@[n - 2].0 as int, end as int));
        let bytes = stretch(s, 0, end);
        assert(bytes@ =~= self@.take(end as int));
        Some(MediaPath { bytes })
    }

    /// The folder that the path lies in, or the empty path.
    pub fn folder(&self) -> (folder: MediaPath)
        ensures
            folder@ == folder_of(self@),
    {
        match self.parent() {
            Some(p) => p,
            None => {
                let bytes: Vec<u8> = Vec::new();
                assert(bytes@ =~= Seq::empty());
                MediaPath { bytes }
            },
        }
    }

    /// The last component of the path, where that is a name.
    pub fn file_name(&self) -> (name: Option<Vec<u8>>)
        ensures
            name is Some <==> name_of(self@) is Some,
            name matches Some(n) ==> Some(n@) == name_of(self@),
    {
        let key = self.key();
        let n: usize = key.parts.len();
        if n == 0 {
            return None;
        }
        let last = &key.parts[n - 1];
        assert(components(self@).last() == last@);
        if last.len() > 0 && last[0] == 3 {
            let name = stretch(last.as_slice(), 1, last.len());
            assert(name@ =~= last@.skip(1));
            Some(name)
        } else {
            None
        }
    }

    /// What follows the last dot of the path's name, where that is UTF-8.
    pub fn extension(&self) -> (extension: Option<String>)
        ensures
            extension is Some <==> (extension_of(self@) matches Some(e)
                && vstd::utf8::valid_utf8(e)),
            extension matches Some(t) ==> t@ == vstd::utf8::decode_utf8(
                extension_of(self@)->0,
            ),
    {
        match self.file_name() {
            Some(name) => match find_last_dot(name.as_slice()) {
                Some(i) if i > 0 => {
                    let end: usize = name.len();
                    let bytes = stretch(name.as_slice(), i + 1, end);
                    assert(bytes@ =~= name@.skip(i + 1));
                    utf8_text(bytes.as_slice())
                },
                _ => None,
            },
            None => None,
        }
    }

    /// The path's name up to its last dot.
    pub fn file_stem(&self) -> (stem: Option<Vec<u8>>)
        ensures
            stem is Some <==> stem_of(self@) is Some,
            stem matches Some(t) ==> Some(t@) == stem_of(self@),
    {
        match self.file_name() {
            Some(name) => match find_last_dot(name.as_slice()) {
                Some(i) if i > 0 => {
                    let bytes = stretch(name.as_slice(), 0, i);
                    assert(bytes@ =~= name@.take(i as int));
                    Some(bytes)
                },
                _ => Some(name),
            },
            None => None,
        }
    }

    /// The path with `name` joined to it.
    pub fn join(&self, name: &str) -> (path: MediaPath)
        ensures
            path@ == joined(self@, vstd::utf8::encode_utf8(name@)),
    {
        let tail = name.as_bytes();
        if tail.len() > 0 && tail[0] == 47 {
            return MediaPath { bytes: slice_to_vec(tail) };
        }
        let mut bytes = slice_to_vec(self.bytes.as_slice());
        if bytes.len() > 0 && bytes[bytes.len() - 1] != 47 {
            bytes.push(47);
        }
        bytes.extend_from_slice(tail);
        assert(bytes@ =~= joined(self@, tail@));
        MediaPath { bytes }
    }

    /// Whether the path is `root` or lies under it.
    pub fn starts_with(&self, root: &MediaPath) -> (under: bool)
        ensures
            under == lies_under(self@, root@),
    {
        let key = self.key();
        let prefix = root.key();
        if prefix.parts.len() > key.parts.len() {
            return false;
        }
        let mut i: usize = 0;
        while i < prefix.parts.len()
            invariant
                i <= prefix.parts@.len() <= key.parts@.len(),
                prefix@ == components(root@),
                key@ == components(self@),
                forall|k: int| 0 <= k < i ==> prefix@[k] == key@[k],
            decreases prefix.parts@.len() - i,
        {
            if !crate::text::bytes_eq(prefix.parts[i].as_slice(), key.parts[i].as_slice()) {
                assert(prefix@[i as int] != key@[i as int]);
                return false;
            }
            assert(prefix@[i as int] == key@[i as int]);
            i += 1;
        }
        assert(prefix@ =~= key@.take(prefix@.len() as int));
        true
    }
}

// ---------------------------------------------------------------------------
// Order
// ---------------------------------------------------------------------------

/// The components of a path.
#[derive(Debug)]
pub struct PathKey {
    pub parts: Vec<Vec<u8>>,
}

impl View for PathKey {
    type V = Seq<Seq<u8>>;

    open spec fn view(&self) -> Seq<Seq<u8>> {
        Seq::new(self.parts@.len(), |i: int| self.parts@[i]@)
    }
}

/// On which side of another value one stands.
#[derive(Clone, Copy, Debug, PartialEq, Eq, Structural)]
pub enum Side {
    Before,
    Level,
    After,
}

/// How byte strings stand to each other in dictionary order.
pub open spec fn bytes_side(a: Seq<u8>, b: Seq<u8>) -> Side
    decreases a.len(),
{
    if a.len() == 0 {
        if b.len() == 0 {
            Side::Level
        } else {
            Side::Before
        }
    } else if b.len() == 0 {
        Side::After
    } else if a[0] < b[0] {
        Side::Before
    } else if a[0] > b[0] {
        Side::After
    } else {
        bytes_side(a.skip(1), b.skip(1))
    }
}

/// How paths stand to each other: component by component, in dictionary order.
pub open spec fn parts_side(a: Seq<Seq<u8>>, b: Seq<Seq<u8>>) -> Side
    decreases a.len(),
{
    if a.len() == 0 {
        if b.len() == 0 {
            Side::Level
        } else {
            Side::Before
        }
    } else if b.len() == 0 {
        Side::After
    } else if bytes_side(a[0], b[0]) != Side::Level {
        bytes_side(a[0], b[0])
    } else {
        parts_side(a.skip(1), b.skip(1))
    }
}

proof fn lemma_bytes_side(a: Seq<u8>, b: Seq<u8>)
    ensures
        bytes_side(a, b) == Side::Level <==> a == b,
        bytes_side(a, b) == Side::Before <==> bytes_side(b, a) == Side::After,
        bytes_side(a, b) == Side::After <==> bytes_side(b, a) == Side::Before,
    decreases a.len(),
{
    if a.len() > 0 && b.len() > 0 {
        lemma_bytes_side(a.skip(1), b.skip(1));
        if a[0] == b[0] {
            assert(a =~= seq![a[0]] + a.skip(1));
            assert(b =~= seq![b[0]] + b.skip(1));
        }
    } else if a.len() == 0 && b.len() == 0 {
        assert(a =~= b);
    }
}

proof fn lemma_bytes_side_chain(a: Seq<u8>, b: Seq<u8>, c: Seq<u8>)
    requires
        bytes_side(a, b) == Side::Before,
        bytes_side(b, c) == Side::Before,
    ensures
        bytes_side(a, c) == Side::Before,
    decreases a.len(),
{
    if a.len() > 0 && b.len() > 0 && c.len() > 0 && a[0] == b[0] && b[0] == c[0] {
        lemma_bytes_side_chain(a.skip(1), b.skip(1), c.skip(1));
    }
}

proof fn lemma_parts_side(a: Seq<Seq<u8>>, b: Seq<Seq<u8>>)
    ensures
        parts_side(a, b) == Side::Level <==> a == b,
        parts_side(a, b) == Side::Before <==> parts_side(b, a) == Side::After,
        parts_side(a, b) == Side::After <==> parts_side(b, a) == Side::Before,
    decreases a.len(),
{
    if a.len() > 0 && b.len() > 0 {
        lemma_bytes_side(a[0], b[0]);
        lemma_parts_side(a.skip(1), b.skip(1));
        if a[0] == b[0] {
            assert(a =~= seq![a[0]] + a.skip(1));
            assert(b =~= seq![b[0]] + b.skip(1));
        }
    } else if a.len() == 0 && b.len() == 0 {
        assert(a =~= b);
    }
}

proof fn lemma_parts_side_chain(a: Seq<Seq<u8>>, b: Seq<Seq<u8>>, c: Seq<Seq<u8>>)
    requires
        parts_side(a, b) == Side::Before,
        parts_side(b, c) == Side::Before,
    ensures
        parts_side(a, c) == Side::Before,
    decreases a.len(),
{
    if a.len() > 0 && b.len() > 0 && c.len() > 0 {
        lemma_bytes_side(a[0], b[0]);
        lemma_bytes_side(b[0], c[0]);
        lemma_bytes_side(a[0], c[0]);
        if bytes_side(a[0], b[0]) == Side::Before && bytes_side(b[0], c[0]) == Side::Before {
            lemma_bytes_side_chain(a[0], b[0], c[0]);
        } else if bytes_side(a[0], b[0]) == Side::Level && bytes_side(b[0], c[0])
            == Side::Level {
            lemma_parts_side_chain(a.skip(1), b.skip(1), c.skip(1));
        }
    }
}

/// The order of paths by their components is a strict weak order.
pub proof fn lemma_path_order(a: Seq<Seq<u8>>, b: Seq<Seq<u8>>, c: Seq<Seq<u8>>)
    ensures
        parts_side(a, b) == Side::Before ==> parts_side(b, a) != Side::Before,
        parts_side(a, b) == Side::Before && parts_side(b, c) == Side::Before ==> parts_side(a, c)
            == Side::Before,
        parts_side(b, a) != Side::Before && parts_side(c, b) != Side::Before ==> parts_side(c, a)
            != Side::Before,
        parts_side(a, b) == Side::Level <==> a == b,
{
    lemma_parts_side(a, b);
    lemma_parts_side(b, c);
    lemma_parts_side(a, c);
    if parts_side(a, b) == Side::Before && parts_side(b, c) == Side::Before {
        lemma_parts_side_chain(a, b, c);
    }
    if parts_side(c, a) == Side::Before && parts_side(a, b) == Side::Before {
        lemma_parts_side_chain(c, a, b);
    }
}

fn side_of_bytes(a: &[u8], b: &[u8]) -> (side: Side)
    ensures
        side == bytes_side(a@, b@),
{
    let mut i: usize = 0;
    assert(a@.skip(0) =~= a@ && b@.skip(0) =~= b@);
    while i < a.len() && i < b.len()
        invariant
            i <= a@.len(),
            i <= b@.len(),
            bytes_side(a@, b@) == bytes_side(a@.skip(i as int), b@.skip(i as int)),
        decreases a@.len() - i,
    {
        if a[i] < b[i] {
            return Side::Before;
        }
        if a[i] > b[i] {
            return Side::After;
        }
        assert(a@.skip(i as int).skip(1) =~= a@.skip(i + 1));
        assert(b@.skip(i as int).skip(1) =~= b@.skip(i + 1));
        i += 1;
    }
    if i < b.len() {
        Side::Before
    } else if i < a.len() {
        Side::After
    } else {
        Side::Level
    }
}

impl PathKey {
    /// How the path of `self` stands to that of `other`.
    pub fn side(&self, other: &PathKey) -> (side: Side)
        ensures
            side == parts_side(self@, other@),
    {
        let mut i: usize = 0;
        assert(self@.skip(0) =~= self@ && other@.skip(0) =~= other@);
        while i < self.parts.len() && i < other.parts.len()
            invariant
                i <= self.parts@.len(),
                i <= other.parts@.len(),
                parts_side(self@, other@) == parts_side(
                    self@.skip(i as int),
                    other@.skip(i as int),
                ),
            decreases self.parts@.len() - i,
        {
            let side = side_of_bytes(self.parts[i].as_slice(), other.parts[i].as_slice());
            assert(self@.skip(i as int)[0] == self.parts@[i as int]@);
            assert(other@.skip(i as int)[0] == other.parts@[i as int]@);
            if side != Side::Level {
                return side;
            }
            assert(self@.skip(i as int).skip(1) =~= self@.skip(i + 1));
            assert(other@.skip(i as int).skip(1) =~= other@.skip(i + 1));
            i += 1;
        }
        if i < other.parts.len() {
            Side::Before
        } else if i < self.parts.len() {
            Side::After
        } else {
            Side::Level
        }
    }
}

impl Ranked for PathKey {
    open spec fn ahead(self, other: Self) -> bool {
        parts_side(self@, other@) == Side::Before
    }

    proof fn ahead_is_an_order(a: Self, b: Self, c: Self) {
        lemma_path_order(a@, b@, c@);
    }

    fn is_ahead(&self, other: &Self) -> bool {
        self.side(other) == Side::Before
    }
}

// ---------------------------------------------------------------------------
// Sets
// ---------------------------------------------------------------------------

/// A set of paths, each by its components.
#[derive(Debug)]
pub struct PathSet {
    keys: Vec<PathKey>,
}

impl View for PathSet {
    type V = Set<Seq<Seq<u8>>>;

    closed spec fn view(&self) -> Set<Seq<Seq<u8>>> {
        Set::new(|k: Seq<Seq<u8>>| exists|i: int| 0 <= i < self.keys@.len() && #[trigger] self.keys@[i]@ == k)
    }
}

impl PathSet {
    #[verifier::type_invariant]
    spec fn ordered(self) -> bool {
        crate::sort::in_order(self.keys@)
    }

    /// The set of the given components.
    pub fn from_keys(keys: Vec<PathKey>) -> (set: PathSet)
        ensures
            forall|k: Seq<Seq<u8>>| #[trigger]
                set@.contains(k) <==> exists|i: int| 0 <= i < keys@.len() && #[trigger] keys@[i]@ == k,
    {
        let ghost given = keys@;
        let keys = sort(keys);
        let set = PathSet { keys };
        proof {
            broadcast use vstd::seq_lib::group_to_multiset_ensures;
            assert forall|k: Seq<Seq<u8>>| #[trigger]
                set@.contains(k) implies exists|i: int| 0 <= i < given.len() && #[trigger] given[i]@ == k by {
                let i = choose|i: int| 0 <= i < keys@.len() && #[trigger] keys@[i]@ == k;
                assert(keys@.to_multiset().contains(keys@[i]));
                assert(given.to_multiset().contains(keys@[i]));
                assert(given.contains(keys@[i]));
            }
            assert forall|k: Seq<Seq<u8>>|
                (exists|i: int| 0 <= i < given.len() && #[trigger] given[i]@ == k) implies #[trigger] set@.contains(k) by {
                let i = choose|i: int| 0 <= i < given.len() && #[trigger] given[i]@ == k;
                assert(given.to_multiset().contains(given[i]));
                assert(keys@.to_multiset().contains(given[i]));
                assert(keys@.contains(given[i]));
            }
        }
        set
    }

    /// The set of the given paths.
    pub fn from_paths(paths: &Vec<MediaPath>) -> (set: PathSet)
        ensures
            forall|k: Seq<Seq<u8>>| #[trigger]
                set@.contains(k) <==> exists|i: int|
                    0 <= i < paths@.len() && #[trigger] components(paths@[i]@) == k,
    {
        let mut keys: Vec<PathKey> = Vec::new();
        let mut i: usize = 0;
        while i < paths.len()
            invariant
                i <= paths@.len(),
                keys@.len() == i,
                forall|k: int| 0 <= k < i ==> (#[trigger] keys@[k])@ == components(paths@[k]@),
            decreases paths@.len() - i,
        {
            keys.push(paths[i].key());
            i += 1;
        }
        let ghost given = keys@;
        let set = PathSet::from_keys(keys);
        proof {
            assert forall|k: Seq<Seq<u8>>| #[trigger] set@.contains(k) implies exists|i: int|
                0 <= i < paths@.len() && #[trigger] components(paths@[i]@) == k by {
                let i = choose|i: int| 0 <= i < given.len() && #[trigger] given[i]@ == k;
                assert(components(paths@[i]@) == k);
            }
            assert forall|k: Seq<Seq<u8>>|
                (exists|i: int| 0 <= i < paths@.len() && #[trigger] components(paths@[i]@) == k) implies #[trigger] set@.contains(k) by {
                let i = choose|i: int| 0 <= i < paths@.len() && #[trigger] components(paths@[i]@) == k;
                assert(given[i]@ == k);
            }
        }
        set
    }

    /// Whether the set holds the given components.
    pub fn contains_key(&self, key: &PathKey) -> (found: bool)
        ensures
            found == self@.contains(key@),
    {
        proof {
            use_type_invariant(self);
        }
        let mut low: usize = 0;
        let mut high: usize = self.keys.len();
        while low < high
            invariant
                low <= high <= self.keys@.len(),
                crate::sort::in_order(self.keys@),
                forall|i: int| 0 <= i < low ==> (#[trigger] self.keys@[i])@ != key@,
                forall|i: int| high <= i < self.keys@.len() ==> (#[trigger] self.keys@[i])@ != key@,
            decreases high - low,
        {
            let middle: usize = low + (high - low) / 2;
            let side = self.keys[middle].side(key);
            proof {
                lemma_parts_side(self.keys@[middle as int]@, key@);
            }
            match side {
                Side::Level => {
                    return true;
                },
                Side::Before => {
                    proof {
                        assert forall|i: int| 0 <= i < middle + 1 implies (
                        #[trigger] self.keys@[i])@ != key@ by {
                            if i < middle {
                                assert(!self.keys@[middle as int].ahead(self.keys@[i]));
                            }
                        }
                    }
                    low = middle + 1;
                },
                Side::After => {
                    proof {
                        assert forall|i: int| middle <= i < self.keys@.len() implies (
                        #[trigger] self.keys@[i])@ != key@ by {
                            if i > middle {
                                assert(!self.keys@[i].ahead(self.keys@[middle as int]));
                            }
                            lemma_parts_side(key@, self.keys@[middle as int]@);
                        }
                    }
                    high = middle;
                },
            }
        }
        false
    }

    /// Whether the set holds the path, or one that names the same place.
    pub fn contains(&self, path: &MediaPath) -> (found: bool)
        ensures
            found == self@.contains(components(path@)),
    {
        self.contains_key(&path.key())
    }
}

/// A name that is joined to a path is the name of the result, and the path is its
/// folder.
pub proof fn lemma_join_names(base: Seq<u8>, name: Seq<u8>)
    requires
        name.len() > 0,
        forall|i: int| 0 <= i < name.len() ==> #[trigger] name[i] != 47,
        name != seq![46u8],
        name != seq![46u8, 46u8],
    ensures
        name_of(joined(base, name)) == Some(name),
        components(folder_of(joined(base, name))) == components(base),
{
    let path = joined(base, name);
    lemma_join_adds_component(base, name);
    lemma_parent_components(path);
    if name == seq![47u8] {
        assert(name[0] == 47);
    }
    assert(components(path).last() == seq![3u8] + name);
    assert((seq![3u8] + name)[0] == 3u8);
    assert(seq![3u8] + name != seq![0u8]) by {
        assert((seq![3u8] + name).len() > 1);
    }
    assert((seq![3u8] + name).skip(1) =~= name);
    assert(components(path).drop_last() =~= components(base));
}

proof fn lemma_last_dot(name: Seq<u8>)
    ensures
        last_dot(name) matches Some(i) ==> 0 <= i < name.len() && name[i] == 46,
        last_dot(name) matches Some(i) ==> forall|k: int|
            i < k < name.len() ==> #[trigger] name[k] != 46,
        last_dot(name) is None ==> forall|k: int| 0 <= k < name.len() ==> #[trigger] name[k] != 46,
    decreases name.len(),
{
    if name.len() > 0 && name.last() != 46 {
        let init = name.drop_last();
        lemma_last_dot(init);
        assert(forall|k: int| 0 <= k < init.len() ==> init[k] == name[k]);
    }
}

/// A name is its stem, or its stem, a dot and its extension. The dot is the last one of
/// the name, and not its first character.
pub proof fn lemma_stem_and_extension(s: Seq<u8>)
    ensures
        name_of(s) is None ==> stem_of(s) is None && extension_of(s) is None,
        name_of(s) matches Some(name) ==> (stem_of(s) matches Some(stem) && match extension_of(s) {
            Some(extension) => {
                &&& name == stem + seq![46u8] + extension
                &&& stem.len() > 0
                &&& forall|k: int| 0 <= k < extension.len() ==> #[trigger] extension[k] != 46
            },
            None => {
                &&& stem == name
                &&& forall|k: int| 0 < k < name.len() ==> #[trigger] name[k] != 46
            },
        }),
{
    if let Some(name) = name_of(s) {
        lemma_last_dot(name);
        if let Some(i) = last_dot(name) {
            if i > 0 {
                assert(name =~= name.take(i) + seq![46u8] + name.skip(i + 1));
            }
        }
    }
}

/// One path lies under another exactly where all components of the other come first.
pub proof fn lemma_lies_under(s: Seq<u8>, root: Seq<u8>)
    ensures
        lies_under(s, root) <==> components(root).len() <= components(s).len() && forall|i: int|
            0 <= i < components(root).len() ==> #[trigger] components(root)[i] == components(s)[i],
{
    if components(root).len() <= components(s).len() && forall|i: int|
        0 <= i < components(root).len() ==> #[trigger] components(root)[i] == components(s)[i] {
        assert(components(root) =~= components(s).take(components(root).len() as int));
    }
}

/// A path whose last name only begins with that of another does not lie under it.
pub proof fn lemma_longer_name_lies_elsewhere(root: Seq<u8>, more: Seq<u8>)
    requires
        root.len() > 0,
        root.last() != 47,
        root.last() != 46,
        more.len() > 0,
        forall|i: int| 0 <= i < more.len() ==> #[trigger] more[i] != 47,
    ensures
        !lies_under(root + more, root),
{
    let path = root + more;
    lemma_extend(root, more);
    lemma_segment_start(root);
    let from = segment_start(root);
    lemma_segment_is_open(root);
    assert(path[from] == root[from]);
    let (n, m) = (root.len() as int, path.len() as int);
    assert(is_component(root, from, n)) by {
        if n - from == 1 {
            assert(root[from] == root.last());
        }
    }
    assert(is_component(path, from, m));
    let a = root.subrange(from, n);
    let b = path.subrange(from, m);
    assert(a.last() == root.last());
    assert(a != seq![46u8] && a != seq![46u8, 46u8] && a != seq![47u8]) by {
        if a == seq![46u8] || a == seq![46u8, 46u8] {
            assert(a.last() == 46);
        }
        if a == seq![47u8] {
            assert(a.last() == 47);
        }
    }
    assert(b.len() > a.len());
    assert(b != seq![46u8, 46u8]) by {
        if b == seq![46u8, 46u8] {
            assert(b[a.len() - 1] == a.last());
            assert(b[0] == 46u8);
        }
    }
    assert(b != seq![46u8] && b != seq![47u8]);
    lemma_closed_spans(root);
    let k = closed_spans(root).len() as int;
    assert(components(root)[k] == component_key(a));
    assert(components(path)[k] == component_key(b));
    assert(component_key(a).len() != component_key(b).len());
}

proof fn lemma_segment_is_open(s: Seq<u8>)
    requires
        s.len() > 0,
        s.last() != 47,
    ensures
        segment_start(s) < s.len(),
{
    lemma_segment_start(s.drop_last());
}

/// Byte strings stand in the order of the first byte in which they differ; one that
/// begins another comes before it.
pub proof fn lemma_bytes_in_order(a: Seq<u8>, b: Seq<u8>, k: int)
    requires
        0 <= k <= a.len(),
        k < b.len(),
        forall|i: int| 0 <= i < k ==> #[trigger] a[i] == b[i],
        k == a.len() || a[k] < b[k],
    ensures
        bytes_side(a, b) == Side::Before,
        bytes_side(b, a) == Side::After,
    decreases k,
{
    if k > 0 {
        assert forall|i: int| 0 <= i < k - 1 implies #[trigger] a.skip(1)[i] == b.skip(1)[i] by {
            assert(a[i + 1] == b[i + 1]);
        }
        assert(a[0] == b[0]);
        lemma_bytes_in_order(a.skip(1), b.skip(1), k - 1);
    }
}

/// Paths stand in the order of the first component in which they differ; one that
/// begins another comes before it.
pub proof fn lemma_paths_in_order(a: Seq<Seq<u8>>, b: Seq<Seq<u8>>, k: int)
    requires
        0 <= k <= a.len(),
        k < b.len(),
        forall|i: int| 0 <= i < k ==> #[trigger] a[i] == b[i],
        k == a.len() || bytes_side(a[k], b[k]) == Side::Before,
    ensures
        parts_side(a, b) == Side::Before,
        parts_side(b, a) == Side::After,
    decreases k,
{
    if k > 0 {
        assert forall|i: int| 0 <= i < k - 1 implies #[trigger] a.skip(1)[i] == b.skip(1)[i] by {
            assert(a[i + 1] == b[i + 1]);
        }
        assert(a[0] == b[0]);
        lemma_bytes_side(a[0], b[0]);
        lemma_bytes_side(b[0], a[0]);
        lemma_paths_in_order(a.skip(1), b.skip(1), k - 1);
    } else if a.len() > 0 {
        lemma_bytes_side(a[0], b[0]);
    }
}

/// A slash at the end of a path, or a slash and a dot, changes nothing of what the path
/// stands for.
pub proof fn lemma_slash_at_the_end(s: Seq<u8>)
    requires
        s.len() > 0,
    ensures
        components(s.push(47)) == components(s),
        components(s.push(47).push(46)) == components(s),
{
    let t = s.push(47);
    let u = t.push(46);
    assert(t.drop_last() =~= s);
    assert(u.drop_last() =~= t);
    lemma_spans(s);
    assert(spans(t) == spans(s));
    assert(segment_start(u) == t.len());
    assert(spans(u) == spans(s));
    assert forall|i: int| 0 <= i < spans(s).len() implies s.subrange(
        (#[trigger] spans(s)[i]).0,
        spans(s)[i].1,
    ) == t.subrange(spans(s)[i].0, spans(s)[i].1) && s.subrange(spans(s)[i].0, spans(s)[i].1)
        == u.subrange(spans(s)[i].0, spans(s)[i].1) by {
        assert(s.subrange(spans(s)[i].0, spans(s)[i].1) =~= t.subrange(
            spans(s)[i].0,
            spans(s)[i].1,
        ));
        assert(s.subrange(spans(s)[i].0, spans(s)[i].1) =~= u.subrange(
            spans(s)[i].0,
            spans(s)[i].1,
        ));
    }
    assert(components(t) =~= components(s));
    assert(components(u) =~= components(s));
}

proof fn lemma_root_span(s: Seq<u8>)
    requires
        s.len() > 0,
        s[0] == 47,
    ensures
        closed_spans(s).len() > 0,
        closed_spans(s)[0] == (0int, 1int),
    decreases s.len(),
{
    if s.len() > 1 {
        lemma_root_span(s.drop_last());
    }
}

/// A path that begins with a slash begins with the root.
pub proof fn lemma_begins_with_root(s: Seq<u8>)
    requires
        s.len() > 0,
        s[0] == 47,
    ensures
        components(s).len() > 0,
        components(s)[0] == components(seq![47u8])[0],
        lies_under(s, seq![47u8]),
{
    lemma_root_span(s);
    let root = seq![47u8];
    lemma_root_span(root);
    assert(root.drop_last() =~= Seq::empty());
    assert(segment_start(root) == 1);
    assert(spans(root) =~= seq![(0int, 1int)]);
    assert(s.subrange(0, 1) =~= root.subrange(0, 1));
    assert(spans(s)[0] == (0int, 1int));
    assert(components(root) =~= components(s).take(1));
}

}
