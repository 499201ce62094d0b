//! A stable merge sort, and the opposite order.

use vstd::prelude::*;

verus! {

/// A type whose values have an order of precedence. Values of which neither
/// comes ahead of the other are level.
pub trait Ranked: Sized {
    /// Whether `self` belongs ahead of `other`.
    spec fn ahead(self, other: Self) -> bool;

    /// Precedence is a strict weak order.
    proof fn ahead_is_an_order(a: Self, b: Self, c: Self)
        ensures
            a.ahead(b) ==> !b.ahead(a),
            a.ahead(b) && b.ahead(c) ==> a.ahead(c),
            !b.ahead(a) && !c.ahead(b) ==> !c.ahead(a),
    ;

    /// Whether `self` belongs ahead of `other`.
    fn is_ahead(&self, other: &Self) -> (ahead: bool)
        ensures
            ahead == self.ahead(*other),
    ;
}

/// Whether neither of two values comes ahead of the other.
pub open spec fn level<T: Ranked>(a: T, b: T) -> bool {
    !a.ahead(b) && !b.ahead(a)
}

/// Whether no value stands behind one that it belongs ahead of.
pub open spec fn in_order<T: Ranked>(s: Seq<T>) -> bool {
    forall|i: int, j: int| 0 <= i < j < s.len() ==> !(#[trigger] s[j]).ahead(#[trigger] s[i])
}

/// The values of a sequence that are level with `x`, in their order.
pub open spec fn levels_of<T: Ranked>(s: Seq<T>, x: T) -> Seq<T> {
    s.filter(|y: T| level(x, y))
}

/// Whether `out` is `s` put in order, with values that are level left in the
/// order in which `s` has them.
pub open spec fn sorts<T: Ranked>(out: Seq<T>, s: Seq<T>) -> bool {
    &&& in_order(out)
    &&& out.to_multiset() == s.to_multiset()
    &&& forall|x: T| #[trigger] levels_of(out, x) == levels_of(s, x)
}

/// What holds while `left` and `right` are merged from their ends and `tail`
/// holds what was taken.
spec fn merging<T: Ranked>(left: Seq<T>, right: Seq<T>, tail: Seq<T>, s: Seq<T>) -> bool {
    &&& in_order(left)
    &&& in_order(right)
    &&& in_order(tail)
    &&& forall|i: int, j: int|
        0 <= i < left.len() && 0 <= j < tail.len() ==> !(#[trigger] tail[j]).ahead(
            #[trigger] left[i],
        )
    &&& forall|i: int, j: int|
        0 <= i < right.len() && 0 <= j < tail.len() ==> !(#[trigger] tail[j]).ahead(
            #[trigger] right[i],
        )
    &&& (left + right + tail).to_multiset() == s.to_multiset()
    &&& forall|x: T| #[trigger]
        levels_of(left, x) + levels_of(right, x) + levels_of(tail, x) == levels_of(s, x)
}

proof fn lemma_levels_push<T: Ranked>(s: Seq<T>, y: T, x: T)
    ensures
        levels_of(s.push(y), x) == if level(x, y) {
            levels_of(s, x).push(y)
        } else {
            levels_of(s, x)
        },
{
    reveal(Seq::filter);
    assert(s.push(y).drop_last() =~= s);
}

proof fn lemma_levels_front<T: Ranked>(y: T, s: Seq<T>, x: T)
    ensures
        levels_of(seq![y] + s, x) == if level(x, y) {
            seq![y] + levels_of(s, x)
        } else {
            levels_of(s, x)
        },
{
    Seq::filter_distributes_over_add(seq![y], s, |z: T| level(x, z));
    lemma_levels_push(Seq::<T>::empty(), y, x);
    assert(Seq::<T>::empty().push(y) =~= seq![y]);
    reveal(Seq::filter);
    assert(levels_of(Seq::<T>::empty(), x) =~= Seq::<T>::empty());
    assert(Seq::<T>::empty() + levels_of(s, x) =~= levels_of(s, x));
}

proof fn lemma_no_levels<T: Ranked>(s: Seq<T>, x: T)
    requires
        forall|i: int| 0 <= i < s.len() ==> !level(x, #[trigger] s[i]),
    ensures
        levels_of(s, x) == Seq::<T>::empty(),
    decreases s.len(),
{
    reveal(Seq::filter);
    if s.len() > 0 {
        lemma_no_levels(s.drop_last(), x);
    }
    assert(levels_of(s, x) =~= Seq::<T>::empty());
}

proof fn lemma_same_bag<T>(a: Seq<T>, b: Seq<T>, c: Seq<T>, y: T)
    ensures
        (a + b.push(y) + c).to_multiset() == (a + b + (seq![y] + c)).to_multiset(),
        (a.push(y) + b + c).to_multiset() == (a + b + (seq![y] + c)).to_multiset(),
{
    assert(a + b.push(y) + c =~= a + b + (seq![y] + c));
    vstd::seq_lib::lemma_multiset_commutative(a.push(y), b);
    vstd::seq_lib::lemma_multiset_commutative(a.push(y) + b, c);
    vstd::seq_lib::lemma_multiset_commutative(a, b);
    vstd::seq_lib::lemma_multiset_commutative(a + b, seq![y] + c);
    vstd::seq_lib::lemma_multiset_commutative(seq![y], c);
    vstd::seq_lib::to_multiset_build(a, y);
    vstd::seq_lib::to_multiset_build(Seq::<T>::empty(), y);
    assert(Seq::<T>::empty().push(y) =~= seq![y]);
    Seq::<T>::empty().to_multiset_ensures();
    assert(Seq::<T>::empty().to_multiset() =~= vstd::multiset::Multiset::empty());
    assert((a.push(y) + b + c).to_multiset() =~= (a + b + (seq![y] + c)).to_multiset());
}

proof fn lemma_front_in_order<T: Ranked>(y: T, tail: Seq<T>)
    requires
        in_order(tail),
        forall|j: int| 0 <= j < tail.len() ==> !(#[trigger] tail[j]).ahead(y),
    ensures
        in_order(seq![y] + tail),
{
    let s = seq![y] + tail;
    assert forall|i: int, j: int| 0 <= i < j < s.len() implies !(#[trigger] s[j]).ahead(
        #[trigger] s[i],
    ) by {
        assert(s[j] == tail[j - 1]);
        if i > 0 {
            assert(s[i] == tail[i - 1]);
        }
    }
}

proof fn lemma_take_right<T: Ranked>(
    left: Seq<T>,
    right: Seq<T>,
    y: T,
    tail: Seq<T>,
    s: Seq<T>,
)
    requires
        merging(left, right.push(y), tail, s),
        left.len() == 0 || !y.ahead(left.last()),
    ensures
        merging(left, right, seq![y] + tail, s),
{
    let full = right.push(y);
    let rest = seq![y] + tail;
    assert(full.last() == y);
    assert(forall|i: int| 0 <= i < right.len() ==> right[i] == full[i]);
    lemma_front_in_order(y, tail);
    lemma_same_bag(left, right, tail, y);
    assert forall|i: int, j: int| 0 <= i < left.len() && 0 <= j < rest.len() implies !(
    #[trigger] rest[j]).ahead(#[trigger] left[i]) by {
        if j > 0 {
            assert(rest[j] == tail[j - 1]);
        } else if i < left.len() - 1 {
            T::ahead_is_an_order(left[i], left.last(), y);
        }
    }
    assert forall|i: int, j: int| 0 <= i < right.len() && 0 <= j < rest.len() implies !(
    #[trigger] rest[j]).ahead(#[trigger] right[i]) by {
        if j > 0 {
            assert(rest[j] == tail[j - 1]);
        }
        assert(right[i] == full[i]);
    }
    assert forall|x: T| #[trigger]
        levels_of(left, x) + levels_of(right, x) + levels_of(rest, x) == levels_of(s, x) by {
        lemma_levels_push(right, y, x);
        lemma_levels_front(y, tail, x);
        assert(levels_of(left, x) + levels_of(full, x) + levels_of(tail, x) == levels_of(s, x));
        assert(levels_of(left, x) + levels_of(right, x) + levels_of(rest, x) =~= levels_of(s, x));
    }
}

proof fn lemma_take_left<T: Ranked>(
    left: Seq<T>,
    right: Seq<T>,
    y: T,
    tail: Seq<T>,
    s: Seq<T>,
)
    requires
        merging(left.push(y), right, tail, s),
        right.len() == 0 || right.last().ahead(y),
    ensures
        merging(left, right, seq![y] + tail, s),
{
    let full = left.push(y);
    let rest = seq![y] + tail;
    assert(full.last() == y);
    assert(forall|i: int| 0 <= i < left.len() ==> left[i] == full[i]);
    lemma_front_in_order(y, tail);
    lemma_same_bag(left, right, tail, y);
    assert forall|i: int| 0 <= i < right.len() implies (#[trigger] right[i]).ahead(y) by {
        let last = right.last();
        T::ahead_is_an_order(right[i], last, y);
        T::ahead_is_an_order(last, right[i], y);
        T::ahead_is_an_order(y, right[i], last);
        if i < right.len() - 1 {
            assert(!last.ahead(right[i]));
            T::ahead_is_an_order(last, y, right[i]);
        }
    }
    assert forall|i: int, j: int| 0 <= i < left.len() && 0 <= j < rest.len() implies !(
    #[trigger] rest[j]).ahead(#[trigger] left[i]) by {
        if j > 0 {
            assert(rest[j] == tail[j - 1]);
        }
        assert(left[i] == full[i]);
    }
    assert forall|i: int, j: int| 0 <= i < right.len() && 0 <= j < rest.len() implies !(
    #[trigger] rest[j]).ahead(#[trigger] right[i]) by {
        if j > 0 {
            assert(rest[j] == tail[j - 1]);
        } else {
            T::ahead_is_an_order(right[i], y, y);
        }
    }
    assert forall|x: T| #[trigger]
        levels_of(left, x) + levels_of(right, x) + levels_of(rest, x) == levels_of(s, x) by {
        lemma_levels_push(left, y, x);
        lemma_levels_front(y, tail, x);
        assert(levels_of(full, x) + levels_of(right, x) + levels_of(tail, x) == levels_of(s, x));
        if level(x, y) {
            assert forall|i: int| 0 <= i < right.len() implies !level(x, #[trigger] right[i]) by {
                T::ahead_is_an_order(x, y, right[i]);
                T::ahead_is_an_order(y, x, right[i]);
                T::ahead_is_an_order(right[i], x, y);
                T::ahead_is_an_order(y, right[i], x);
                T::ahead_is_an_order(y, x, right[i]);
            }
            lemma_no_levels(right, x);
        }
        assert(levels_of(left, x) + levels_of(right, x) + levels_of(rest, x) =~= levels_of(s, x));
    }
}

/// Merges two sequences that are in order. Of values that are level, those of
/// `left` come first.
fn merge<T: Ranked>(left: Vec<T>, right: Vec<T>) -> (out: Vec<T>)
    requires
        in_order(left@),
        in_order(right@),
    ensures
        sorts(out@, left@ + right@),
{
    let ghost s = left@ + right@;
    let mut left = left;
    let mut right = right;
    let mut taken: Vec<T> = Vec::new();
    let ghost mut tail: Seq<T> = Seq::empty();
    proof {
        assert(left@ + right@ + tail =~= s);
        assert forall|x: T| #[trigger]
            levels_of(left@, x) + levels_of(right@, x) + levels_of(tail, x) == levels_of(
                s,
                x,
            ) by {
            Seq::filter_distributes_over_add(left@, right@, |z: T| level(x, z));
            lemma_no_levels(tail, x);
            assert(levels_of(left@, x) + levels_of(right@, x) + levels_of(tail, x) =~= levels_of(
                s,
                x,
            ));
        }
        assert(taken@.reverse() =~= tail);
    }
    while left.len() > 0 || right.len() > 0
        invariant
            merging(left@, right@, tail, s),
            taken@.reverse() == tail,
        decreases left@.len() + right@.len(),
    {
        let from_right = right.len() > 0 && (left.len() == 0 || !right[right.len() - 1].is_ahead(
            &left[left.len() - 1],
        ));
        if from_right {
            let ghost before = right@;
            let y = right.pop().unwrap();
            proof {
                assert(before =~= right@.push(y));
                lemma_take_right(left@, right@, y, tail, s);
                tail = seq![y] + tail;
            }
            taken.push(y);
        } else {
            let ghost before = left@;
            let y = left.pop().unwrap();
            proof {
                assert(before =~= left@.push(y));
                lemma_take_left(left@, right@, y, tail, s);
                tail = seq![y] + tail;
            }
            taken.push(y);
        }
        assert(taken@.reverse() =~= tail);
    }
    let mut out: Vec<T> = Vec::new();
    while taken.len() > 0
        invariant
            out@ + taken@.reverse() == tail,
        decreases taken@.len(),
    {
        let ghost before = taken@;
        let ghost sofar = out@;
        let y = taken.pop().unwrap();
        out.push(y);
        assert(before =~= taken@.push(y));
        assert(before.reverse() =~= seq![y] + taken@.reverse());
        assert(out@ + taken@.reverse() =~= sofar + before.reverse());
    }
    proof {
        assert(out@ =~= tail);
        assert(left@ + right@ + tail =~= tail);
        assert forall|x: T| #[trigger] levels_of(out@, x) == levels_of(s, x) by {
            lemma_no_levels(left@, x);
            lemma_no_levels(right@, x);
            assert(levels_of(left@, x) + levels_of(right@, x) + levels_of(tail, x) == levels_of(
                s,
                x,
            ));
            assert(levels_of(left@, x) + levels_of(right@, x) + levels_of(tail, x) =~= levels_of(
                tail,
                x,
            ));
        }
    }
    out
}

/// Puts a vector in order. Values that are level keep their order.
pub fn sort<T: Ranked>(items: Vec<T>) -> (out: Vec<T>)
    ensures
        sorts(out@, items@),
    decreases items@.len(),
{
    if items.len() <= 1 {
        return items;
    }
    let ghost s = items@;
    let mut left = items;
    let middle: usize = left.len() / 2;
    let right = left.split_off(middle);
    let ghost (a, b) = (left@, right@);
    assert(s =~= a + b);
    let left = sort(left);
    let right = sort(right);
    let out = merge(left, right);
    proof {
        vstd::seq_lib::lemma_multiset_commutative(left@, right@);
        vstd::seq_lib::lemma_multiset_commutative(a, b);
        assert forall|x: T| #[trigger] levels_of(out@, x) == levels_of(s, x) by {
            Seq::filter_distributes_over_add(left@, right@, |z: T| level(x, z));
            Seq::filter_distributes_over_add(a, b, |z: T| level(x, z));
            assert(levels_of(out@, x) == levels_of(left@ + right@, x));
            assert(levels_of(left@, x) == levels_of(a, x));
            assert(levels_of(right@, x) == levels_of(b, x));
        }
    }
    out
}

proof fn lemma_first_level<T: Ranked>(s: Seq<T>, x: T)
    requires
        s.len() > 0,
        level(x, s[0]),
    ensures
        levels_of(s, x).len() > 0,
        levels_of(s, x)[0] == s[0],
{
    assert(s =~= seq![s[0]] + s.skip(1));
    lemma_levels_front(s[0], s.skip(1), x);
}

proof fn lemma_head_of_bag<T>(s: Seq<T>)
    requires
        s.len() > 0,
    ensures
        s.to_multiset() == s.skip(1).to_multiset().insert(s[0]),
{
    broadcast use vstd::seq_lib::group_to_multiset_ensures;

    assert(s =~= seq![s[0]] + s.skip(1));
    vstd::seq_lib::lemma_multiset_commutative(seq![s[0]], s.skip(1));
    vstd::seq_lib::to_multiset_build(Seq::<T>::empty(), s[0]);
    assert(Seq::<T>::empty().push(s[0]) =~= seq![s[0]]);
    Seq::<T>::empty().to_multiset_ensures();
    assert(s.to_multiset() =~= s.skip(1).to_multiset().insert(s[0]));
}

/// A sequence can be put in order in one way only.
pub proof fn lemma_sorts_once<T: Ranked>(a: Seq<T>, b: Seq<T>, s: Seq<T>)
    requires
        sorts(a, s),
        sorts(b, s),
    ensures
        a == b,
{
    assert forall|x: T| #[trigger] levels_of(a, x) == levels_of(b, x) by {
        assert(levels_of(a, x) == levels_of(s, x));
        assert(levels_of(b, x) == levels_of(s, x));
    }
    lemma_same_order(a, b);
}

proof fn lemma_same_order<T: Ranked>(a: Seq<T>, b: Seq<T>)
    requires
        in_order(a),
        in_order(b),
        a.to_multiset() == b.to_multiset(),
        forall|x: T| #[trigger] levels_of(a, x) == levels_of(b, x),
    ensures
        a == b,
    decreases a.len(),
{
    broadcast use vstd::seq_lib::group_to_multiset_ensures;

    a.to_multiset_ensures();
    b.to_multiset_ensures();
    assert(a.len() == b.len());
    if a.len() == 0 {
        assert(a =~= b);
    } else {
        let x = a[0];
        let y = b[0];
        assert(b.to_multiset().contains(x) && a.to_multiset().contains(y));
        assert(b.contains(x) && a.contains(y));
        T::ahead_is_an_order(x, x, x);
        T::ahead_is_an_order(y, y, y);
        assert(!x.ahead(y)) by {
            let i = b.index_of(x);
            if i == 0 {
                assert(x == y);
            }
        }
        assert(!y.ahead(x)) by {
            let i = a.index_of(y);
            if i == 0 {
                assert(x == y);
            }
        }
        lemma_first_level(a, x);
        lemma_first_level(b, x);
        assert(levels_of(a, x) == levels_of(b, x));
        assert(x == y);
        let ra = a.skip(1);
        let rb = b.skip(1);
        assert(forall|i: int| 0 <= i < ra.len() ==> ra[i] == a[i + 1]);
        assert(forall|i: int| 0 <= i < rb.len() ==> rb[i] == b[i + 1]);
        lemma_head_of_bag(a);
        lemma_head_of_bag(b);
        assert(ra.to_multiset() =~= a.to_multiset().remove(x));
        assert(rb.to_multiset() =~= b.to_multiset().remove(x));
        assert forall|z: T| #[trigger] levels_of(ra, z) == levels_of(rb, z) by {
            assert(a =~= seq![x] + ra);
            assert(b =~= seq![x] + rb);
            lemma_levels_front(x, ra, z);
            lemma_levels_front(x, rb, z);
            assert(levels_of(a, z) == levels_of(b, z));
            if level(z, x) {
                assert(levels_of(a, z).skip(1) =~= levels_of(ra, z));
                assert(levels_of(b, z).skip(1) =~= levels_of(rb, z));
            }
        }
        lemma_same_order(ra, rb);
        assert(a =~= seq![x] + ra);
        assert(b =~= seq![x] + rb);
    }
}

/// Values in the opposite order.
pub(crate) fn reversed<T>(values: Vec<T>) -> (back: Vec<T>)
    ensures
        back@ == values@.reverse(),
{
    let ghost all = values@;
    let mut values = values;
    let mut back: Vec<T> = Vec::new();
    while values.len() > 0
        invariant
            values@.len() + back@.len() == all.len(),
            values@ == all.take(values@.len() as int),
            back@ == all.reverse().take(back@.len() as int),
        decreases values@.len(),
    {
        let ghost n = values@.len() as int;
        let value = values.pop().unwrap();
        assert(values@ =~= all.take(n - 1));
        back.push(value);
        assert(back@ =~= all.reverse().take(back@.len() as int));
    }
    assert(back@ =~= all.reverse());
    back
}

}
