//! A stable merge sort over places.

use vstd::prelude::*;

use crate::text::to_chars;

verus! {

/// Values that can be put in order.
pub trait Ranked: Sized {
    /// Whether `self` may stand in front of `other`.
    spec fn may_precede(&self, other: &Self) -> bool;

    /// Of two values, one may stand in front of the other.
    proof fn lemma_total(&self, other: &Self)
        ensures
            self.may_precede(other) || other.may_precede(self),
    ;

    /// What may stand in front of a second value may stand in front of all that follow it.
    proof fn lemma_transitive(&self, other: &Self, third: &Self)
        requires
            self.may_precede(other),
            other.may_precede(third),
        ensures
            self.may_precede(third),
    ;

    /// Whether `self` may stand in front of `other`.
    fn precedes(&self, other: &Self) -> (r: bool)
        ensures
            r == self.may_precede(other),
    ;
}

/// Whether the item at place `a` comes out in front of the item at place `b`: it may precede it,
/// and where both may precede each other, the earlier place comes first.
pub open spec fn comes_first<T: Ranked>(items: Seq<T>, a: usize, b: usize) -> bool {
    items[a as int].may_precede(&items[b as int]) && (items[b as int].may_precede(&items[a as int]) ==> a < b)
}

/// Whether `places` lists the places from `lo` up to `hi` in the order in which their items come out.
pub open spec fn in_order<T: Ranked>(items: Seq<T>, places: Seq<usize>, lo: int, hi: int) -> bool {
    &&& places.len() == hi - lo
    &&& forall|i: int| 0 <= i < places.len() ==> lo <= #[trigger] places[i] < hi
    &&& forall|p: usize| lo <= p < hi ==> places.contains(p)
    &&& forall|i: int, j: int| 0 <= i < j < places.len() ==> comes_first(items, #[trigger] places[i], #[trigger] places[j])
}

/// The places of all items, in the order in which the items come out; equal items keep their order.
pub open spec fn sorted_places<T: Ranked>(items: Seq<T>, places: Seq<usize>) -> bool {
    in_order(items, places, 0, items.len() as int)
}

proof fn lemma_comes_first_transitive<T: Ranked>(items: Seq<T>, a: usize, b: usize, c: usize)
    requires
        comes_first(items, a, b),
        comes_first(items, b, c),
    ensures
        comes_first(items, a, c),
{
    let x = items[a as int];
    let y = items[b as int];
    let z = items[c as int];
    T::lemma_transitive(&x, &y, &z);
    if z.may_precede(&x) {
        T::lemma_transitive(&z, &x, &y);
        T::lemma_transitive(&y, &z, &x);
    }
}

proof fn lemma_later_place_waits<T: Ranked>(items: Seq<T>, a: usize, b: usize)
    requires
        !items[a as int].may_precede(&items[b as int]),
    ensures
        comes_first(items, b, a),
{
    T::lemma_total(&items[a as int], &items[b as int]);
}

/// Merges two sorted lists of places, the places of `left` lying below those of `right`.
fn merge_places<T: Ranked>(items: &Vec<T>, left: &Vec<usize>, right: &Vec<usize>, lo: usize, mid: usize, hi: usize) -> (r:
    Vec<usize>)
    requires
        lo <= mid <= hi <= items@.len(),
        in_order(items@, left@, lo as int, mid as int),
        in_order(items@, right@, mid as int, hi as int),
    ensures
        in_order(items@, r@, lo as int, hi as int),
{
    let mut out: Vec<usize> = Vec::new();
    let mut i: usize = 0;
    let mut j: usize = 0;
    while i < left.len() || j < right.len()
        invariant
            i <= left@.len(),
            j <= right@.len(),
            lo <= mid <= hi <= items@.len(),
            in_order(items@, left@, lo as int, mid as int),
            in_order(items@, right@, mid as int, hi as int),
            out@.len() == i + j,
            forall|k: int| 0 <= k < out@.len() ==> lo <= #[trigger] out@[k] < hi,
            forall|a: int, b: int|
                0 <= a < b < out@.len() ==> comes_first(items@, #[trigger] out@[a], #[trigger] out@[b]),
            forall|a: int, b: int|
                0 <= a < out@.len() && i <= b < left@.len() ==> comes_first(
                    items@,
                    #[trigger] out@[a],
                    #[trigger] left@[b],
                ),
            forall|a: int, b: int|
                0 <= a < out@.len() && j <= b < right@.len() ==> comes_first(
                    items@,
                    #[trigger] out@[a],
                    #[trigger] right@[b],
                ),
            forall|k: int| 0 <= k < i ==> out@.contains(#[trigger] left@[k]),
            forall|k: int| 0 <= k < j ==> out@.contains(#[trigger] right@[k]),
        decreases left@.len() - i + right@.len() - j,
    {
        let ghost before = out@;
        let from_left: bool = if i == left.len() {
            false
        } else if j == right.len() {
            true
        } else {
            items[left[i]].precedes(&items[right[j]])
        };
        if from_left {
            let p: usize = left[i];
            out.push(p);
            i += 1;
            proof {
                assert forall|b: int| j <= b < right@.len() implies comes_first(items@, p, #[trigger] right@[b]) by {
                    let q = right@[j as int];
                    assert(comes_first(items@, p, q));
                    if b > j {
                        lemma_comes_first_transitive(items@, p, q, right@[b]);
                    }
                }
                assert forall|b: int| i <= b < left@.len() implies comes_first(items@, p, #[trigger] left@[b]) by {
                    assert(comes_first(items@, left@[i - 1], left@[b]));
                }
            }
        } else {
            let q: usize = right[j];
            out.push(q);
            j += 1;
            proof {
                assert forall|b: int| i <= b < left@.len() implies comes_first(items@, q, #[trigger] left@[b]) by {
                    let p = left@[i as int];
                    lemma_later_place_waits(items@, p, q);
                    if b > i {
                        lemma_comes_first_transitive(items@, q, p, left@[b]);
                    }
                }
                assert forall|b: int| j <= b < right@.len() implies comes_first(items@, q, #[trigger] right@[b]) by {
                    assert(comes_first(items@, right@[j - 1], right@[b]));
                }
            }
        }
        proof {
            assert forall|k: int| 0 <= k < i implies out@.contains(#[trigger] left@[k]) by {
                if before.contains(left@[k]) {
                    let n = choose|n: int| 0 <= n < before.len() && before[n] == left@[k];
                    assert(out@[n] == left@[k]);
                } else {
                    assert(out@[out@.len() - 1] == left@[k]);
                }
            }
            assert forall|k: int| 0 <= k < j implies out@.contains(#[trigger] right@[k]) by {
                if before.contains(right@[k]) {
                    let n = choose|n: int| 0 <= n < before.len() && before[n] == right@[k];
                    assert(out@[n] == right@[k]);
                } else {
                    assert(out@[out@.len() - 1] == right@[k]);
                }
            }
        }
    }
    proof {
        assert forall|p: usize| lo <= p < hi implies out@.contains(p) by {
            if p < mid {
                assert(left@.contains(p));
                let k = choose|k: int| 0 <= k < left@.len() && left@[k] == p;
                assert(out@.contains(left@[k]));
            } else {
                assert(right@.contains(p));
                let k = choose|k: int| 0 <= k < right@.len() && right@[k] == p;
                assert(out@.contains(right@[k]));
            }
        }
    }
    out
}

fn sort_between<T: Ranked>(items: &Vec<T>, lo: usize, hi: usize) -> (r: Vec<usize>)
    requires
        lo <= hi <= items@.len(),
    ensures
        in_order(items@, r@, lo as int, hi as int),
    decreases hi - lo,
{
    if hi - lo <= 1 {
        let mut out: Vec<usize> = Vec::new();
        if lo < hi {
            out.push(lo);
            assert(out@[0] == lo);
        }
        out
    } else {
        let mid: usize = lo + (hi - lo) / 2;
        let left = sort_between(items, lo, mid);
        let right = sort_between(items, mid, hi);
        merge_places(items, &left, &right, lo, mid, hi)
    }
}

/// The places of the items in the order in which the items come out. Equal items keep their order.
pub fn sort_places<T: Ranked>(items: &Vec<T>) -> (r: Vec<usize>)
    ensures
        sorted_places(items@, r@),
{
    sort_between(items, 0, items.len())
}

/// The places of all items, in the order in which the items come out.
pub open spec fn order<T: Ranked>(items: Seq<T>) -> Seq<usize> {
    choose|places: Seq<usize>| sorted_places(items, places)
}

/// There is an order.
pub proof fn lemma_order_exists<T: Ranked>(items: Seq<T>)
    requires
        items.len() <= usize::MAX,
    ensures
        sorted_places(items, order(items)),
{
    let places = lemma_sortable(items, items.len() as int);
    assert(sorted_places(items, places));
}

proof fn lemma_sortable<T: Ranked>(items: Seq<T>, hi: int) -> (places: Seq<usize>)
    requires
        0 <= hi <= items.len() <= usize::MAX,
    ensures
        in_order(items, places, 0, hi),
    decreases hi,
{
    if hi == 0 {
        Seq::empty()
    } else {
        let rest = lemma_sortable(items, hi - 1);
        let new = (hi - 1) as usize;
        let at = lemma_slot(items, rest, new, rest.len() as int);
        let places = rest.insert(at, new);
        assert forall|p: usize| 0 <= p < hi implies places.contains(p) by {
            if p == new {
                assert(places[at] == p);
            } else {
                assert(rest.contains(p));
                let i = choose|i: int| 0 <= i < rest.len() && rest[i] == p;
                if i < at {
                    assert(places[i] == p);
                } else {
                    assert(places[i + 1] == p);
                }
            }
        }
        assert forall|i: int, j: int| 0 <= i < j < places.len() implies comes_first(
            items,
            #[trigger] places[i],
            #[trigger] places[j],
        ) by {
            let a = if i < at {
                i
            } else {
                i - 1
            };
            let b = if j < at {
                j
            } else {
                j - 1
            };
            if i == at {
                assert(comes_first(items, new, rest[b]));
            } else if j == at {
                assert(comes_first(items, rest[a], new));
            } else {
                assert(comes_first(items, rest[a], rest[b]));
            }
        }
        places
    }
}

proof fn lemma_slot<T: Ranked>(items: Seq<T>, rest: Seq<usize>, new: usize, from: int) -> (at: int)
    requires
        new < items.len(),
        in_order(items, rest, 0, new as int),
        0 <= from <= rest.len(),
        forall|i: int| from <= i < rest.len() ==> comes_first(items, new, #[trigger] rest[i]),
    ensures
        0 <= at <= rest.len(),
        forall|i: int| 0 <= i < at ==> comes_first(items, #[trigger] rest[i], new),
        forall|i: int| at <= i < rest.len() ==> comes_first(items, new, #[trigger] rest[i]),
    decreases from,
{
    if from == 0 {
        0
    } else {
        let p = rest[from - 1];
        if comes_first(items, p, new) {
            assert forall|i: int| 0 <= i < from implies comes_first(items, #[trigger] rest[i], new) by {
                if i < from - 1 {
                    assert(comes_first(items, rest[i], rest[from - 1]));
                    lemma_comes_first_transitive(items, rest[i], p, new);
                }
            }
            from
        } else {
            assert(p < new);
            T::lemma_total(&items[p as int], &items[new as int]);
            assert(comes_first(items, new, p));
            lemma_slot(items, rest, new, from - 1)
        }
    }
}

/// There is one order only.
pub proof fn lemma_one_order<T: Ranked>(items: Seq<T>, places: Seq<usize>)
    requires
        sorted_places(items, places),
    ensures
        order(items) == places,
{
    lemma_orders_agree(items, order(items), places);
}

proof fn lemma_orders_agree<T: Ranked>(items: Seq<T>, a: Seq<usize>, b: Seq<usize>)
    requires
        sorted_places(items, a),
        sorted_places(items, b),
    ensures
        a == b,
{
    assert forall|i: int| 0 <= i < a.len() implies a[i] == b[i] by {
        lemma_orders_agree_up_to(items, a, b, i + 1);
    }
    assert(a =~= b);
}

proof fn lemma_orders_agree_up_to<T: Ranked>(items: Seq<T>, a: Seq<usize>, b: Seq<usize>, k: int)
    requires
        sorted_places(items, a),
        sorted_places(items, b),
        0 <= k <= a.len(),
    ensures
        forall|i: int| 0 <= i < k ==> a[i] == b[i],
    decreases k,
{
    if k > 0 {
        let i = k - 1;
        lemma_orders_agree_up_to(items, a, b, i);
        if a[i] != b[i] {
            assert(b.contains(a[i]));
            assert(a.contains(b[i]));
            let j = choose|j: int| 0 <= j < b.len() && b[j] == a[i];
            let m = choose|m: int| 0 <= m < a.len() && a[m] == b[i];
            if j < i {
                assert(a[j] == a[i]);
                assert(comes_first(items, a[j], a[i]));
                assert(false);
            }
            if m < i {
                assert(b[m] == b[i]);
                assert(comes_first(items, b[m], b[i]));
                assert(false);
            }
            assert(comes_first(items, b[i], b[j]));
            assert(comes_first(items, a[i], a[m]));
            lemma_comes_first_transitive(items, a[i], b[i], a[i]);
            assert(false);
        }
    }
}

/// A number for which larger comes first.
#[derive(Clone, Copy)]
pub struct Descending(pub u64);

impl Ranked for Descending {
    open spec fn may_precede(&self, other: &Self) -> bool {
        self.0 >= other.0
    }

    proof fn lemma_total(&self, other: &Self) {
    }

    proof fn lemma_transitive(&self, other: &Self, third: &Self) {
    }

    fn precedes(&self, other: &Self) -> (r: bool) {
        self.0 >= other.0
    }
}

/// Whether `a` comes in front of `b` or equals it, character by character.
pub open spec fn text_le(a: Seq<char>, b: Seq<char>) -> bool
    decreases a.len(),
{
    if a.len() == 0 {
        true
    } else if b.len() == 0 {
        false
    } else if a[0] == b[0] {
        text_le(a.skip(1), b.skip(1))
    } else {
        a[0] < b[0]
    }
}

proof fn lemma_text_total(a: Seq<char>, b: Seq<char>)
    ensures
        text_le(a, b) || text_le(b, a),
    decreases a.len(),
{
    if a.len() > 0 && b.len() > 0 && a[0] == b[0] {
        lemma_text_total(a.skip(1), b.skip(1));
    }
}

proof fn lemma_text_transitive(a: Seq<char>, b: Seq<char>, c: Seq<char>)
    requires
        text_le(a, b),
        text_le(b, c),
    ensures
        text_le(a, c),
    decreases a.len(),
{
    if a.len() > 0 && b.len() > 0 && c.len() > 0 && a[0] == b[0] && b[0] == c[0] {
        lemma_text_transitive(a.skip(1), b.skip(1), c.skip(1));
    }
}

impl Ranked for String {
    open spec fn may_precede(&self, other: &Self) -> bool {
        text_le(self@, other@)
    }

    proof fn lemma_total(&self, other: &Self) {
        lemma_text_total(self@, other@);
    }

    proof fn lemma_transitive(&self, other: &Self, third: &Self) {
        lemma_text_transitive(self@, other@, third@);
    }

    fn precedes(&self, other: &Self) -> (r: bool) {
        let a = to_chars(self.as_str());
        let b = to_chars(other.as_str());
        let mut i: usize = 0;
        assert(a@.skip(0) =~= a@ && b@.skip(0) =~= b@);
        while i < a.len() && i < b.len()
            invariant
                i <= a@.len(),
                i <= b@.len(),
                text_le(a@, b@) == text_le(a@.skip(i as int), b@.skip(i as int)),
                a@ == self@,
                b@ == other@,
            decreases a@.len() - i,
        {
            assert(a@.skip(i as int).skip(1) =~= a@.skip(i + 1));
            assert(b@.skip(i as int).skip(1) =~= b@.skip(i + 1));
            if a[i] != b[i] {
                return a[i] < b[i];
            }
            i += 1;
        }
        i == a.len()
    }
}

} // verus!
