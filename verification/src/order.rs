//! Ascending arrangement of a sequence.

use vstd::prelude::*;
use vstd::relations::sorted_by;
use vstd::multiset::group_multiset_axioms;
use vstd::seq_lib::{
    lemma_multiset_commutative, lemma_sorted_unique, to_multiset_build, to_multiset_contains,
    to_multiset_len,
};
use crate::element::{ascending_order, lemma_order_is_total, Element};

verus! {

/// The elements of `s`, each as often as it occurs in `s`, in ascending order.
pub open spec fn ascending(s: Seq<Element>) -> Seq<Element> {
    s.sort_by(ascending_order())
}

/// No element of `s` comes later than one that follows it.
pub open spec fn is_ascending(s: Seq<Element>) -> bool {
    forall|i: int, j: int| 0 <= i < j < s.len() ==> (#[trigger] s[i]).leq(#[trigger] s[j])
}

/// `ascending(s)` is in ascending order and holds exactly the elements of `s`.
pub proof fn lemma_ascending(s: Seq<Element>)
    ensures
        is_ascending(ascending(s)),
        ascending(s).to_multiset() == s.to_multiset(),
        ascending(s).len() == s.len(),
        forall|x: Element| s.contains(x) <==> ascending(s).contains(x),
{
    broadcast use {to_multiset_len, to_multiset_contains};

    let t = ascending(s);
    lemma_order_is_total();
    s.lemma_sort_by_ensures(ascending_order());
    assert(sorted_by(t, ascending_order()));
    assert forall|i: int, j: int| 0 <= i < j < t.len() implies (#[trigger] t[i]).leq(
        #[trigger] t[j],
    ) by {
        assert(ascending_order()(t[i], t[j]));
    }
    assert(t.to_multiset().len() == s.to_multiset().len());
    assert forall|x: Element| s.contains(x) <==> t.contains(x) by {
        assert(s.contains(x) <==> s.to_multiset().count(x) > 0);
        assert(t.contains(x) <==> t.to_multiset().count(x) > 0);
    }
}

/// Only one arrangement of the elements of `s` is in ascending order.
pub proof fn lemma_ascending_unique(s: Seq<Element>, t: Seq<Element>)
    requires
        is_ascending(t),
        t.to_multiset() == s.to_multiset(),
    ensures
        t == ascending(s),
{
    lemma_order_is_total();
    lemma_ascending(s);
    let u = ascending(s);
    assert(sorted_by(t, ascending_order()));
    assert(sorted_by(u, ascending_order()));
    lemma_sorted_unique(t, u, ascending_order());
}

/// Merges two ascending sequences into one.
fn merge(left: &Vec<Element>, right: &Vec<Element>) -> (out: Vec<Element>)
    requires
        is_ascending(left@),
        is_ascending(right@),
    ensures
        is_ascending(out@),
        out@.to_multiset() == left@.to_multiset().add(right@.to_multiset()),
{
    let mut out: Vec<Element> = Vec::new();
    let mut i: usize = 0;
    let mut j: usize = 0;
    proof {
        broadcast use {group_multiset_axioms, to_multiset_len};

        assert(out@.to_multiset().len() == 0);
        assert(left@.take(0).to_multiset().len() == 0);
        assert(right@.take(0).to_multiset().len() == 0);
        assert(out@.to_multiset() =~= left@.take(0).to_multiset().add(
            right@.take(0).to_multiset(),
        ));
    }
    while i < left.len() || j < right.len()
        invariant
            i <= left.len(),
            j <= right.len(),
            is_ascending(left@),
            is_ascending(right@),
            is_ascending(out@),
            out@.to_multiset() == left@.take(i as int).to_multiset().add(
                right@.take(j as int).to_multiset(),
            ),
            forall|p: int|
                0 <= p < out@.len() && i < left@.len() ==> (#[trigger] out@[p]).leq(
                    left@[i as int],
                ),
            forall|p: int|
                0 <= p < out@.len() && j < right@.len() ==> (#[trigger] out@[p]).leq(
                    right@[j as int],
                ),
        decreases left.len() - i + right.len() - j,
    {
        let from_left: bool = if j >= right.len() {
            true
        } else if i >= left.len() {
            false
        } else {
            left[i].precedes(&right[j])
        };
        let ghost before = out@;
        if from_left {
            let x = left[i];
            out.push(x);
            proof {
                broadcast use {group_multiset_axioms, to_multiset_build};

                assert(left@.take(i as int + 1) =~= left@.take(i as int).push(x));
                assert(out@.to_multiset() =~= left@.take(i as int + 1).to_multiset().add(
                    right@.take(j as int).to_multiset(),
                ));
                assert forall|p: int|
                    0 <= p < out@.len() && i + 1 < left@.len() implies (#[trigger] out@[p]).leq(
                    left@[i as int + 1],
                ) by {
                    assert(left@[i as int].leq(left@[i as int + 1]));
                    if p < before.len() {
                        assert(before[p].leq(x));
                    }
                }
            }
            i += 1;
        } else {
            let x = right[j];
            out.push(x);
            proof {
                broadcast use {group_multiset_axioms, to_multiset_build};

                assert(right@.take(j as int + 1) =~= right@.take(j as int).push(x));
                assert(out@.to_multiset() =~= left@.take(i as int).to_multiset().add(
                    right@.take(j as int + 1).to_multiset(),
                ));
                assert forall|p: int|
                    0 <= p < out@.len() && j + 1 < right@.len() implies (#[trigger] out@[p]).leq(
                    right@[j as int + 1],
                ) by {
                    assert(right@[j as int].leq(right@[j as int + 1]));
                    if p < before.len() {
                        assert(before[p].leq(x));
                    }
                }
            }
            j += 1;
        }
    }
    proof {
        assert(left@.take(i as int) =~= left@);
        assert(right@.take(j as int) =~= right@);
    }
    out
}

/// Arranges the elements of `arr` from index `from` up to `to` in ascending order.
fn sort_range(arr: &Vec<Element>, from: usize, to: usize) -> (out: Vec<Element>)
    requires
        from <= to <= arr.len(),
    ensures
        is_ascending(out@),
        out@.to_multiset() == arr@.subrange(from as int, to as int).to_multiset(),
    decreases to - from,
{
    if to - from <= 1 {
        let mut out: Vec<Element> = Vec::new();
        if to - from == 1 {
            out.push(arr[from]);
        }
        proof {
            assert(out@ =~= arr@.subrange(from as int, to as int));
        }
        out
    } else {
        let mid: usize = from + (to - from) / 2;
        let left = sort_range(arr, from, mid);
        let right = sort_range(arr, mid, to);
        proof {
            let low = arr@.subrange(from as int, mid as int);
            let high = arr@.subrange(mid as int, to as int);
            assert(low + high =~= arr@.subrange(from as int, to as int));
            lemma_multiset_commutative(low, high);
        }
        merge(&left, &right)
    }
}

/// Returns the elements of `arr` in ascending order; `arr` itself is left as it is.
pub fn sorted_copy(arr: &Vec<Element>) -> (out: Vec<Element>)
    ensures
        out@ == ascending(arr@),
{
    let out = sort_range(arr, 0, arr.len());
    proof {
        assert(arr@.subrange(0, arr@.len() as int) =~= arr@);
        lemma_ascending_unique(arr@, out@);
    }
    out
}

} // verus!
