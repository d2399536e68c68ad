//! Least and greatest element of a sequence.

use vstd::prelude::*;
use crate::classify::{checked_kind, homogeneous, validate};
use crate::element::{lemma_leq_antisymmetric, Element, StatsError};
use crate::numeric::{relate_integer_to_float, scaled, Relation};
use crate::order::{ascending, lemma_ascending};

verus! {

/// The least element of an accepted sequence.
pub open spec fn minimum(s: Seq<Element>) -> Result<Element, StatsError> {
    match checked_kind(s) {
        Err(e) => Err(e),
        Ok(_) => Ok(ascending(s).first()),
    }
}

/// The greatest element of an accepted sequence.
pub open spec fn maximum(s: Seq<Element>) -> Result<Element, StatsError> {
    match checked_kind(s) {
        Err(e) => Err(e),
        Ok(_) => Ok(ascending(s).last()),
    }
}

/// The least and the greatest element of an accepted sequence, in this order.
pub open spec fn bounds_of(s: Seq<Element>) -> Result<Seq<Element>, StatsError> {
    match checked_kind(s) {
        Err(e) => Err(e),
        Ok(_) => Ok(seq![ascending(s).first(), ascending(s).last()]),
    }
}

/// A computed sequence result is the one that the model gives.
pub open spec fn same_outcome(
    r: Result<Vec<Element>, StatsError>,
    model: Result<Seq<Element>, StatsError>,
) -> bool {
    match (r, model) {
        (Ok(v), Ok(s)) => v@ == s,
        (Err(e), Err(f)) => e == f,
        _ => false,
    }
}

/// An element of `s` that no element of `s` comes before is the first in ascending order.
pub proof fn lemma_least_is_first(s: Seq<Element>, m: Element)
    requires
        s.contains(m),
        forall|i: int| 0 <= i < s.len() ==> m.leq(#[trigger] s[i]),
    ensures
        ascending(s).len() > 0,
        ascending(s).first() == m,
{
    let t = ascending(s);
    lemma_ascending(s);
    assert(t.contains(m));
    let at = choose|i: int| 0 <= i < t.len() && t[i] == m;
    assert(t.contains(t[0]));
    assert(s.contains(t[0]));
    let back = choose|i: int| 0 <= i < s.len() && s[i] == t[0];
    assert(m.leq(s[back]));
    if at > 0 {
        assert(t[0].leq(t[at]));
    }
    lemma_leq_antisymmetric(m, t[0]);
}

/// An element of `s` that no element of `s` comes after is the last in ascending order.
pub proof fn lemma_greatest_is_last(s: Seq<Element>, m: Element)
    requires
        s.contains(m),
        forall|i: int| 0 <= i < s.len() ==> (#[trigger] s[i]).leq(m),
    ensures
        ascending(s).len() > 0,
        ascending(s).last() == m,
{
    let t = ascending(s);
    lemma_ascending(s);
    assert(t.contains(m));
    let at = choose|i: int| 0 <= i < t.len() && t[i] == m;
    let end = t.len() - 1;
    assert(t.contains(t[end]));
    assert(s.contains(t[end]));
    let back = choose|i: int| 0 <= i < s.len() && s[i] == t[end];
    assert(s[back].leq(m));
    if at < end {
        assert(t[at].leq(t[end]));
    }
    lemma_leq_antisymmetric(m, t[end]);
}

/// Returns the greatest element of `arr`.
pub fn array_max(arr: &Vec<Element>) -> (r: Result<Element, StatsError>)
    ensures
        r == maximum(arr@),
        r matches Ok(high) ==> arr@.contains(high) && forall|i: int|
            0 <= i < arr@.len() ==> (#[trigger] arr@[i]).leq(high),
{
    match validate(arr) {
        Err(e) => Err(e),
        Ok(_) => {
            let mut best = arr[0];
            let mut i: usize = 1;
            while i < arr.len()
                invariant
                    1 <= i <= arr.len(),
                    arr@.contains(best),
                    forall|p: int| 0 <= p < i ==> (#[trigger] arr@[p]).leq(best),
                decreases arr.len() - i,
            {
                if !arr[i].precedes(&best) {
                    best = arr[i];
                }
                i += 1;
            }
            proof {
                lemma_greatest_is_last(arr@, best);
            }
            Ok(best)
        },
    }
}

/// Returns the least element of `arr`.
pub fn array_min(arr: &Vec<Element>) -> (r: Result<Element, StatsError>)
    ensures
        r == minimum(arr@),
        r matches Ok(low) ==> arr@.contains(low) && forall|i: int|
            0 <= i < arr@.len() ==> low.leq(#[trigger] arr@[i]),
{
    match validate(arr) {
        Err(e) => Err(e),
        Ok(_) => {
            let mut best = arr[0];
            let mut i: usize = 1;
            while i < arr.len()
                invariant
                    1 <= i <= arr.len(),
                    arr@.contains(best),
                    forall|p: int| 0 <= p < i ==> best.leq(#[trigger] arr@[p]),
                decreases arr.len() - i,
            {
                if !best.precedes(&arr[i]) {
                    best = arr[i];
                }
                i += 1;
            }
            proof {
                lemma_least_is_first(arr@, best);
            }
            Ok(best)
        },
    }
}

/// Returns the least and the greatest element of `arr`, in this order.
pub fn bounds(arr: &Vec<Element>) -> (r: Result<Vec<Element>, StatsError>)
    ensures
        same_outcome(r, bounds_of(arr@)),
        r matches Ok(pair) ==> pair@.len() == 2 && arr@.contains(pair@[0]) && arr@.contains(
            pair@[1],
        ) && forall|i: int|
            0 <= i < arr@.len() ==> pair@[0].leq(#[trigger] arr@[i]) && arr@[i].leq(pair@[1]),
{
    let low = match array_min(arr) {
        Ok(low) => low,
        Err(e) => {
            return Err(e);
        },
    };
    let high = match array_max(arr) {
        Ok(high) => high,
        Err(e) => {
            return Err(e);
        },
    };
    let mut pair: Vec<Element> = Vec::new();
    pair.push(low);
    pair.push(high);
    proof {
        assert(pair@ =~= seq![low, high]);
    }
    Ok(pair)
}

/// `a` is no greater than `b`, for two numeric values: by the ascending
/// order where both are of one kind, and by numeric value where one is an
/// integer and the other a float.
pub open spec fn pair_leq(a: Element, b: Element) -> bool {
    if a.kind() == b.kind() {
        a.leq(b)
    } else {
        scaled(a) <= scaled(b)
    }
}

/// The greater of two numeric values; of two equal values, the second.
pub open spec fn greater_of(a: Element, b: Element) -> Result<Element, StatsError> {
    if a.kind() is None || b.kind() is None {
        Err(StatsError::Type)
    } else if pair_leq(a, b) {
        Ok(b)
    } else {
        Ok(a)
    }
}

/// The lesser of two numeric values; of two equal values, the first.
pub open spec fn lesser_of(a: Element, b: Element) -> Result<Element, StatsError> {
    if a.kind() is None || b.kind() is None {
        Err(StatsError::Type)
    } else if pair_leq(a, b) {
        Ok(a)
    } else {
        Ok(b)
    }
}

/// For two values of one numeric kind, the pair form gives what the
/// sequence form gives on the sequence of the two.
pub proof fn lemma_pair_of_one_kind(a: Element, b: Element)
    requires
        a.kind() is Some,
        a.kind() == b.kind(),
    ensures
        greater_of(a, b) == maximum(seq![a, b]),
        lesser_of(a, b) == minimum(seq![a, b]),
{
    let s = seq![a, b];
    assert(s[0] == a && s[1] == b);
    assert(homogeneous(s));
    let high = if a.leq(b) {
        b
    } else {
        a
    };
    let low = if a.leq(b) {
        a
    } else {
        b
    };
    assert(s.contains(high));
    assert(s.contains(low));
    lemma_greatest_is_last(s, high);
    lemma_least_is_first(s, low);
}

/// Returns the greater of two values.
///
/// Two values of one kind are treated as the sequence of the two. An
/// integer and a float are compared by their numeric values;
/// `lemma_relation_at_float_scale` reads that comparison on small numbers.
pub fn gen_max(a: Element, b: Element) -> (r: Result<Element, StatsError>)
    ensures
        r == greater_of(a, b),
{
    match (a, b) {
        (Element::Other, _) => Err(StatsError::Type),
        (_, Element::Other) => Err(StatsError::Type),
        (Element::Integer(i), Element::Float(bits)) => {
            match relate_integer_to_float(i, bits) {
                Relation::Above => Ok(a),
                _ => Ok(b),
            }
        },
        (Element::Float(bits), Element::Integer(i)) => {
            match relate_integer_to_float(i, bits) {
                Relation::Below => Ok(a),
                _ => Ok(b),
            }
        },
        _ => {
            let mut pair: Vec<Element> = Vec::new();
            pair.push(a);
            pair.push(b);
            proof {
                assert(pair@ =~= seq![a, b]);
                lemma_pair_of_one_kind(a, b);
            }
            array_max(&pair)
        },
    }
}

/// Returns the lesser of two values.
///
/// Two values of one kind are treated as the sequence of the two. An
/// integer and a float are compared by their numeric values;
/// `lemma_relation_at_float_scale` reads that comparison on small numbers.
pub fn gen_min(a: Element, b: Element) -> (r: Result<Element, StatsError>)
    ensures
        r == lesser_of(a, b),
{
    match (a, b) {
        (Element::Other, _) => Err(StatsError::Type),
        (_, Element::Other) => Err(StatsError::Type),
        (Element::Integer(i), Element::Float(bits)) => {
            match relate_integer_to_float(i, bits) {
                Relation::Above => Ok(b),
                _ => Ok(a),
            }
        },
        (Element::Float(bits), Element::Integer(i)) => {
            match relate_integer_to_float(i, bits) {
                Relation::Below => Ok(b),
                _ => Ok(a),
            }
        },
        _ => {
            let mut pair: Vec<Element> = Vec::new();
            pair.push(a);
            pair.push(b);
            proof {
                assert(pair@ =~= seq![a, b]);
                lemma_pair_of_one_kind(a, b);
            }
            array_min(&pair)
        },
    }
}

} // verus!
