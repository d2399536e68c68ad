//! What holds between the operations, for every sequence.

use vstd::prelude::*;
use crate::classify::{checked_kind, homogeneous};
use crate::element::{Element, ElementKind, StatsError};
use crate::numeric::{lemma_order_follows_value, scaled};
use crate::order::{ascending, is_ascending, lemma_ascending, lemma_ascending_unique};
use crate::reduce::{bounds_of, greater_of, lesser_of, maximum, minimum, pair_leq};
use crate::select::{bottom_k, top_k};

verus! {

/// The minimum and the maximum of an accepted sequence are elements of it,
/// and every element lies between them: all are of one kind, and none is
/// below the minimum or above the maximum, in the ascending order and by
/// numeric value.
pub proof fn extrema_enclose_every_element(s: Seq<Element>, i: int)
    requires
        checked_kind(s) is Ok,
        0 <= i < s.len(),
    ensures
        minimum(s) matches Ok(low) && maximum(s) matches Ok(high) && {
            &&& s.contains(low)
            &&& s.contains(high)
            &&& low.leq(s[i])
            &&& s[i].leq(high)
            &&& low.kind() == s[i].kind()
            &&& high.kind() == s[i].kind()
            &&& low.key() <= s[i].key() <= high.key()
            &&& scaled(low) <= scaled(s[i]) <= scaled(high)
        },
{
    let t = ascending(s);
    lemma_ascending(s);
    let end = t.len() - 1;
    assert(t.contains(t[0]));
    assert(t.contains(t[end]));
    assert(s.contains(t[0]));
    assert(s.contains(t[end]));
    let low_at = choose|j: int| 0 <= j < s.len() && s[j] == t[0];
    let high_at = choose|j: int| 0 <= j < s.len() && s[j] == t[end];
    assert(s[low_at].kind() == s[0].kind());
    assert(s[high_at].kind() == s[0].kind());
    assert(s[i].kind() == s[0].kind());
    assert(s.contains(s[i]));
    assert(t.contains(s[i]));
    let at = choose|j: int| 0 <= j < t.len() && t[j] == s[i];
    if 0 < at {
        assert(t[0].leq(t[at]));
    }
    if at < end {
        assert(t[at].leq(t[end]));
    }
    lemma_order_follows_value(t[0], s[i]);
    lemma_order_follows_value(s[i], t[end]);
}

/// `bounds` pairs what `array_min` and `array_max` give, the minimum first,
/// and fails as they fail.
pub proof fn bounds_pair_minimum_and_maximum(s: Seq<Element>)
    ensures
        bounds_of(s) == match (minimum(s), maximum(s)) {
            (Ok(low), Ok(high)) => Ok::<Seq<Element>, StatsError>(seq![low, high]),
            (Err(e), _) => Err(e),
            (_, Err(e)) => Err(e),
        },
{
}

/// Selecting as many elements as the sequence has, from either end, gives
/// the whole sequence in ascending order.
pub proof fn selecting_all_sorts(s: Seq<Element>)
    requires
        checked_kind(s) is Ok,
    ensures
        top_k(s, s.len() as int) == Ok::<Seq<Element>, StatsError>(ascending(s)),
        bottom_k(s, s.len() as int) == Ok::<Seq<Element>, StatsError>(ascending(s)),
        is_ascending(ascending(s)),
        ascending(s).to_multiset() == s.to_multiset(),
{
    lemma_ascending(s);
    let t = ascending(s);
    assert(t.subrange(0, s.len() as int) =~= t);
}

/// The `k` least elements followed by the `len - k` greatest are the whole
/// sequence in ascending order, and so hold exactly the elements of the
/// sequence. Both selections exist only for `0 < k < len`.
pub proof fn bottom_and_top_partition(s: Seq<Element>, k: int)
    requires
        checked_kind(s) is Ok,
        0 < k < s.len(),
    ensures
        bottom_k(s, k) matches Ok(low) && top_k(s, s.len() - k) matches Ok(high) && {
            &&& low + high == ascending(s)
            &&& (low + high).to_multiset() == s.to_multiset()
        },
{
    lemma_ascending(s);
    let t = ascending(s);
    let low = t.subrange(0, k);
    let high = t.subrange(s.len() - (s.len() - k), s.len() as int);
    assert(low + high =~= t);
}

/// Selecting one element from the top gives the maximum, and one from the
/// bottom gives the minimum.
pub proof fn selecting_one_gives_extremum(s: Seq<Element>)
    requires
        checked_kind(s) is Ok,
    ensures
        top_k(s, 1) matches Ok(top) && maximum(s) matches Ok(high) && top == seq![high],
        bottom_k(s, 1) matches Ok(bottom) && minimum(s) matches Ok(low) && bottom == seq![low],
{
    lemma_ascending(s);
    let t = ascending(s);
    assert(t.subrange(s.len() - 1, s.len() as int) =~= seq![t.last()]);
    assert(t.subrange(0, 1) =~= seq![t.first()]);
}

/// Arranging an ascending arrangement again changes nothing.
pub proof fn ascending_is_idempotent(s: Seq<Element>)
    ensures
        ascending(ascending(s)) == ascending(s),
{
    lemma_ascending(s);
    lemma_ascending_unique(ascending(s), ascending(s));
}

/// Which inputs are refused, and how: an empty sequence as empty; one whose
/// first element is not numeric as a type error; one with elements of two
/// kinds as heterogeneous; and, on an accepted sequence, a count outside
/// `1..=len` as a range error. Every operation refuses a sequence alike.
pub proof fn refused_inputs(s: Seq<Element>, k: int)
    ensures
        s.len() == 0 ==> checked_kind(s) == Err::<ElementKind, StatsError>(StatsError::EmptyInput),
        s.len() > 0 && s[0] is Other ==> checked_kind(s) == Err::<ElementKind, StatsError>(
            StatsError::Type,
        ),
        s.len() > 0 && !(s[0] is Other) && !homogeneous(s) ==> checked_kind(s) == Err::<
            ElementKind,
            StatsError,
        >(StatsError::HeterogeneousInput),
        checked_kind(s) matches Err(e) ==> {
            &&& minimum(s) == Err::<Element, StatsError>(e)
            &&& maximum(s) == Err::<Element, StatsError>(e)
            &&& bounds_of(s) == Err::<Seq<Element>, StatsError>(e)
            &&& top_k(s, k) == Err::<Seq<Element>, StatsError>(e)
            &&& bottom_k(s, k) == Err::<Seq<Element>, StatsError>(e)
        },
        checked_kind(s) is Ok && !(1 <= k <= s.len()) ==> {
            &&& top_k(s, k) == Err::<Seq<Element>, StatsError>(StatsError::Range { len: s.len() as usize })
            &&& bottom_k(s, k) == Err::<Seq<Element>, StatsError>(
                StatsError::Range { len: s.len() as usize },
            )
        },
        checked_kind(s) is Ok && 1 <= k <= s.len() ==> top_k(s, k) is Ok && bottom_k(s, k) is Ok
            && minimum(s) is Ok && maximum(s) is Ok && bounds_of(s) is Ok,
{
}

/// Of two numeric values, whatever their kinds, the pair form gives one
/// of the two: the greater is not below either, and the lesser is not above
/// either, in the order of the pair form and by numeric value. A value that
/// is not numeric is refused as a type error.
pub proof fn pair_extrema_enclose_both(a: Element, b: Element)
    ensures
        a.kind() is None || b.kind() is None ==> {
            &&& greater_of(a, b) == Err::<Element, StatsError>(StatsError::Type)
            &&& lesser_of(a, b) == Err::<Element, StatsError>(StatsError::Type)
        },
        a.kind() is Some && b.kind() is Some ==> {
            &&& greater_of(a, b) matches Ok(high)
            &&& lesser_of(a, b) matches Ok(low)
            &&& high == a || high == b
            &&& low == a || low == b
            &&& pair_leq(a, high) && pair_leq(b, high)
            &&& pair_leq(low, a) && pair_leq(low, b)
            &&& scaled(a) <= scaled(high) && scaled(b) <= scaled(high)
            &&& scaled(low) <= scaled(a) && scaled(low) <= scaled(b)
        },
{
    if a.kind() is Some && b.kind() == a.kind() {
        if a.leq(b) {
            lemma_order_follows_value(a, b);
        } else {
            lemma_order_follows_value(b, a);
        }
    }
}

} // verus!
