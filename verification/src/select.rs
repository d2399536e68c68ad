//! The `k` least and the `k` greatest elements of a sequence.

use vstd::prelude::*;
use crate::classify::{checked_kind, validate};
use crate::element::{Element, StatsError};
use crate::order::{ascending, is_ascending, lemma_ascending, sorted_copy};
use crate::reduce::same_outcome;

verus! {

/// The `k` greatest elements of an accepted sequence, ascending.
pub open spec fn top_k(s: Seq<Element>, k: int) -> Result<Seq<Element>, StatsError> {
    match checked_kind(s) {
        Err(e) => Err(e),
        Ok(_) => if 1 <= k <= s.len() {
            Ok(ascending(s).subrange(s.len() - k, s.len() as int))
        } else {
            Err(StatsError::Range { len: s.len() as usize })
        },
    }
}

/// The `k` least elements of an accepted sequence, ascending.
pub open spec fn bottom_k(s: Seq<Element>, k: int) -> Result<Seq<Element>, StatsError> {
    match checked_kind(s) {
        Err(e) => Err(e),
        Ok(_) => if 1 <= k <= s.len() {
            Ok(ascending(s).subrange(0, k))
        } else {
            Err(StatsError::Range { len: s.len() as usize })
        },
    }
}

fn copy_range(v: &Vec<Element>, from: usize, to: usize) -> (out: Vec<Element>)
    requires
        from <= to <= v.len(),
    ensures
        out@ == v@.subrange(from as int, to as int),
{
    let mut out: Vec<Element> = Vec::new();
    let mut i: usize = from;
    while i < to
        invariant
            from <= i <= to <= v.len(),
            out@ == v@.subrange(from as int, i as int),
        decreases to - i,
    {
        out.push(v[i]);
        proof {
            assert(out@ =~= v@.subrange(from as int, i as int + 1));
        }
        i += 1;
    }
    out
}

fn count_in_range(k: i64, len: usize) -> (r: Option<usize>)
    ensures
        r == if 1 <= k <= len { Some(k as usize) } else { None },
{
    if k < 1 || (k as u64) > (len as u64) {
        None
    } else {
        Some(k as usize)
    }
}

/// Returns the `k` greatest elements of `arr` in ascending order.
pub fn maxk(arr: &Vec<Element>, k: i64) -> (r: Result<Vec<Element>, StatsError>)
    ensures
        same_outcome(r, top_k(arr@, k as int)),
        r matches Ok(top) ==> {
            &&& top@.len() == k
            &&& is_ascending(top@)
            &&& forall|i: int| 0 <= i < top@.len() ==> arr@.contains(#[trigger] top@[i])
        },
{
    match validate(arr) {
        Err(e) => Err(e),
        Ok(_) => {
            let len: usize = arr.len();
            match count_in_range(k, len) {
                None => Err(StatsError::Range { len }),
                Some(count) => {
                    let sorted = sorted_copy(arr);
                    proof {
                        lemma_ascending(arr@);
                    }
                    let top = copy_range(&sorted, len - count, len);
                    proof {
                        assert forall|i: int| 0 <= i < top@.len() implies arr@.contains(
                            #[trigger] top@[i],
                        ) by {
                            assert(sorted@.contains(sorted@[len - count + i]));
                        }
                    }
                    Ok(top)
                },
            }
        },
    }
}

/// Returns the `k` least elements of `arr` in ascending order.
pub fn mink(arr: &Vec<Element>, k: i64) -> (r: Result<Vec<Element>, StatsError>)
    ensures
        same_outcome(r, bottom_k(arr@, k as int)),
        r matches Ok(bottom) ==> {
            &&& bottom@.len() == k
            &&& is_ascending(bottom@)
            &&& forall|i: int| 0 <= i < bottom@.len() ==> arr@.contains(#[trigger] bottom@[i])
        },
{
    match validate(arr) {
        Err(e) => Err(e),
        Ok(_) => {
            let len: usize = arr.len();
            match count_in_range(k, len) {
                None => Err(StatsError::Range { len }),
                Some(count) => {
                    let sorted = sorted_copy(arr);
                    proof {
                        lemma_ascending(arr@);
                    }
                    let bottom = copy_range(&sorted, 0, count);
                    proof {
                        assert forall|i: int| 0 <= i < bottom@.len() implies arr@.contains(
                            #[trigger] bottom@[i],
                        ) by {
                            assert(sorted@.contains(sorted@[i]));
                        }
                    }
                    Ok(bottom)
                },
            }
        },
    }
}

} // verus!
