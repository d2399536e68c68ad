//! Deciding whether a sequence is one the operations accept.

use vstd::prelude::*;
use crate::element::{Element, ElementKind, StatsError};

verus! {

/// Every element of `s` has the kind of the first one.
pub open spec fn homogeneous(s: Seq<Element>) -> bool {
    forall|i: int| 0 <= i < s.len() ==> (#[trigger] s[i]).kind() == s[0].kind()
}

/// The kind that the first element gives to the sequence.
pub open spec fn first_kind(s: Seq<Element>) -> Result<ElementKind, StatsError> {
    if s.len() == 0 {
        Err(StatsError::EmptyInput)
    } else {
        match s[0].kind() {
            Some(kind) => Ok(kind),
            None => Err(StatsError::Type),
        }
    }
}

/// The kind of an accepted sequence, or the first reason to refuse it:
/// it is empty, its first element is not numeric, or a later element is of
/// another kind than the first.
pub open spec fn checked_kind(s: Seq<Element>) -> Result<ElementKind, StatsError> {
    match first_kind(s) {
        Err(e) => Err(e),
        Ok(kind) => if homogeneous(s) {
            Ok(kind)
        } else {
            Err(StatsError::HeterogeneousInput)
        },
    }
}

/// Classifies a sequence by its first element alone.
pub fn classify(arr: &Vec<Element>) -> (r: Result<ElementKind, StatsError>)
    ensures
        r == first_kind(arr@),
{
    if arr.len() == 0 {
        return Err(StatsError::EmptyInput);
    }
    match arr[0].kind_of() {
        Some(kind) => Ok(kind),
        None => Err(StatsError::Type),
    }
}

/// Classifies a sequence and checks every element against that kind.
pub fn validate(arr: &Vec<Element>) -> (r: Result<ElementKind, StatsError>)
    ensures
        r == checked_kind(arr@),
{
    match classify(arr) {
        Err(e) => Err(e),
        Ok(kind) => {
            let mut i: usize = 1;
            while i < arr.len()
                invariant
                    1 <= i <= arr.len(),
                    arr@[0].kind() == Some(kind),
                    forall|p: int| 0 <= p < i ==> (#[trigger] arr@[p]).kind() == Some(kind),
                decreases arr.len() - i,
            {
                if arr[i].kind_of() != Some(kind) {
                    return Err(StatsError::HeterogeneousInput);
                }
                i += 1;
            }
            Ok(kind)
        },
    }
}

} // verus!
