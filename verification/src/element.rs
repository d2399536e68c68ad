//! Elements, their kinds, and the order in which they are arranged.

use vstd::prelude::*;
use vstd::relations::total_ordering;

verus! {

/// The numeric kind shared by the elements of an accepted sequence.
#[derive(Clone, Copy, Debug, PartialEq, Eq, Structural)]
pub enum ElementKind {
    Integer,
    Float,
}

/// One value of a sequence.
///
/// A float is held as the 64 bits of its IEEE 754 binary64 encoding, so that
/// it can be ordered and handed back exactly as it came in.
#[derive(Clone, Copy, Debug, PartialEq, Eq, Structural)]
pub enum Element {
    Integer(i64),
    Float(u64),
    /// Anything that is neither an integer nor a float.
    Other,
}

/// Why an operation produced no result.
#[derive(Clone, Copy, Debug, PartialEq, Eq, Structural)]
pub enum StatsError {
    /// The first element is neither an integer nor a float.
    Type,
    /// The sequence has no elements.
    EmptyInput,
    /// The requested count lies outside `1..=len`.
    Range { len: usize },
    /// Some element is not of the kind of the first one.
    HeterogeneousInput,
}

/// The position of a float among all floats, given its bit pattern.
///
/// Patterns with a clear sign bit keep their value; patterns with the sign
/// bit set are mirrored below zero. On numbers this is the usual order of
/// floats, with negative zero directly below positive zero; NaN patterns
/// fall outside the infinities on the side of their sign.
pub open spec fn float_key(bits: u64) -> int {
    if bits < 0x8000_0000_0000_0000u64 {
        bits as int
    } else {
        0x7FFF_FFFF_FFFF_FFFF - bits as int
    }
}

impl Element {
    /// The numeric kind of the element, if it has one.
    pub open spec fn kind(self) -> Option<ElementKind> {
        match self {
            Element::Integer(_) => Some(ElementKind::Integer),
            Element::Float(_) => Some(ElementKind::Float),
            Element::Other => None,
        }
    }

    /// Groups the element by representation: integers, then floats, then the rest.
    pub open spec fn rank(self) -> int {
        match self {
            Element::Integer(_) => 0,
            Element::Float(_) => 1,
            Element::Other => 2,
        }
    }

    /// The position of the element among those of its own rank.
    pub open spec fn key(self) -> int {
        match self {
            Element::Integer(i) => i as int,
            Element::Float(bits) => float_key(bits),
            Element::Other => 0,
        }
    }

    /// `self` comes no later than `other` in ascending order.
    ///
    /// Within one kind this compares values. Elements of different rank are
    /// ordered by rank only so that the relation is total: sequences of more
    /// than one kind are refused, and a pair of an integer and a float is
    /// compared by numeric value, not by this relation.
    pub open spec fn leq(self, other: Element) -> bool {
        self.rank() < other.rank() || (self.rank() == other.rank() && self.key() <= other.key())
    }

    /// The numeric kind of the element, if it has one.
    pub fn kind_of(&self) -> (r: Option<ElementKind>)
        ensures
            r == self.kind(),
    {
        match self {
            Element::Integer(_) => Some(ElementKind::Integer),
            Element::Float(_) => Some(ElementKind::Float),
            Element::Other => None,
        }
    }

    fn rank_of(&self) -> (r: u8)
        ensures
            r as int == self.rank(),
    {
        match self {
            Element::Integer(_) => 0u8,
            Element::Float(_) => 1u8,
            Element::Other => 2u8,
        }
    }

    fn key_of(&self) -> (r: i64)
        ensures
            r as int == self.key(),
    {
        match self {
            Element::Integer(i) => *i,
            Element::Float(bits) => {
                if *bits < 0x8000_0000_0000_0000u64 {
                    *bits as i64
                } else {
                    let magnitude: u64 = *bits - 0x8000_0000_0000_0000u64;
                    -(magnitude as i64) - 1
                }
            },
            Element::Other => 0i64,
        }
    }

    /// Decides whether `self` comes no later than `other` in ascending order.
    pub fn precedes(&self, other: &Element) -> (r: bool)
        ensures
            r == self.leq(*other),
    {
        let a: u8 = self.rank_of();
        let b: u8 = other.rank_of();
        a < b || (a == b && self.key_of() <= other.key_of())
    }
}

/// The ascending order as a relation, in the form that sequence sorting takes.
pub open spec fn ascending_order() -> spec_fn(Element, Element) -> bool {
    |a: Element, b: Element| a.leq(b)
}

/// Two elements that each come no later than the other are the same element.
pub proof fn lemma_leq_antisymmetric(a: Element, b: Element)
    requires
        a.leq(b),
        b.leq(a),
    ensures
        a == b,
{
}

/// The ascending order is reflexive, antisymmetric, transitive and total.
pub proof fn lemma_order_is_total()
    ensures
        total_ordering(ascending_order()),
{
    let r = ascending_order();
    assert forall|a: Element, b: Element| #[trigger] r(a, b) && #[trigger] r(b, a) implies a
        == b by {
        lemma_leq_antisymmetric(a, b);
    }
}

} // verus!
