//! Extrema and order statistics over one-dimensional numeric sequences.
//!
//! A sequence is a `Vec<Element>`; every element is an integer, a float held
//! as its bit pattern, or a value that is neither. The operations accept only
//! non-empty sequences whose elements are all integers or all floats, and
//! report everything else as a [`StatsError`]. The pair forms also take one
//! integer and one float, and compare them by numeric value.

pub mod element;
pub mod numeric;
pub mod order;
pub mod classify;
pub mod reduce;
pub mod select;
pub mod laws;

pub use classify::{classify, validate};
pub use element::{Element, ElementKind, StatsError};
pub use numeric::{relate_integer_to_float, Relation};
pub use order::sorted_copy;
pub use reduce::{array_max, array_min, bounds, gen_max, gen_min};
pub use select::{maxk, mink};
