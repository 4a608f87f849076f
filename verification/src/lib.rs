//! An in-memory columnar cell-data model: a collection of named, typed
//! columns sharing one row count, with row-level algorithms (sort, group,
//! dedup, count-distinct, projection, merge), N-dimensional addressing,
//! and a borrowed comparison view.
//!
//! All value comparison is exact-bit comparison of the underlying
//! representations, never numeric value semantics.

use vstd::prelude::*;

pub mod bitset;
pub mod cells;
pub mod field;
pub mod laws;
pub mod rows;
pub mod seqs;
pub mod structured;
pub mod value;
pub mod view;

verus! {

/// The distinguishable failure kinds of the cell-data model.
///
/// Construction failures (`LengthMismatch`, `DuplicateField`,
/// `DimensionMismatch`) reject the call entirely; `FieldNotFound` is a
/// lookup failure with no partial result; `TypeMismatch` reports an
/// attempt to combine columns of different physical types.
#[derive(Clone, Copy, Debug, PartialEq, Eq, Structural)]
pub enum CellsError {
    /// The supplied columns do not all share one row count.
    LengthMismatch,
    /// Two supplied columns share one field name.
    DuplicateField,
    /// The product of the dimension extents does not equal the row count.
    DimensionMismatch,
    /// Two columns or field sets of different physical types were combined.
    TypeMismatch,
    /// A requested field name is not present.
    FieldNotFound,
}

} // verus!
