//! Cell classification on a square lattice of side `d`.
use vstd::prelude::*;

verus! {

/// A cell holds data iff the sum of its coordinates is even.
pub open spec fn is_data(r: int, c: int) -> bool {
    (r + c) % 2 == 0
}

/// Measurement cells in odd columns check the type-A parity grid;
/// those in even columns check the type-B grid.
pub open spec fn checks_type_a(c: int) -> bool {
    c % 2 == 1
}

/// Whether `(r, c)` is a data cell.
pub fn is_data_cell(r: usize, c: usize) -> (b: bool)
    ensures
        b == is_data(r as int, c as int),
{
    r % 2 == c % 2
}

/// Whether `(r, c)` is a measurement cell.
pub fn is_measurement_cell(r: usize, c: usize) -> (b: bool)
    ensures
        b == !is_data(r as int, c as int),
{
    !is_data_cell(r, c)
}

} // verus!
