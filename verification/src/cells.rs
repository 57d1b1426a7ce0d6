//! Counting the cells of a rectangle: each cell gets a number of its own, so
//! that a set of cells can be measured against the size of the grid.

use vstd::prelude::*;
use vstd::set_lib::{lemma_int_range, lemma_len_subset, set_int_range};
use crate::coords::Coords;

verus! {

/// The row-major number of the cell `c` in a grid of `cols` columns.
pub open spec fn flat(c: Coords, cols: int) -> int {
    c.y * cols + c.x
}

/// A cell inside a `rows` by `cols` rectangle has a number below `rows * cols`.
pub proof fn lemma_flat_range(c: Coords, rows: int, cols: int)
    requires
        c.x < cols,
        c.y < rows,
    ensures
        0 <= flat(c, cols) < rows * cols,
{
    let y = c.y as int;
    assert(0 <= y * cols && y * cols + cols <= rows * cols) by (nonlinear_arith)
        requires
            0 <= y < rows,
            0 < cols,
    ;
}

/// Two cells of one grid with the same number are the same cell.
pub proof fn lemma_flat_injective(a: Coords, b: Coords, cols: int)
    requires
        a.x < cols,
        b.x < cols,
        flat(a, cols) == flat(b, cols),
    ensures
        a == b,
{
    let ay = a.y as int;
    let by = b.y as int;
    let ax = a.x as int;
    let bx = b.x as int;
    assert(ay == by) by (nonlinear_arith)
        requires
            0 <= ax < cols,
            0 <= bx < cols,
            ay * cols + ax == by * cols + bx,
    ;
}

/// A set of numbers below `limit` has at most `limit` members.
pub proof fn lemma_room(numbers: Set<int>, limit: int)
    requires
        0 <= limit,
        forall|k: int| numbers.contains(k) ==> 0 <= k < limit,
    ensures
        numbers.finite(),
        numbers.len() <= limit,
{
    lemma_int_range(0, limit);
    assert(numbers.subset_of(set_int_range(0, limit)));
    lemma_len_subset(numbers, set_int_range(0, limit));
}

} // verus!
