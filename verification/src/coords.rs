//! Cell coordinates shared by every grid of the crate.

use vstd::prelude::*;

verus! {

/// A cell position: `x` is the column, `y` is the row.
#[derive(Clone, Copy, Debug, PartialEq, Eq, Structural)]
pub struct Coords {
    pub x: usize,
    pub y: usize,
}

/// Two cells are adjacent when they differ by one unit step along one axis.
pub open spec fn adjacent(a: Coords, b: Coords) -> bool {
    ||| (a.x == b.x && (a.y + 1 == b.y || b.y + 1 == a.y))
    ||| (a.y == b.y && (a.x + 1 == b.x || b.x + 1 == a.x))
}

/// `v + d` when that sum lies in `[0, limit)`.
pub open spec fn shifted(v: usize, d: int, limit: int) -> Option<usize> {
    if 0 <= v + d < limit {
        Some((v + d) as usize)
    } else {
        None
    }
}

/// Moves `v` by the signed distance `d` and keeps the result only when it is
/// below `limit`. No intermediate value leaves the range of its type.
pub fn shift(v: usize, d: isize, limit: usize) -> (r: Option<usize>)
    ensures
        r == shifted(v, d as int, limit as int),
{
    if d >= 0 {
        let step: usize = d as usize;
        if step < limit && v < limit - step {
            Some(v + step)
        } else {
            None
        }
    } else {
        let back: usize = (-(d + 1)) as usize + 1;
        if v >= back && v - back < limit {
            Some(v - back)
        } else {
            None
        }
    }
}

} // verus!
