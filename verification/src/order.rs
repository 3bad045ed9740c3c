//! The order in which the columns are tried: the centre first, then alternately
//! one step further right and left.

use vstd::prelude::*;

verus! {

/// The column tried at position `ix` of the order, for a board `width` wide.
pub open spec fn order(width: int, ix: int) -> int {
    if ix % 2 == 1 {
        (width - 1) / 2 + (ix + 1) / 2
    } else {
        (width - 1) / 2 - ix / 2
    }
}

/// The position of column `x` in the order.
pub open spec fn rank(width: int, x: int) -> int {
    if x > (width - 1) / 2 {
        2 * (x - (width - 1) / 2) - 1
    } else {
        2 * ((width - 1) / 2 - x)
    }
}

/// Every position of the order names a column of the board.
pub proof fn lemma_order_range(width: int, ix: int)
    requires
        0 <= ix < width,
    ensures
        0 <= order(width, ix) < width,
{
}

/// Every column has its position in the order, so the order leaves no column out.
pub proof fn lemma_order_rank(width: int, x: int)
    requires
        0 <= x < width,
    ensures
        0 <= rank(width, x) < width,
        order(width, rank(width, x)) == x,
{
}

/// The column tried at position `ix`.
pub fn ind(width: usize, ix: usize) -> (x: usize)
    requires
        ix < width,
    ensures
        x == order(width as int, ix as int),
        x < width,
{
    let centre: usize = (width - 1) / 2;
    let half: usize = (ix + 1) / 2;
    if ix % 2 == 1 {
        centre + half
    } else {
        centre - half
    }
}

} // verus!
