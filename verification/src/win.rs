//! Win detection: does a run of four stones of one colour pass through a cell?

use vstd::prelude::*;
use crate::board::{Board, Grid};
use crate::{Colors, Vals, FOUR};

verus! {

/// The coordinate `t` steps away from `x` along a direction component `d`
/// (negative, zero or positive).
pub open spec fn shift(x: int, d: int, t: int) -> int {
    if d > 0 {
        x + t
    } else if d < 0 {
        x - t
    } else {
        x
    }
}

/// The cell `t` steps away from `(x, y)` in direction `(dx, dy)` is on the board and
/// holds colour `c`.
pub open spec fn stone(g: Grid, x: int, y: int, c: Colors, dx: int, dy: int, t: int) -> bool {
    g.inside(shift(x, dx, t), shift(y, dy, t)) && g.at(shift(x, dx, t), shift(y, dy, t)) == c
}

/// As `stone`, but the cell `(x, y)` itself counts as holding `c` whatever is there.
pub open spec fn stone_or_here(g: Grid, x: int, y: int, c: Colors, dx: int, dy: int, t: int) -> bool {
    t == 0 || stone(g, x, y, c, dx, dy, t)
}

/// Four cells in a row along `(dx, dy)`, the cell `(x, y)` being the one at index
/// `k` of the four, all hold colour `c`.
pub open spec fn line_through(g: Grid, x: int, y: int, c: Colors, dx: int, dy: int, k: int) -> bool {
    &&& stone_or_here(g, x, y, c, dx, dy, 0 - k)
    &&& stone_or_here(g, x, y, c, dx, dy, 1 - k)
    &&& stone_or_here(g, x, y, c, dx, dy, 2 - k)
    &&& stone_or_here(g, x, y, c, dx, dy, 3 - k)
}

/// Some run of four along the axis `(dx, dy)` passes through `(x, y)`.
pub open spec fn axis_win(g: Grid, x: int, y: int, c: Colors, dx: int, dy: int) -> bool {
    ||| line_through(g, x, y, c, dx, dy, 0)
    ||| line_through(g, x, y, c, dx, dy, 1)
    ||| line_through(g, x, y, c, dx, dy, 2)
    ||| line_through(g, x, y, c, dx, dy, 3)
}

/// A stone of colour `c` on `(x, y)` is part of four in a row: vertically,
/// horizontally, or along one of the two diagonals. The content of `(x, y)` itself
/// is not looked at, so this answers both "did the stone just placed win" and
/// "would a stone dropped here win".
pub open spec fn wins_at(g: Grid, x: int, y: int, c: Colors) -> bool {
    ||| axis_win(g, x, y, c, 0, 1)
    ||| axis_win(g, x, y, c, 1, 0)
    ||| axis_win(g, x, y, c, 1, 1)
    ||| axis_win(g, x, y, c, 1, -1)
}

/// The four directions that name the four axes: up, right, up-right, down-right.
pub open spec fn is_axis(dx: int, dy: int) -> bool {
    (dx == 0 && dy == 1) || (dx == 1 && -1 <= dy <= 1)
}

/// The cell at place `i` of four consecutive cells along `(dx, dy)`, of which
/// `(x, y)` is the one at place `k`, holds colour `c` (or is `(x, y)` itself).
pub open spec fn run_cell(g: Grid, x: int, y: int, c: Colors, dx: int, dy: int, k: int, i: int) -> bool {
    stone_or_here(g, x, y, c, dx, dy, i - k)
}

/// All four of these cells hold colour `c`.
pub open spec fn run(g: Grid, x: int, y: int, c: Colors, dx: int, dy: int, k: int) -> bool {
    forall|i: int| 0 <= i < 4 ==> #[trigger] run_cell(g, x, y, c, dx, dy, k, i)
}

/// Along some axis, some four consecutive cells that include `(x, y)` all hold
/// colour `c`, the cell `(x, y)` counting as `c`.
pub open spec fn has_run(g: Grid, x: int, y: int, c: Colors) -> bool {
    exists|dx: int, dy: int, k: int|
        is_axis(dx, dy) && 0 <= k < 4 && #[trigger] run(g, x, y, c, dx, dy, k)
}

/// `wins_at` holds exactly where a run of four passes through the cell.
pub proof fn lemma_wins_at_run(g: Grid, x: int, y: int, c: Colors)
    ensures
        wins_at(g, x, y, c) <==> has_run(g, x, y, c),
{
    assert forall|dx: int, dy: int, k: int| #[trigger]
        run(g, x, y, c, dx, dy, k) == line_through(g, x, y, c, dx, dy, k) by {
        if line_through(g, x, y, c, dx, dy, k) {
            assert forall|i: int| 0 <= i < 4 implies #[trigger] run_cell(g, x, y, c, dx, dy, k, i) by {}
        }
        if run(g, x, y, c, dx, dy, k) {
            assert(run_cell(g, x, y, c, dx, dy, k, 0));
            assert(run_cell(g, x, y, c, dx, dy, k, 1));
            assert(run_cell(g, x, y, c, dx, dy, k, 2));
            assert(run_cell(g, x, y, c, dx, dy, k, 3));
        }
    }
    if wins_at(g, x, y, c) {
        let (dx, dy): (int, int) = if axis_win(g, x, y, c, 0, 1) {
            (0, 1)
        } else if axis_win(g, x, y, c, 1, 0) {
            (1, 0)
        } else if axis_win(g, x, y, c, 1, 1) {
            (1, 1)
        } else {
            (1, -1)
        };
        let k: int = if line_through(g, x, y, c, dx, dy, 0) {
            0
        } else if line_through(g, x, y, c, dx, dy, 1) {
            1
        } else if line_through(g, x, y, c, dx, dy, 2) {
            2
        } else {
            3
        };
        assert(is_axis(dx, dy) && 0 <= k < 4 && run(g, x, y, c, dx, dy, k));
    }
    if has_run(g, x, y, c) {
        let (dx, dy, k) = choose|dx: int, dy: int, k: int|
            is_axis(dx, dy) && 0 <= k < 4 && #[trigger] run(g, x, y, c, dx, dy, k);
        assert(line_through(g, x, y, c, dx, dy, k));
    }
}

/// The first `n` cells (at most three) away from `(x, y)` in direction `(dx, dy)`
/// all hold colour `c`.
pub open spec fn reach(g: Grid, x: int, y: int, c: Colors, dx: int, dy: int, n: int) -> bool {
    &&& n >= 1 ==> stone(g, x, y, c, dx, dy, 1)
    &&& n >= 2 ==> stone(g, x, y, c, dx, dy, 2)
    &&& n >= 3 ==> stone(g, x, y, c, dx, dy, 3)
}

/// One step from coordinate `i` along `d`, if that stays below `limit`.
fn step(i: usize, d: i8, limit: usize) -> (r: Option<usize>)
    requires
        i < limit,
    ensures
        r is Some <==> 0 <= shift(i as int, d as int, 1) < limit,
        r matches Some(j) ==> j == shift(i as int, d as int, 1),
{
    if d > 0 {
        if i + 1 < limit {
            Some(i + 1)
        } else {
            None
        }
    } else if d < 0 {
        if i > 0 {
            Some(i - 1)
        } else {
            None
        }
    } else {
        Some(i)
    }
}

/// Walks from `(x, y)` in direction `(dx, dy)` and counts the consecutive cells
/// of colour `color`, stopping at the first other cell, at the edge, or at `cap`.
fn ray(x: usize, y: usize, color: Colors, tab: &Board, dx: i8, dy: i8, cap: usize) -> (n: usize)
    requires
        tab@.shaped(),
        tab@.inside(x as int, y as int),
        cap < FOUR,
    ensures
        n <= cap,
        reach(tab@, x as int, y as int, color, dx as int, dy as int, n as int),
        n < cap ==> !stone(tab@, x as int, y as int, color, dx as int, dy as int, n + 1),
{
    let mut i: usize = x;
    let mut j: usize = y;
    let mut n: usize = 0;
    let mut open: bool = true;
    while open && n < cap
        invariant
            tab@.shaped(),
            cap < FOUR,
            n <= cap,
            i == shift(x as int, dx as int, n as int),
            j == shift(y as int, dy as int, n as int),
            tab@.inside(i as int, j as int),
            reach(tab@, x as int, y as int, color, dx as int, dy as int, n as int),
            !open ==> !stone(tab@, x as int, y as int, color, dx as int, dy as int, n + 1),
        decreases cap - n + if open { 1int } else { 0int },
    {
        open = false;
        if let Some(ni) = step(i, dx, tab.width) {
            if let Some(nj) = step(j, dy, tab.height) {
                assert(tab@.cells[ni as int].len() == tab.height);
                if tab.cells[ni][nj] == color {
                    i = ni;
                    j = nj;
                    n = n + 1;
                    open = true;
                }
            }
        }
    }
    n
}

/// The two counts along an axis decide whether a run of four passes through the cell.
proof fn lemma_axis(g: Grid, x: int, y: int, c: Colors, dx: int, dy: int, fwd: int, back: int)
    requires
        dx == 0 || dx == 1,
        -1 <= dy <= 1,
        0 <= fwd <= 3,
        0 <= back <= 3 - fwd,
        reach(g, x, y, c, dx, dy, fwd),
        reach(g, x, y, c, -dx, -dy, back),
        fwd < 3 ==> !stone(g, x, y, c, dx, dy, fwd + 1),
        back < 3 - fwd ==> !stone(g, x, y, c, -dx, -dy, back + 1),
    ensures
        axis_win(g, x, y, c, dx, dy) <==> fwd + back >= 3,
{
    assert(stone(g, x, y, c, dx, dy, -1) == stone(g, x, y, c, -dx, -dy, 1));
    assert(stone(g, x, y, c, dx, dy, -2) == stone(g, x, y, c, -dx, -dy, 2));
    assert(stone(g, x, y, c, dx, dy, -3) == stone(g, x, y, c, -dx, -dy, 3));
}

/// Counts along one axis in both directions, capped at three in all.
fn axis(x: usize, y: usize, color: Colors, tab: &Board, dx: i8, dy: i8) -> (nb: usize)
    requires
        tab@.shaped(),
        tab@.inside(x as int, y as int),
        dx == 0 || dx == 1,
        -1 <= dy <= 1,
    ensures
        nb < FOUR,
        axis_win(tab@, x as int, y as int, color, dx as int, dy as int) <==> nb >= FOUR - 1,
{
    let fwd: usize = ray(x, y, color, tab, dx, dy, FOUR - 1);
    let back: usize = ray(x, y, color, tab, -dx, -dy, FOUR - 1 - fwd);
    proof {
        lemma_axis(tab@, x as int, y as int, color, dx as int, dy as int, fwd as int, back as int);
    }
    fwd + back
}

/// Tells whether a stone of colour `color` on `(x, y)` completes four in a row:
/// walks outward from the cell in both directions along each of the four axes and
/// stops at the first axis on which it counts three more stones of that colour.
pub fn eval(x: usize, y: usize, color: Colors, tab: &Board) -> (win: bool)
    requires
        tab@.shaped(),
        tab@.inside(x as int, y as int),
    ensures
        win == wins_at(tab@, x as int, y as int, color),
        win == has_run(tab@, x as int, y as int, color),
{
    proof {
        lemma_wins_at_run(tab@, x as int, y as int, color);
    }
    /* Vertical */
    if axis(x, y, color, tab, 0, 1) >= FOUR - 1 {
        return true;
    }
    /* Horizontal */
    if axis(x, y, color, tab, 1, 0) >= FOUR - 1 {
        return true;
    }
    /* Rising diagonal */
    if axis(x, y, color, tab, 1, 1) >= FOUR - 1 {
        return true;
    }
    /* Falling diagonal */
    axis(x, y, color, tab, 1, -1) >= FOUR - 1
}

/// As `eval`, with the answer as a score: `color` if the stone completes four in a
/// row, and 0 if not.
pub fn eval2(x: usize, y: usize, color: Colors, tab: &Board) -> (v: Vals)
    requires
        tab@.shaped(),
        tab@.inside(x as int, y as int),
    ensures
        v == if wins_at(tab@, x as int, y as int, color) {
            color
        } else {
            0
        },
        wins_at(tab@, x as int, y as int, color) <==> has_run(tab@, x as int, y as int, color),
{
    if eval(x, y, color, tab) {
        color
    } else {
        0
    }
}

} // verus!
