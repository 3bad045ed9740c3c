//! The value of a position: plain negamax over the whole game tree, with no
//! pruning and no memory. The search is proved against this definition.

use vstd::prelude::*;
use crate::board::Grid;
use crate::{Colors, BLACK, VALMAX, VALMIN, WHITE};
use crate::win::wins_at;

verus! {

/// The other side.
pub open spec fn opponent(c: Colors) -> Colors {
    if c == WHITE {
        BLACK
    } else {
        WHITE
    }
}

pub open spec fn is_side(c: Colors) -> bool {
    c == WHITE || c == BLACK
}

/// Column `x` has a free row, and a stone of colour `c` dropped there completes
/// four in a row.
pub open spec fn wins_now(g: Grid, x: int, c: Colors) -> bool {
    g.can_place(x) && wins_at(g, x, g.first[x], c)
}

/// The side `c` can win with its next stone.
pub open spec fn can_win(g: Grid, c: Colors) -> bool {
    exists|x: int| wins_now(g, x, c)
}

/// The value of the position `g` for the side `c` that is to move at ply `d`:
/// 1 if `c` can complete four in a row at once; else 0 at the last ply; else the
/// best, over the columns with a free row, of the negated value of the position
/// that the move leads to (and `VALMIN` where no column has a free row).
pub open spec fn negamax(g: Grid, c: Colors, d: int) -> int
    decreases g.free(), 1int, 0int,
{
    if !g.wf() {
        0
    } else if can_win(g, c) {
        1
    } else if d == g.maxdepth() {
        0
    } else {
        best_reply(g, c, d, g.width as int)
    }
}

/// The best negated value among the moves into the columns below `n`.
pub open spec fn best_reply(g: Grid, c: Colors, d: int, n: int) -> int
    decreases g.free(), 0int, n,
{
    if n <= 0 || !g.wf() {
        VALMIN as int
    } else {
        let rest = best_reply(g, c, d, n - 1);
        if g.can_place(n - 1) {
            proof {
                g.lemma_place_count(n - 1, c);
            }
            let reply = -negamax(g.place(n - 1, c), opponent(c), d + 1);
            if reply > rest {
                reply
            } else {
                rest
            }
        } else {
            rest
        }
    }
}

/// The value of the position after a stone of colour `c` went into column `x`,
/// seen from the side `c` that dropped it.
pub open spec fn reply(g: Grid, c: Colors, d: int, x: int) -> int {
    -negamax(g.place(x, c), opponent(c), d + 1)
}

/// Every value lies between `VALMIN` and `VALMAX`.
pub proof fn lemma_negamax_range(g: Grid, c: Colors, d: int)
    ensures
        VALMIN <= negamax(g, c, d) <= VALMAX,
    decreases g.free(), 1int, 0int,
{
    if g.wf() && !can_win(g, c) && d != g.maxdepth() {
        lemma_best_reply_range(g, c, d, g.width as int);
    }
}

pub proof fn lemma_best_reply_range(g: Grid, c: Colors, d: int, n: int)
    ensures
        VALMIN <= best_reply(g, c, d, n) <= VALMAX,
    decreases g.free(), 0int, n,
{
    if n > 0 && g.wf() {
        lemma_best_reply_range(g, c, d, n - 1);
        if g.can_place(n - 1) {
            g.lemma_place_count(n - 1, c);
            lemma_negamax_range(g.place(n - 1, c), opponent(c), d + 1);
        }
    }
}

/// In a game played from the first stone on, where the ply is the number of stones
/// and a cell is still free, every value is a loss, a draw or a win: -1, 0 or 1.
pub proof fn lemma_negamax_small(g: Grid, c: Colors, d: int)
    requires
        g.wf(),
        d == g.stones(),
        d <= g.maxdepth(),
    ensures
        -1 <= negamax(g, c, d) <= 1,
    decreases g.free(), 1int,
{
    if !can_win(g, c) && d != g.maxdepth() {
        let w = g.width as int;
        g.lemma_room();
        let x = choose|x: int| g.can_place(x);
        lemma_reply_small(g, c, d, x);
        lemma_best_reply_upper(g, c, d, w, x);
        lemma_best_reply_attained(g, c, d, w);
        if best_reply(g, c, d, w) != VALMIN {
            let y = choose|y: int|
                0 <= y < w && g.can_place(y) && best_reply(g, c, d, w) == #[trigger] reply(g, c, d, y);
            lemma_reply_small(g, c, d, y);
        }
    }
}

/// The same of the value of a reply.
proof fn lemma_reply_small(g: Grid, c: Colors, d: int, x: int)
    requires
        g.wf(),
        g.can_place(x),
        d == g.stones(),
        d < g.maxdepth(),
    ensures
        -1 <= reply(g, c, d, x) <= 1,
    decreases g.free(), 0int,
{
    g.lemma_place_count(x, c);
    if is_side(c) {
        g.lemma_place(x, c);
        lemma_negamax_small(g.place(x, c), opponent(c), d + 1);
    } else {
        assert(!g.place(x, c).wf()) by {
            let h = g.place(x, c);
            assert(g.cells[x].len() == g.height);
            assert(h.at(x, g.first[x]) == c);
            assert(0 <= g.first[x] < h.first[x]);
        }
    }
}

/// No move into a column below `n` is better than the best reply.
pub proof fn lemma_best_reply_upper(g: Grid, c: Colors, d: int, n: int, x: int)
    requires
        g.wf(),
        0 <= x < n,
        g.can_place(x),
    ensures
        reply(g, c, d, x) <= best_reply(g, c, d, n),
    decreases n,
{
    if x < n - 1 {
        lemma_best_reply_upper(g, c, d, n - 1, x);
    }
}

/// The best reply is the value of some move, unless it is `VALMIN`.
pub proof fn lemma_best_reply_attained(g: Grid, c: Colors, d: int, n: int)
    requires
        g.wf(),
    ensures
        best_reply(g, c, d, n) == VALMIN || exists|x: int|
            0 <= x < n && g.can_place(x) && best_reply(g, c, d, n) == #[trigger] reply(g, c, d, x),
    decreases n,
{
    if n > 0 {
        lemma_best_reply_attained(g, c, d, n - 1);
        let rest = best_reply(g, c, d, n - 1);
        if g.can_place(n - 1) && reply(g, c, d, n - 1) > rest {
            assert(best_reply(g, c, d, n) == reply(g, c, d, n - 1));
        } else if rest != VALMIN {
            let x = choose|x: int|
                0 <= x < n - 1 && g.can_place(x) && rest == #[trigger] reply(g, c, d, x);
            assert(0 <= x < n && g.can_place(x) && best_reply(g, c, d, n) == reply(g, c, d, x));
        }
    }
}

/// The side to move at ply `d` of a game in which `c0` moves at the even plies.
pub open spec fn mover(c0: Colors, d: int) -> Colors {
    if d % 2 == 0 {
        c0
    } else {
        opponent(c0)
    }
}

/// A legal position with a free cell, on a board `w` wide and `h` high.
pub open spec fn playable(g: Grid, w: nat, h: nat) -> bool {
    g.wf() && g.width == w && g.height == h && g.stones() <= g.maxdepth()
}

/// The value of a position in the game in which `c0` moves at the even plies: the
/// ply is the number of stones, and the parity of the ply tells whose move it is.
pub open spec fn value(g: Grid, c0: Colors) -> int {
    negamax(g, mover(c0, g.stones()), g.stones())
}

} // verus!
