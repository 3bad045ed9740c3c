//! The reasoning behind alpha-beta pruning, apart from any table: what a probe
//! settles, what the scan of the replies knows after each reply, and why the best
//! score found tells the value of the position.

use vstd::prelude::*;
use crate::board::{Board, Grid};
use crate::game::{
    best_reply, can_win, lemma_best_reply_attained, lemma_best_reply_upper, reply, wins_now,
};
use crate::order::{ind, lemma_order_range, lemma_order_rank, order, rank};
use crate::win::eval;
use crate::{Colors, Vals, VALMIN};

verus! {

/// What a search result `g` of a window `(alpha, beta)` says of the true value `v`:
/// at or below `alpha` it is an upper bound, at or above `beta` a lower bound, and
/// strictly inside the window it is exact.
pub open spec fn tells(g: int, alpha: int, beta: int, v: int) -> bool {
    &&& g <= alpha ==> v <= g
    &&& g >= beta ==> v >= g
    &&& alpha < g < beta ==> v == g
}

/// What a table probe settles at once: an exact value, a lower bound that is not
/// below `beta`, or an upper bound that is not above `alpha`.
pub open spec fn cutoff(probe: Option<(Vals, Vals)>, alpha: Vals, beta: Vals) -> Option<Vals> {
    match probe {
        Some((lo, hi)) => if lo == hi || lo >= beta {
            Some(lo)
        } else if hi <= alpha {
            Some(hi)
        } else {
            None
        },
        None => None,
    }
}

/// The window cut down to the bounds that a probe gave.
pub open spec fn narrowed(probe: Option<(Vals, Vals)>, alpha: Vals, beta: Vals) -> (Vals, Vals) {
    match probe {
        Some((lo, hi)) => (
            if lo > alpha {
                lo
            } else {
                alpha
            },
            if hi < beta {
                hi
            } else {
                beta
            },
        ),
        None => (alpha, beta),
    }
}

/// What is left to do after a probe: nothing, the score being settled, or a search
/// in the window that is still open.
pub enum Glance {
    Settled(Vals),
    Open(Vals, Vals),
}

/// Weighs the bounds that a probe gave against the window: see `cutoff` and
/// `narrowed`.
pub fn glance(probe: Option<(Vals, Vals)>, alpha: Vals, beta: Vals) -> (r: Glance)
    ensures
        r == match cutoff(probe, alpha, beta) {
            Some(v) => Glance::Settled(v),
            None => Glance::Open(narrowed(probe, alpha, beta).0, narrowed(probe, alpha, beta).1),
        },
{
    let mut a: Vals = alpha;
    let mut b: Vals = beta;
    if let Some((v_inf, v_sup)) = probe {
        if v_inf == v_sup {
            return Glance::Settled(v_inf);
        }
        if v_inf >= b {
            return Glance::Settled(v_inf);
        }
        if v_sup <= a {
            return Glance::Settled(v_sup);
        }
        if v_inf > a {
            a = v_inf;
        }
        if v_sup < b {
            b = v_sup;
        }
    }
    Glance::Open(a, b)
}

/// Bounds that enclose the value make a cutoff tell the truth, and leave a window
/// that is not empty and loses nothing.
pub proof fn lemma_glance(probe: Option<(Vals, Vals)>, alpha: Vals, beta: Vals, v: int)
    requires
        alpha < beta,
        probe matches Some((lo, hi)) ==> lo <= v <= hi,
    ensures
        cutoff(probe, alpha, beta) matches Some(r) ==> tells(r as int, alpha as int, beta as int, v),
        cutoff(probe, alpha, beta) is None ==> ({
            let (a, b) = narrowed(probe, alpha, beta);
            &&& alpha <= a < b <= beta
            &&& a == alpha || a <= v
            &&& b == beta || v <= b
        }),
{
}

/// A result for the window narrowed by bounds that enclose the value tells as much
/// for the window that was asked.
pub proof fn lemma_window(g: int, alpha: int, beta: int, a: int, b: int, v: int)
    requires
        alpha <= a < b <= beta,
        a == alpha || a <= v,
        b == beta || v <= b,
        tells(g, a, b, v),
    ensures
        tells(g, alpha, beta, v),
{
}

/// Tells whether the side `color` can complete four in a row with its next stone.
pub fn winning_move(tab: &Board, color: Colors) -> (win: bool)
    requires
        tab@.wf(),
    ensures
        win == can_win(tab@, color),
{
    let mut ix: usize = 0;
    while ix < tab.width
        invariant
            tab@.wf(),
            ix <= tab.width,
            forall|k: int| 0 <= k < ix ==> !wins_now(tab@, #[trigger] order(tab@.width as int, k), color),
        decreases tab.width - ix,
    {
        let x: usize = ind(tab.width, ix);
        let y: usize = tab.first[x];
        assert(0 <= tab@.first[x as int] <= tab@.height);
        if y != tab.height && eval(x, y, color, tab) {
            assert(wins_now(tab@, x as int, color));
            return true;
        }
        ix = ix + 1;
    }
    proof {
        assert forall|x: int| !wins_now(tab@, x, color) by {
            if tab@.can_place(x) {
                lemma_order_rank(tab@.width as int, x);
                assert(!wins_now(tab@, order(tab@.width as int, rank(tab@.width as int, x)), color));
            }
        }
    }
    false
}

/// What the scan knows after the first `ix` columns of the move order, with the
/// best score `best` so far, in the window that began as `(a, b)`: below `b`, no
/// reply seen is better than `best`; and above `a`, some reply is at least `best`.
pub open spec fn seen(g: Grid, c: Colors, d: int, ix: int, best: int, a: int, b: int) -> bool {
    &&& best < b ==> forall|k: int|
        0 <= k < ix && g.can_place(#[trigger] order(g.width as int, k)) ==> reply(
            g,
            c,
            d,
            order(g.width as int, k),
        ) <= best
    &&& best > a ==> exists|x: int|
        0 <= x < g.width && g.can_place(x) && #[trigger] reply(g, c, d, x) >= best
}

/// Before any reply the scan knows nothing and claims nothing.
pub proof fn lemma_seen_start(g: Grid, c: Colors, d: int, a: int, b: int)
    requires
        VALMIN <= a,
    ensures
        seen(g, c, d, 0, VALMIN as int, a, b),
{
}

/// A column without a free row adds nothing.
pub proof fn lemma_seen_skip(g: Grid, c: Colors, d: int, ix: int, best: int, a: int, b: int)
    requires
        seen(g, c, d, ix, best, a, b),
        !g.can_place(order(g.width as int, ix)),
    ensures
        seen(g, c, d, ix + 1, best, a, b),
{
}

/// A reply searched in the window `(-b, -max(a, best))`, whose result `r` tells the
/// value of the position it leads to, keeps what the scan knows.
pub proof fn lemma_seen_step(g: Grid, c: Colors, d: int, ix: int, best: int, a: int, b: int, r: int)
    requires
        g.wf(),
        0 <= ix < g.width,
        g.can_place(order(g.width as int, ix)),
        seen(g, c, d, ix, best, a, b),
        tells(r, -b, -(if best > a {
            best
        } else {
            a
        }), -reply(g, c, d, order(g.width as int, ix))),
    ensures
        seen(g, c, d, ix + 1, if -r > best {
            -r
        } else {
            best
        }, a, b),
{
    let x = order(g.width as int, ix);
    let rep = reply(g, c, d, x);
    let next = if -r > best {
        -r
    } else {
        best
    };
    lemma_order_range(g.width as int, ix);
    if next < b {
        assert forall|k: int|
            0 <= k < ix + 1 && g.can_place(#[trigger] order(g.width as int, k)) implies reply(
            g,
            c,
            d,
            order(g.width as int, k),
        ) <= next by {}
    }
    if next > a && next != best {
        assert(rep >= next);
    }
}

/// When the scan ends, after the last column or because the lower end of the
/// window reached `b`, the best score tells the best reply.
pub proof fn lemma_seen_end(g: Grid, c: Colors, d: int, ix: int, best: int, a: int, b: int)
    requires
        g.wf(),
        seen(g, c, d, ix, best, a, b),
        VALMIN <= best,
        a < b,
        ix == g.width || best >= b,
    ensures
        tells(best, a, b, best_reply(g, c, d, g.width as int)),
{
    let w = g.width as int;
    let v = best_reply(g, c, d, w);
    if best > a {
        let x = choose|x: int| 0 <= x < w && g.can_place(x) && #[trigger] reply(g, c, d, x) >= best;
        lemma_best_reply_upper(g, c, d, w, x);
    }
    if best < b {
        lemma_best_reply_attained(g, c, d, w);
        if v != VALMIN {
            let x = choose|x: int| 0 <= x < w && g.can_place(x) && v == #[trigger] reply(g, c, d, x);
            lemma_order_rank(w, x);
            assert(g.can_place(order(w, rank(w, x))));
        }
    }
}

} // verus!
