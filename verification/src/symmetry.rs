//! Left-right symmetry of the game: a position and its mirror image have the same
//! value, so keys that tell apart all positions but mirror images never mix up
//! two values.

use vstd::prelude::*;
use crate::board::Grid;
use crate::game::{
    best_reply, can_win, is_side, lemma_best_reply_attained, lemma_best_reply_range,
    lemma_best_reply_upper, mover, negamax, opponent, playable, reply, value, wins_now,
};
use crate::hash::KeyTable;
use crate::correct::{separates, separates_in};
use crate::win::{axis_win, line_through, stone, wins_at};
use crate::{Colors, VALMIN};

verus! {

/// A cell of the mirror image holds what the mirrored cell of the grid holds, so
/// a walk in the image is the walk in the grid with left and right swapped.
proof fn lemma_stone_mirror(g: Grid, x: int, y: int, c: Colors, dx: int, dy: int, t: int)
    requires
        g.shaped(),
    ensures
        stone(g.mirror(), g.width - 1 - x, y, c, dx, dy, t) == stone(g, x, y, c, -dx, dy, t),
{
}

/// A run of four along an axis of the mirror image is a run of four along the
/// mirrored axis of the grid.
proof fn lemma_axis_mirror(g: Grid, x: int, y: int, c: Colors, dx: int, dy: int)
    requires
        g.shaped(),
        dx == 0 || dx == 1,
        -1 <= dy <= 1,
    ensures
        axis_win(g.mirror(), g.width - 1 - x, y, c, dx, dy) == axis_win(
            g,
            x,
            y,
            c,
            dx,
            if dx == 0 {
                dy
            } else {
                -dy
            },
        ),
{
    let m = g.mirror();
    let u = g.width - 1 - x;
    lemma_stone_mirror(g, x, y, c, dx, dy, -3);
    lemma_stone_mirror(g, x, y, c, dx, dy, -2);
    lemma_stone_mirror(g, x, y, c, dx, dy, -1);
    lemma_stone_mirror(g, x, y, c, dx, dy, 1);
    lemma_stone_mirror(g, x, y, c, dx, dy, 2);
    lemma_stone_mirror(g, x, y, c, dx, dy, 3);
    if dx == 0 {
        assert(line_through(m, u, y, c, dx, dy, 0) == line_through(g, x, y, c, dx, dy, 0));
        assert(line_through(m, u, y, c, dx, dy, 1) == line_through(g, x, y, c, dx, dy, 1));
        assert(line_through(m, u, y, c, dx, dy, 2) == line_through(g, x, y, c, dx, dy, 2));
        assert(line_through(m, u, y, c, dx, dy, 3) == line_through(g, x, y, c, dx, dy, 3));
    } else {
        assert(line_through(m, u, y, c, dx, dy, 0) == line_through(g, x, y, c, dx, -dy, 3));
        assert(line_through(m, u, y, c, dx, dy, 1) == line_through(g, x, y, c, dx, -dy, 2));
        assert(line_through(m, u, y, c, dx, dy, 2) == line_through(g, x, y, c, dx, -dy, 1));
        assert(line_through(m, u, y, c, dx, dy, 3) == line_through(g, x, y, c, dx, -dy, 0));
    }
}

/// A stone completes four in a row in the mirror image exactly if the mirrored
/// stone does so in the grid.
pub proof fn lemma_wins_at_mirror(g: Grid, x: int, y: int, c: Colors)
    requires
        g.shaped(),
    ensures
        wins_at(g.mirror(), g.width - 1 - x, y, c) == wins_at(g, x, y, c),
{
    lemma_axis_mirror(g, x, y, c, 0, 1);
    lemma_axis_mirror(g, x, y, c, 1, 0);
    lemma_axis_mirror(g, x, y, c, 1, 1);
    lemma_axis_mirror(g, x, y, c, 1, -1);
}

/// A side can win at once in the mirror image exactly if it can in the grid.
pub proof fn lemma_can_win_mirror(g: Grid, c: Colors)
    requires
        g.shaped(),
    ensures
        can_win(g.mirror(), c) == can_win(g, c),
{
    let m = g.mirror();
    assert forall|x: int| wins_now(g, x, c) == wins_now(m, g.width - 1 - x, c) by {
        lemma_wins_at_mirror(g, x, g.first[x], c);
    }
    if can_win(g, c) {
        let x = choose|x: int| wins_now(g, x, c);
        assert(wins_now(m, g.width - 1 - x, c));
    }
    if can_win(m, c) {
        let u = choose|u: int| wins_now(m, u, c);
        assert(wins_now(g, g.width - 1 - u, c) == wins_now(m, g.width - 1 - (g.width - 1 - u), c));
        assert(wins_now(g, g.width - 1 - u, c));
    }
}

/// A position and its mirror image have the same value.
pub proof fn lemma_negamax_mirror(g: Grid, c: Colors, d: int)
    requires
        g.wf(),
        is_side(c),
    ensures
        negamax(g.mirror(), c, d) == negamax(g, c, d),
    decreases g.free(), 1int,
{
    let m = g.mirror();
    g.lemma_mirror_wf();
    lemma_can_win_mirror(g, c);
    if !can_win(g, c) && d != g.maxdepth() {
        g.lemma_mirror_mirror();
        lemma_best_reply_mirror(g, c, d);
        lemma_best_reply_mirror(m, c, d);
    }
}

/// The best reply in the mirror image is not worse than the best reply in the
/// grid, provided that mirror images one stone further have equal values.
proof fn lemma_best_reply_mirror(g: Grid, c: Colors, d: int)
    requires
        g.wf(),
        is_side(c),
    ensures
        best_reply(g, c, d, g.width as int) <= best_reply(g.mirror(), c, d, g.width as int),
    decreases g.free(), 0int,
{
    let m = g.mirror();
    let w = g.width as int;
    g.lemma_mirror_wf();
    lemma_best_reply_attained(g, c, d, w);
    lemma_best_reply_range(m, c, d, w);
    if best_reply(g, c, d, w) != VALMIN {
        let x = choose|x: int|
            0 <= x < w && g.can_place(x) && best_reply(g, c, d, w) == #[trigger] reply(g, c, d, x);
        g.lemma_place(x, c);
        g.lemma_place_count(x, c);
        g.lemma_mirror_place(x, c);
        lemma_negamax_mirror(g.place(x, c), opponent(c), d + 1);
        assert(reply(m, c, d, w - 1 - x) == reply(g, c, d, x));
        lemma_best_reply_upper(m, c, d, w, w - 1 - x);
    }
}

/// A position and its mirror image have the same value in the game in which `c0`
/// moves at the even plies.
pub proof fn lemma_value_mirror(g: Grid, c0: Colors)
    requires
        g.wf(),
        is_side(c0),
    ensures
        value(g.mirror(), c0) == value(g, c0),
{
    g.lemma_mirror_wf();
    lemma_negamax_mirror(g, mover(c0, g.stones()), g.stones());
}

/// The keys give one table key to two positions only where these are equal or
/// mirror images of each other.
pub open spec fn injective(k: KeyTable, w: nat, h: nat) -> bool {
    forall|g1: Grid, g2: Grid|
        #![trigger k.canon(g1), k.canon(g2)]
        playable(g1, w, h) && playable(g2, w, h) && k.canon(g1) == k.canon(g2) ==> g1 == g2 || g1
            == g2.mirror()
}

/// Keys that tell apart all positions but mirror images never give one table key
/// to two positions of different value.
pub proof fn lemma_injective_separates(k: KeyTable, w: nat, h: nat, c0: Colors)
    requires
        injective(k, w, h),
        is_side(c0),
    ensures
        separates(k, w, h, c0),
{
    assert forall|g1: Grid, g2: Grid|
        #![trigger k.canon(g1), k.canon(g2)]
        playable(g1, w, h) && playable(g2, w, h) && k.canon(g1) == k.canon(g2) implies value(
        g1,
        c0,
    ) == value(g2, c0) by {
        if g1 != g2 {
            lemma_value_mirror(g2, c0);
        }
    }
}

/// The same within a set of positions: keys that give one table key to two
/// positions of the set only where these are equal or mirror images of each other
/// never give one table key to two positions of the set of different value.
pub open spec fn injective_in(k: KeyTable, w: nat, h: nat, zone: Set<Grid>) -> bool {
    forall|g1: Grid, g2: Grid|
        #![trigger k.canon(g1), k.canon(g2)]
        zone.contains(g1) && zone.contains(g2) && playable(g1, w, h) && playable(g2, w, h)
            && k.canon(g1) == k.canon(g2) ==> g1 == g2 || g1 == g2.mirror()
}

/// Keys that are injective within a set of positions separate its positions.
pub proof fn lemma_injective_separates_in(k: KeyTable, w: nat, h: nat, zone: Set<Grid>, c0: Colors)
    requires
        injective_in(k, w, h, zone),
        is_side(c0),
    ensures
        separates_in(k, w, h, zone, c0),
{
    assert forall|g1: Grid, g2: Grid|
        #![trigger k.canon(g1), k.canon(g2)]
        zone.contains(g1) && zone.contains(g2) && playable(g1, w, h) && playable(g2, w, h)
            && k.canon(g1) == k.canon(g2) implies value(g1, c0) == value(g2, c0) by {
        if g1 != g2 {
            lemma_value_mirror(g2, c0);
        }
    }
}

} // verus!
