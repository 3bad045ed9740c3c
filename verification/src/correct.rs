//! Why the search tells the truth: where the keys keep apart the positions that a
//! game can reach, and the table holds no wrong bound for them, the score found
//! tells the negamax value and the table still holds no wrong bound.
//!
//! The proof is about `outcome`, which the search is proved to compute, and it is
//! made for any set of positions that is closed under moves: the positions that
//! follow one position, or all the positions of a board.

use vstd::prelude::*;
use crate::board::Grid;
use crate::game::{
    best_reply, is_side, lemma_negamax_range, lemma_negamax_small, mover, negamax, opponent,
    playable, reply, value,
};
use crate::hash::{min_sig, KeyTable};
use crate::order::{lemma_order_range, order};
use crate::prune::{
    lemma_glance, lemma_seen_end, lemma_seen_skip, lemma_seen_start, lemma_seen_step,
    lemma_window, narrowed, seen, tells,
};
use crate::search::{
    child_args, faithful, outcome, scan, settled, slot_of, Args, Memo, Outcome, Scan,
};
use crate::symmetry::lemma_can_win_mirror;
use crate::table::{bump, ranged_all, HashElem};
use crate::{Colors, Depth, Vals, VALMAX, VALMIN};

verus! {

/// The position after the side to move dropped its stone into column `x`, in the
/// game in which `c0` moves at the even plies.
pub open spec fn next(g: Grid, c0: Colors, x: int) -> Grid {
    g.place(x, mover(c0, g.stones()))
}

/// The position after the two sides, taking turns from `root` on, dropped their
/// stones into the columns `cols`.
pub open spec fn after(root: Grid, c0: Colors, cols: Seq<int>) -> Grid
    decreases cols.len(),
{
    if cols.len() == 0 {
        root
    } else {
        next(after(root, c0, cols.drop_last()), c0, cols.last())
    }
}

/// Every stone went into a column that had a free row at that time.
pub open spec fn lawful(root: Grid, c0: Colors, cols: Seq<int>) -> bool
    decreases cols.len(),
{
    cols.len() == 0 || (lawful(root, c0, cols.drop_last()) && after(
        root,
        c0,
        cols.drop_last(),
    ).can_place(cols.last()))
}

/// The positions that the game can reach from `root`: `root` itself and every
/// position that follows it by moves of the two sides in turn.
pub open spec fn reached(root: Grid, c0: Colors) -> Set<Grid> {
    Set::new(|g: Grid| exists|cols: Seq<int>| lawful(root, c0, cols) && after(root, c0, cols) == g)
}

/// Every move made in a position of the set leads to a position of the set.
pub open spec fn closed(zone: Set<Grid>, c0: Colors) -> bool {
    forall|g: Grid, x: int|
        zone.contains(g) && g.wf() && g.can_place(x) ==> zone.contains(#[trigger] next(g, c0, x))
}

/// The positions reached from `root` hold `root` and are closed under moves.
pub proof fn lemma_reached(root: Grid, c0: Colors)
    ensures
        reached(root, c0).contains(root),
        closed(reached(root, c0), c0),
{
    let none = Seq::<int>::empty();
    assert(lawful(root, c0, none) && after(root, c0, none) == root);
    assert forall|g: Grid, x: int|
        reached(root, c0).contains(g) && g.wf() && g.can_place(x) implies reached(
        root,
        c0,
    ).contains(#[trigger] next(g, c0, x)) by {
        let cols = choose|cols: Seq<int>| lawful(root, c0, cols) && after(root, c0, cols) == g;
        let more = cols.push(x);
        assert(more.drop_last() =~= cols);
        assert(lawful(root, c0, more) && after(root, c0, more) == next(g, c0, x));
    }
}

/// The keys never give one table key to two positions of different value, among
/// all the positions of a `w` by `h` board with a free cell, in the game in which
/// `c0` moves at the even plies. Keys that give one table key only to a position
/// and its mirror image do so, by `symmetry::lemma_injective_separates`.
pub open spec fn separates(k: KeyTable, w: nat, h: nat, c0: Colors) -> bool {
    forall|g1: Grid, g2: Grid|
        #![trigger k.canon(g1), k.canon(g2)]
        playable(g1, w, h) && playable(g2, w, h) && k.canon(g1) == k.canon(g2) ==> value(g1, c0)
            == value(g2, c0)
}

/// The same, asked only of the positions of `zone`.
pub open spec fn separates_in(k: KeyTable, w: nat, h: nat, zone: Set<Grid>, c0: Colors) -> bool {
    forall|g1: Grid, g2: Grid|
        #![trigger k.canon(g1), k.canon(g2)]
        zone.contains(g1) && zone.contains(g2) && playable(g1, w, h) && playable(g2, w, h)
            && k.canon(g1) == k.canon(g2) ==> value(g1, c0) == value(g2, c0)
}

/// No entry of the table contradicts the value of a position of `zone` that has
/// its signature: the stored lower bound is not above that value, and the stored
/// upper bound is not below it.
pub open spec fn sound_in(
    t: Seq<HashElem>,
    k: KeyTable,
    w: nat,
    h: nat,
    zone: Set<Grid>,
    c0: Colors,
) -> bool {
    forall|i: int, g: Grid|
        #![trigger t[i], k.canon(g)]
        0 <= i < t.len() && zone.contains(g) && playable(g, w, h) && t[i].sig == k.canon(g)
            ==> t[i].v_inf <= value(g, c0) <= t[i].v_sup
}

/// The conditions under which the search result is tied to the value of the
/// position, with respect to a set of positions: the arguments are faithful, the
/// set holds the position and is closed under moves, the keys separate its
/// positions, and the table is sound for them.
pub open spec fn reliable_in(
    args: Args,
    g: Grid,
    k: KeyTable,
    t: Seq<HashElem>,
    zone: Set<Grid>,
) -> bool {
    &&& faithful(args, g, k)
    &&& zone.contains(g)
    &&& closed(zone, mover(args.color, args.depth as int))
    &&& separates_in(k, g.width, g.height, zone, mover(args.color, args.depth as int))
    &&& sound_in(t, k, g.width, g.height, zone, mover(args.color, args.depth as int))
}

/// Keys that separate all the positions of a board separate those of any set.
pub proof fn lemma_separates_in(k: KeyTable, w: nat, h: nat, zone: Set<Grid>, c0: Colors)
    requires
        separates(k, w, h, c0),
    ensures
        separates_in(k, w, h, zone, c0),
{
}

/// A table whose entries all have the widest bounds is sound for any set.
pub proof fn lemma_vacant_sound(
    t: Seq<HashElem>,
    k: KeyTable,
    w: nat,
    h: nat,
    zone: Set<Grid>,
    c0: Colors,
)
    requires
        forall|i: int| 0 <= i < t.len() ==> t[i] == HashElem::vacant(),
    ensures
        sound_in(t, k, w, h, zone, c0),
        ranged_all(t),
        prio_below(t, 0),
{
    assert forall|i: int, g: Grid|
        #![trigger t[i], k.canon(g)]
        0 <= i < t.len() && playable(g, w, h) && t[i].sig == k.canon(g) implies t[i].v_inf
        <= value(g, c0) <= t[i].v_sup by {
        lemma_negamax_range(g, mover(c0, g.stones()), g.stones());
    }
}

/// Replacing one entry by an entry that is sound for the position searched keeps
/// the table sound.
proof fn lemma_sound_update(
    t: Seq<HashElem>,
    k: KeyTable,
    c0: Colors,
    g0: Grid,
    zone: Set<Grid>,
    i: int,
    e: HashElem,
)
    requires
        sound_in(t, k, g0.width, g0.height, zone, c0),
        separates_in(k, g0.width, g0.height, zone, c0),
        playable(g0, g0.width, g0.height),
        zone.contains(g0),
        0 <= i < t.len(),
        e == t[i] || (e.sig == k.canon(g0) && e.v_inf <= value(g0, c0) <= e.v_sup),
    ensures
        sound_in(t.update(i, e), k, g0.width, g0.height, zone, c0),
{
    let t2 = t.update(i, e);
    assert forall|j: int, g: Grid|
        #![trigger t2[j], k.canon(g)]
        0 <= j < t2.len() && zone.contains(g) && playable(g, g0.width, g0.height) && t2[j].sig
            == k.canon(g) implies t2[j].v_inf <= value(g, c0) <= t2[j].v_sup by {
        if j == i && e != t[i] {
            assert(k.canon(g) == k.canon(g0));
        } else {
            assert(t2[j] == t[j]);
        }
    }
}

/// The side that moves at the even plies is the same seen from a position and from
/// the position one move later; and the value of the position after a move is the
/// negamax value for the opponent one ply deeper.
proof fn lemma_child(g: Grid, c: Colors, d: int, x: int)
    requires
        g.wf(),
        g.can_place(x),
        is_side(c),
        d == g.stones(),
    ensures
        mover(opponent(c), d + 1) == mover(c, d),
        mover(mover(c, d), d) == c,
        value(g, mover(c, d)) == negamax(g, c, d),
        -value(g.place(x, c), mover(c, d)) == reply(g, c, d, x),
        next(g, mover(c, d), x) == g.place(x, c),
{
    g.lemma_place_count(x, c);
    g.lemma_stones_range();
}

/// What is proved of an outcome.
pub open spec fn truthful(
    score: Vals,
    slots: Seq<HashElem>,
    args: Args,
    g: Grid,
    k: KeyTable,
    zone: Set<Grid>,
) -> bool {
    &&& ranged_all(slots)
    &&& VALMIN <= score
    &&& sound_in(slots, k, g.width, g.height, zone, mover(args.color, args.depth as int))
    &&& tells(
        score as int,
        args.alpha as int,
        args.beta as int,
        negamax(g, args.color, args.depth as int),
    )
    &&& -1 <= negamax(g, args.color, args.depth as int) <= 1
}

/// The search tells the truth: where a call is reliable with respect to a set of
/// positions, its score tells the negamax value of the position, which is -1, 0
/// or 1, and the table it leaves is sound for the set.
pub proof fn lemma_outcome(args: Args, g: Grid, k: KeyTable, m: Memo, zone: Set<Grid>)
    requires
        k.fits(g),
        is_side(args.color),
        VALMIN <= args.alpha,
        m.slots.len() > 0,
        ranged_all(m.slots),
        reliable_in(args, g, k, m.slots, zone),
    ensures
        outcome(args, g, k, m).memo.slots.len() == m.slots.len(),
        truthful(outcome(args, g, k, m).score, outcome(args, g, k, m).memo.slots, args, g, k, zone),
    decreases g.free(), 1int, 0int,
{
    let d = args.depth as int;
    let c0 = mover(args.color, d);
    let v = negamax(g, args.color, d);
    g.lemma_stones_range();
    lemma_negamax_range(g, args.color, d);
    lemma_negamax_small(g, args.color, d);
    let key = min_sig(args.hv, args.hv2);
    let slot = slot_of(m.slots, key);
    let probe = m.slots[slot].bounds_for(key);
    let entered = Memo { nodes: bump(m.nodes), ..m };
    assert(key == k.canon(g));
    assert(mover(c0, d) == args.color);
    assert(value(g, c0) == v);
    assert(m.slots[slot].ranged());
    assert(m.slots[slot].sig == k.canon(g) ==> m.slots[slot].v_inf <= value(g, c0)
        <= m.slots[slot].v_sup);
    lemma_glance(probe, args.alpha, args.beta, v);
    if settled(g, probe, args) is None {
        let a1 = narrowed(probe, args.alpha, args.beta).0;
        let b = narrowed(probe, args.alpha, args.beta).1;
        let start = Scan { best: VALMIN, alpha: a1, memo: entered };
        lemma_seen_start(g, args.color, d, a1 as int, b as int);
        lemma_scan(args, g, k, b, 0, start, a1, zone);
        let end = scan(args, g, k, b, 0, start);
        assert(v == best_reply(g, args.color, d, g.width as int));
        lemma_window(end.best as int, args.alpha as int, args.beta as int, a1 as int, b as int, v);
        let prio = (g.maxdepth() + 2 - args.depth) as Depth;
        let e = end.memo.slots[slot];
        e.lemma_stored_encloses(key, args.alpha, args.beta, end.best, prio, v);
        e.lemma_stored_other(key, args.alpha, args.beta, end.best, prio);
        lemma_sound_update(
            end.memo.slots,
            k,
            c0,
            g,
            zone,
            slot,
            e.stored(key, args.alpha, args.beta, end.best, prio),
        );
    }
}

/// The scan of the replies from position `ix` of the move order on tells the best
/// reply and leaves a sound table, if what it has seen so far is right.
proof fn lemma_scan(args: Args, g: Grid, k: KeyTable, b: Vals, ix: int, s: Scan, a1: Vals, zone: Set<Grid>)
    requires
        k.fits(g),
        is_side(args.color),
        faithful(args, g, k),
        zone.contains(g),
        closed(zone, mover(args.color, args.depth as int)),
        separates_in(k, g.width, g.height, zone, mover(args.color, args.depth as int)),
        args.depth < g.maxdepth(),
        0 <= ix <= g.width,
        VALMIN <= a1 < b,
        VALMIN <= s.best,
        s.alpha == if s.best > a1 {
            s.best
        } else {
            a1
        },
        s.alpha < b,
        s.memo.slots.len() > 0,
        ranged_all(s.memo.slots),
        sound_in(s.memo.slots, k, g.width, g.height, zone, mover(args.color, args.depth as int)),
        seen(g, args.color, args.depth as int, ix, s.best as int, a1 as int, b as int),
    ensures
        ({
            let end = scan(args, g, k, b, ix, s);
            &&& end.memo.slots.len() == s.memo.slots.len()
            &&& ranged_all(end.memo.slots)
            &&& VALMIN <= end.best
            &&& sound_in(
                end.memo.slots,
                k,
                g.width,
                g.height,
                zone,
                mover(args.color, args.depth as int),
            )
            &&& tells(
                end.best as int,
                a1 as int,
                b as int,
                best_reply(g, args.color, args.depth as int, g.width as int),
            )
        }),
    decreases g.free(), 0int, g.width - ix,
{
    let d = args.depth as int;
    let c = args.color;
    let c0 = mover(c, d);
    let w = g.width as int;
    if ix >= w {
        lemma_seen_end(g, c, d, ix, s.best as int, a1 as int, b as int);
    } else {
        let x = order(w, ix);
        lemma_order_range(w, ix);
        if g.can_place(x) {
            g.lemma_place(x, c);
            g.lemma_place_count(x, c);
            g.lemma_stones_range();
            k.lemma_sig_place(g, x, c);
            k.lemma_sig2_place(g, x, c);
            lemma_child(g, c, d, x);
            let ca = child_args(args, g, k, s.alpha, b, x);
            let child = g.place(x, c);
            assert(zone.contains(next(g, c0, x)));
            assert(ca.color == opponent(c));
            assert(mover(ca.color, ca.depth as int) == c0);
            assert(faithful(ca, child, k));
            lemma_outcome(ca, child, k, s.memo, zone);
            let out = outcome(ca, child, k, s.memo);
            lemma_seen_step(g, c, d, ix, s.best as int, a1 as int, b as int, out.score as int);
            let q = (-out.score) as Vals;
            let best = if q > s.best {
                q
            } else {
                s.best
            };
            let alpha = if best > s.alpha {
                best
            } else {
                s.alpha
            };
            let then = Scan { best, alpha, memo: out.memo };
            if alpha >= b {
                lemma_seen_end(g, c, d, ix + 1, best as int, a1 as int, b as int);
            } else {
                lemma_scan(args, g, k, b, ix + 1, then, a1, zone);
            }
        } else {
            lemma_seen_skip(g, c, d, ix, s.best as int, a1 as int, b as int);
            lemma_scan(args, g, k, b, ix + 1, s, a1, zone);
        }
    }
}

/// No entry has a retention priority above `p`.
pub open spec fn prio_below(t: Seq<HashElem>, p: int) -> bool {
    forall|i: int| 0 <= i < t.len() ==> (#[trigger] t[i]).d <= p
}

/// A search raises no retention priority above that of its own ply: the replies
/// are searched one ply deeper, and deeper plies have lower priorities.
pub proof fn lemma_outcome_prio(args: Args, g: Grid, k: KeyTable, m: Memo, p: int)
    requires
        g.wf(),
        is_side(args.color),
        args.depth == g.stones(),
        args.depth <= g.maxdepth(),
        m.slots.len() > 0,
        prio_below(m.slots, p),
        g.maxdepth() + 2 - args.depth <= p,
    ensures
        outcome(args, g, k, m).memo.slots.len() == m.slots.len(),
        prio_below(outcome(args, g, k, m).memo.slots, p),
    decreases g.free(), 1int, 0int,
{
    g.lemma_stones_range();
    let key = min_sig(args.hv, args.hv2);
    let slot = slot_of(m.slots, key);
    let probe = m.slots[slot].bounds_for(key);
    if settled(g, probe, args) is None {
        let a1 = narrowed(probe, args.alpha, args.beta).0;
        let b = narrowed(probe, args.alpha, args.beta).1;
        let start = Scan { best: VALMIN, alpha: a1, memo: Memo { nodes: bump(m.nodes), ..m } };
        lemma_scan_prio(args, g, k, b, 0, start, p);
    }
}

proof fn lemma_scan_prio(args: Args, g: Grid, k: KeyTable, b: Vals, ix: int, s: Scan, p: int)
    requires
        g.wf(),
        is_side(args.color),
        args.depth == g.stones(),
        args.depth < g.maxdepth(),
        0 <= ix,
        s.memo.slots.len() > 0,
        prio_below(s.memo.slots, p),
        g.maxdepth() + 1 - args.depth <= p,
    ensures
        scan(args, g, k, b, ix, s).memo.slots.len() == s.memo.slots.len(),
        prio_below(scan(args, g, k, b, ix, s).memo.slots, p),
    decreases g.free(), 0int, g.width - ix,
{
    let w = g.width as int;
    g.lemma_stones_range();
    if ix < w {
        let x = order(w, ix);
        if g.can_place(x) {
            g.lemma_place(x, args.color);
            g.lemma_place_count(x, args.color);
            let ca = child_args(args, g, k, s.alpha, b, x);
            let child = g.place(x, args.color);
            lemma_outcome_prio(ca, child, k, s.memo, p);
            let out = outcome(ca, child, k, s.memo);
            let q = (-out.score) as Vals;
            let best = if q > s.best {
                q
            } else {
                s.best
            };
            let alpha = if best > s.alpha {
                best
            } else {
                s.alpha
            };
            if alpha < b {
                lemma_scan_prio(args, g, k, b, ix + 1, Scan { best, alpha, memo: out.memo }, p);
            }
        } else {
            lemma_scan_prio(args, g, k, b, ix + 1, s, p);
        }
    }
}

/// What is asked of the search of the mirror image: the same, with the two
/// signatures swapped.
pub open spec fn mirrored_args(args: Args) -> Args {
    Args { hv: args.hv2, hv2: args.hv, ..args }
}

/// After a reliable search of a position with the widest window, in a table that
/// held no priority above that of the search (as a new table does), the search of
/// the mirror image with the same table returns the same score, stores nothing
/// and counts one node: it is answered by the probe, or by the winning move or
/// the last ply that answered the first search.
pub proof fn lemma_mirror_hit(args: Args, g: Grid, k: KeyTable, m: Memo, zone: Set<Grid>)
    requires
        k.fits(g),
        is_side(args.color),
        args.alpha == VALMIN,
        args.beta == VALMAX,
        m.slots.len() > 0,
        ranged_all(m.slots),
        reliable_in(args, g, k, m.slots, zone),
        prio_below(m.slots, g.maxdepth() + 2 - args.depth),
    ensures
        outcome(mirrored_args(args), g.mirror(), k, outcome(args, g, k, m).memo) == (Outcome {
            score: outcome(args, g, k, m).score,
            memo: Memo {
                nodes: bump(outcome(args, g, k, m).memo.nodes),
                ..outcome(args, g, k, m).memo
            },
        }),
{
    let first = outcome(args, g, k, m);
    let again = mirrored_args(args);
    let key = min_sig(args.hv, args.hv2);
    let slot = slot_of(m.slots, key);
    let probe = m.slots[slot].bounds_for(key);
    let p = g.maxdepth() + 2 - args.depth;
    g.lemma_stones_range();
    g.lemma_mirror_wf();
    lemma_can_win_mirror(g, args.color);
    lemma_outcome(args, g, k, m, zone);
    assert(min_sig(again.hv, again.hv2) == key);
    assert(g.mirror().maxdepth() == g.maxdepth());
    if settled(g, probe, args) is None {
        let a1 = narrowed(probe, args.alpha, args.beta).0;
        let b = narrowed(probe, args.alpha, args.beta).1;
        let start = Scan { best: VALMIN, alpha: a1, memo: Memo { nodes: bump(m.nodes), ..m } };
        let end = scan(args, g, k, b, 0, start);
        lemma_scan_prio(args, g, k, b, 0, start, p);
        let e = end.memo.slots[slot];
        assert(e.d <= p);
        assert(VALMIN < first.score < VALMAX);
        let left = first.memo.slots[slot];
        assert(left.sig == key && left.v_inf == first.score && left.v_sup == first.score);
        assert(first.memo.slots[slot_of(first.memo.slots, key)].bounds_for(key) == Some(
            (first.score, first.score),
        ));
    } else {
        assert(first.memo.slots == m.slots);
    }
}

} // verus!
