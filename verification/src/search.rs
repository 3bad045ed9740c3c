//! The search: negamax with alpha-beta pruning over one board that is mutated in
//! place, with a transposition table keyed by the position's signature.
//!
//! `outcome` says what a call returns and leaves in the table for every input,
//! step by step, since collisions of signatures make the result depend on the
//! whole history of the table. What `outcome` has to do with the value of the
//! position is proved in `correct`.

use vstd::prelude::*;
use crate::board::{Board, Grid};
use crate::correct::{
    lemma_outcome, lemma_reached, lemma_vacant_sound, reached, reliable_in, separates_in, truthful,
};
use crate::game::{can_win, is_side, lemma_negamax_range, mover, negamax, playable, wins_now};
use crate::hash::{compute_hash, min_sig, KeyTable, Keys};
use crate::order::{ind, order};
use crate::prune::{cutoff, glance, narrowed, winning_move, Glance};
use crate::table::{bump, retrieve, store, HTable, HashElem, MAXBITS};
use crate::{Colors, Depth, Sigs, Vals, VALMAX, VALMIN};
use vstd::arithmetic::power2::{lemma_pow2_pos, pow2};

verus! {

/// What one call of the search is asked: the window, the side to move, the ply,
/// and the two signatures of the position.
#[derive(Clone, Copy, Debug)]
pub struct Args {
    pub alpha: Vals,
    pub beta: Vals,
    pub color: Colors,
    pub depth: Depth,
    /// Signature of the position.
    pub hv: Sigs,
    /// Signature of the mirror image of the position.
    pub hv2: Sigs,
}

/// What a search carries from call to call: the table entries and the node count.
pub struct Memo {
    pub slots: Seq<HashElem>,
    pub nodes: u64,
}

/// What a call hands back: the score and the memory it leaves.
pub struct Outcome {
    pub score: Vals,
    pub memo: Memo,
}

/// The state of the loop over the replies: the best score so far, the raised
/// lower end of the window, and the memory.
pub struct Scan {
    pub best: Vals,
    pub alpha: Vals,
    pub memo: Memo,
}

impl HTable {
    pub open spec fn memo(&self) -> Memo {
        Memo { slots: self@, nodes: self.nodes }
    }
}

/// The slot of a signature in a table with these entries.
pub open spec fn slot_of(slots: Seq<HashElem>, sig: Sigs) -> int {
    sig as int % slots.len() as int
}

/// The result of a call that is settled without searching any reply: by the table
/// probe, by a winning move of the side to move (1), or at the last ply (0).
pub open spec fn settled(g: Grid, probe: Option<(Vals, Vals)>, args: Args) -> Option<Vals> {
    match cutoff(probe, args.alpha, args.beta) {
        Some(v) => Some(v),
        None => if can_win(g, args.color) {
            Some(1)
        } else if args.depth == g.maxdepth() {
            Some(0)
        } else {
            None
        },
    }
}

/// What is asked of the search of the position after a stone went into column `x`:
/// the negated and swapped window, the other side, the next ply, and the
/// signatures with the stone's keys toggled.
pub open spec fn child_args(args: Args, g: Grid, k: KeyTable, alpha: Vals, beta: Vals, x: int) -> Args {
    let pair = k.toggled(args.hv, args.hv2, args.color, x, g.first[x]);
    Args {
        alpha: (-beta) as Vals,
        beta: (-alpha) as Vals,
        color: (-args.color) as Colors,
        depth: (args.depth + 1) as Depth,
        hv: pair.0,
        hv2: pair.1,
    }
}

/// What the search returns and leaves behind. Every call counts one node and
/// probes the slot of the smaller signature. A call that is `settled` returns
/// that result and stores nothing. Any other call scans the replies in the window
/// narrowed by the probe, and offers the best score to the probed slot, with the
/// window it was asked and the priority of its ply.
pub open spec fn outcome(args: Args, g: Grid, k: KeyTable, m: Memo) -> Outcome
    decreases g.free(), 1int, 0int,
{
    let entered = Memo { nodes: bump(m.nodes), ..m };
    let key = min_sig(args.hv, args.hv2);
    let slot = slot_of(m.slots, key);
    let probe = m.slots[slot].bounds_for(key);
    match settled(g, probe, args) {
        Some(v) => Outcome { score: v, memo: entered },
        None => {
            let window = narrowed(probe, args.alpha, args.beta);
            let end = scan(
                args,
                g,
                k,
                window.1,
                0,
                Scan { best: VALMIN, alpha: window.0, memo: entered },
            );
            let prio = (g.maxdepth() + 2 - args.depth) as Depth;
            let entry = end.memo.slots[slot].stored(key, args.alpha, args.beta, end.best, prio);
            Outcome {
                score: end.best,
                memo: Memo { slots: end.memo.slots.update(slot, entry), ..end.memo },
            }
        },
    }
}

/// The loop over the replies from position `ix` of the move order on. A column
/// without a free row is passed over. Else the position after the move is searched
/// with the window `(-beta, -s.alpha)`; its negated score raises the best score
/// and the lower end of the window; and the loop ends as soon as that end reaches
/// `beta`.
pub open spec fn scan(args: Args, g: Grid, k: KeyTable, beta: Vals, ix: int, s: Scan) -> Scan
    decreases g.free(), 0int, g.width - ix,
{
    if ix < 0 || ix >= g.width || !g.wf() {
        s
    } else {
        let x = order(g.width as int, ix);
        if g.can_place(x) {
            proof {
                g.lemma_place_count(x, args.color);
            }
            let out = outcome(
                child_args(args, g, k, s.alpha, beta, x),
                g.place(x, args.color),
                k,
                s.memo,
            );
            let q = (-out.score) as Vals;
            let best = if q > s.best {
                q
            } else {
                s.best
            };
            let alpha = if best > s.alpha {
                best
            } else {
                s.alpha
            };
            let next = Scan { best, alpha, memo: out.memo };
            if alpha >= beta {
                next
            } else {
                scan(args, g, k, beta, ix + 1, next)
            }
        } else {
            scan(args, g, k, beta, ix + 1, s)
        }
    }
}

/// The arguments describe the position: the ply is the number of stones, a cell is
/// still free, both signatures are those of the grid, and the window is not empty.
pub open spec fn faithful(args: Args, g: Grid, k: KeyTable) -> bool {
    &&& playable(g, g.width, g.height)
    &&& args.depth == g.stones()
    &&& args.hv == k.sig(g)
    &&& args.hv2 == k.sig2(g)
    &&& args.alpha < args.beta
}

/// Searches the position on `tab`, in which `args.color` is to move at ply
/// `args.depth`, with the window `(args.alpha, args.beta)`, and returns a score
/// seen from the side to move.
///
/// The board is handed back as it was. The score, the table and the node count
/// are those of `outcome`. Where the call is reliable with respect to a set of
/// positions, such as those that the game can reach from this one, the table
/// stays sound for the set and the score tells the negamax value of the position:
/// exactly if it lies inside the window, as an upper bound if it is at or below
/// `alpha`, as a lower bound if it is at or above `beta`.
pub fn ab2(args: Args, tab: &mut Board, keys: &Keys, hashes: &mut HTable) -> (ret: Vals)
    requires
        old(tab)@.wf(),
        keys@.fits(old(tab)@),
        old(hashes).wf(),
        old(hashes).ranged(),
        old(hashes).maxdepth == old(tab)@.maxdepth(),
        is_side(args.color),
        VALMIN <= args.alpha,
        VALMIN <= args.beta,
        args.depth <= old(tab)@.stones(),
    ensures
        final(tab)@ == old(tab)@,
        final(hashes).wf(),
        final(hashes).ranged(),
        final(hashes).nb_bits == old(hashes).nb_bits,
        final(hashes).mask == old(hashes).mask,
        final(hashes).maxdepth == old(hashes).maxdepth,
        VALMIN <= ret,
        (Outcome { score: ret, memo: final(hashes).memo() }) == outcome(
            args,
            old(tab)@,
            keys@,
            old(hashes).memo(),
        ),
        forall|zone: Set<Grid>| #[trigger]
            reliable_in(args, old(tab)@, keys@, old(hashes)@, zone) ==> truthful(
                ret,
                final(hashes)@,
                args,
                old(tab)@,
                keys@,
                zone,
            ),
    decreases old(tab)@.free(),
{
    let ghost g0 = tab@;
    let ghost m0 = hashes.memo();
    proof {
        g0.lemma_stones_range();
        lemma_pow2_pos(hashes.nb_bits as nat);
        assert forall|zone: Set<Grid>| #[trigger]
            reliable_in(args, g0, keys@, m0.slots, zone) implies truthful(
            outcome(args, g0, keys@, m0).score,
            outcome(args, g0, keys@, m0).memo.slots,
            args,
            g0,
            keys@,
            zone,
        ) by {
            lemma_outcome(args, g0, keys@, m0, zone);
        }
    }
    if hashes.nodes < u64::MAX {
        hashes.nodes = hashes.nodes + 1;
    }
    let ghost entered = hashes.memo();
    let key: Sigs = if args.hv <= args.hv2 {
        args.hv
    } else {
        args.hv2
    };
    let probe = retrieve(key, hashes);
    let ghost slot = hashes.slot(key);
    assert(hashes@[slot].ranged());
    let (a1, b): (Vals, Vals) = match glance(probe, args.alpha, args.beta) {
        Glance::Settled(r) => {
            return r;
        },
        Glance::Open(a, b) => (a, b),
    };
    if winning_move(tab, args.color) {
        return 1;
    }
    if args.depth == hashes.maxdepth {
        return 0;
    }
    assert(settled(g0, probe, args) is None);
    let mut a: Vals = a1;
    let mut g: Vals = VALMIN;
    let mut cut: bool = false;
    let ghost target = scan(args, g0, keys@, b, 0, Scan { best: VALMIN, alpha: a1, memo: entered });
    let mut ix: usize = 0;
    while ix < tab.width && !cut
        invariant
            tab@ == g0,
            g0 == old(tab)@,
            g0.wf(),
            keys@.fits(g0),
            is_side(args.color),
            hashes.wf(),
            hashes.ranged(),
            hashes.maxdepth == g0.maxdepth(),
            hashes.nb_bits == old(hashes).nb_bits,
            hashes.mask == old(hashes).mask,
            hashes@.len() == m0.slots.len(),
            args.depth <= g0.stones(),
            args.depth != g0.maxdepth(),
            ix <= tab.width,
            VALMIN <= g,
            VALMIN <= a,
            VALMIN <= b,
            target == if cut {
                Scan { best: g, alpha: a, memo: hashes.memo() }
            } else {
                scan(args, g0, keys@, b, ix as int, Scan { best: g, alpha: a, memo: hashes.memo() })
            },
        decreases tab.width - ix,
    {
        let x: usize = ind(tab.width, ix);
        let y: usize = tab.first[x];
        assert(0 <= g0.first[x as int] <= g0.height);
        if y < tab.height {
            let (hv, hv2) = keys.toggle(args.hv, args.hv2, args.color, x, y);
            proof {
                g0.lemma_place(x as int, args.color);
                g0.lemma_place_count(x as int, args.color);
                g0.lemma_place_remove(x as int, args.color);
                g0.lemma_stones_range();
            }
            tab.place(x, args.color);
            let args2 = Args {
                alpha: -b,
                beta: -a,
                color: -args.color,
                depth: args.depth + 1,
                hv,
                hv2,
            };
            proof {
                tab@.lemma_stones_range();
                assert(0 <= tab@.free() < g0.free());
                assert(args2 == child_args(args, g0, keys@, a, b, x as int));
            }
            let r: Vals = ab2(args2, tab, keys, hashes);
            let q: Vals = -r;
            if q > g {
                g = q;
            }
            tab.remove(x);
            if g > a {
                a = g;
            }
            if a >= b {
                cut = true;
            }
        }
        ix = ix + 1;
    }
    store(key, args.alpha, args.beta, g, args.depth, hashes);
    g
}

/// The ply at which a position is searched: its number of stones, or the last ply
/// where the board is full.
pub open spec fn ply(g: Grid) -> int {
    if g.stones() <= g.maxdepth() {
        g.stones()
    } else {
        g.maxdepth()
    }
}

/// What `solve` asks of the search: the widest window, the ply of the position,
/// and the signatures computed from scratch.
pub open spec fn root_args(g: Grid, color: Colors, k: KeyTable) -> Args {
    Args {
        alpha: VALMIN,
        beta: VALMAX,
        color,
        depth: ply(g) as Depth,
        hv: k.sig(g),
        hv2: k.sig2(g),
    }
}

/// The memory of a search that has not begun: `2^nb_bits` vacant slots, no node.
pub open spec fn fresh(nb_bits: u8) -> Memo {
    Memo { slots: Seq::new(pow2(nb_bits as nat), |i: int| HashElem::vacant()), nodes: 0 }
}

/// Solves the position on `tab` with `color` to move: searches it with the widest
/// window and a fresh table of `2^nb_bits` slots, and returns the score seen from
/// `color`. The signatures are computed from scratch.
///
/// The score is that of `outcome`, a function of the arguments alone. Where the
/// keys separate the positions that the game can reach from this one, or the board
/// is full, the score is the negamax value of the position: -1, 0 or 1.
pub fn solve(tab: &mut Board, color: Colors, keys: &Keys, nb_bits: u8) -> (ret: Vals)
    requires
        old(tab)@.wf(),
        keys@.fits(old(tab)@),
        is_side(color),
        nb_bits <= MAXBITS,
    ensures
        final(tab)@ == old(tab)@,
        VALMIN <= ret,
        ret == outcome(root_args(old(tab)@, color, keys@), old(tab)@, keys@, fresh(nb_bits)).score,
        old(tab)@.stones() > old(tab)@.maxdepth() || separates_in(
            keys@,
            old(tab)@.width,
            old(tab)@.height,
            reached(old(tab)@, mover(color, ply(old(tab)@))),
            mover(color, ply(old(tab)@)),
        ) ==> ret == negamax(old(tab)@, color, ply(old(tab)@)) && -1 <= ret <= 1,
{
    let ghost g0 = tab@;
    proof {
        g0.lemma_stones_range();
        g0.lemma_mirror_wf();
    }
    let maxdepth: Depth = tab.maxdepth();
    let stones: usize = tab.stones();
    let depth: Depth = if stones <= maxdepth as usize {
        stones as Depth
    } else {
        maxdepth
    };
    let mut hashes: HTable = HTable::new(nb_bits, maxdepth).unwrap();
    let hv: Sigs = compute_hash(tab, keys);
    let mut image: Board = tab.mirrored();
    let hv2: Sigs = compute_hash(&mut image, keys);
    let args = Args { alpha: VALMIN, beta: VALMAX, color, depth, hv, hv2 };
    let ghost t0 = hashes@;
    let ghost full = stones > maxdepth;
    let ghost c0 = mover(color, depth as int);
    let ghost zone = reached(g0, c0);
    proof {
        assert(hashes.memo().slots =~= fresh(nb_bits).slots);
        lemma_negamax_range(g0, color, depth as int);
        let key = min_sig(hv, hv2);
        hashes.lemma_slot_range(key);
        let probe = t0[hashes.slot(key)].bounds_for(key);
        if full {
            assert forall|x: int| !wins_now(g0, x, color) by {
                if g0.can_place(x) {
                    g0.lemma_free_column(x);
                }
            }
            assert(!can_win(g0, color));
            assert(negamax(g0, color, depth as int) == 0);
            assert(cutoff(probe, args.alpha, args.beta) is None);
            assert(settled(g0, probe, args) == Some(0i8));
        } else if separates_in(keys@, g0.width, g0.height, zone, c0) {
            lemma_reached(g0, c0);
            lemma_vacant_sound(t0, keys@, g0.width, g0.height, zone, c0);
            assert(faithful(args, g0, keys@));
            assert(reliable_in(args, g0, keys@, t0, zone));
        }
    }
    let ret: Vals = ab2(args, tab, keys, &mut hashes);
    proof {
        if !full && separates_in(keys@, g0.width, g0.height, zone, c0) {
            assert(truthful(ret, hashes@, args, g0, keys@, zone));
        }
    }
    ret
}

} // verus!
