//! A transposition table that several searches can use at once: every slot has a
//! lock of its own, held for one read or for one read-modify-write.
//!
//! What another search stores cannot be foreseen, so nothing is stated of the
//! content of a slot but the rule that every stored entry obeys: its bounds
//! enclose the value of the position that has its signature. The rule is bound to
//! the keys and to the side that moves first, which the table therefore holds.

use vstd::prelude::*;
use vstd::rwlock::{RwLock, RwLockPredicate};
use crate::board::{Board, Grid, MAXCELLS};
use crate::game::{
    best_reply, can_win, is_side, lemma_negamax_range, lemma_negamax_small, mover, negamax,
    playable, value, wins_now,
};
use crate::hash::{compute_hash, KeyTable, Keys};
use crate::order::ind;
use crate::prune::{
    glance, lemma_glance, lemma_seen_end, lemma_seen_skip, lemma_seen_start, lemma_seen_step,
    lemma_window, seen, tells, winning_move, Glance,
};
use crate::correct::separates;
use crate::search::{faithful, ply, Args};
use crate::table::{slot_count, slot_index, HashElem, MAXBITS};
use crate::{Colors, Depth, Sigs, Vals, BLACK, VALMAX, VALMIN, WHITE};
use vstd::arithmetic::power2::pow2;
use vstd::bits::low_bits_mask;

verus! {

/// The rule of a shared table: the keys it is used with and the side that moves at
/// the even plies.
pub struct SlotRule {
    pub keys: KeyTable,
    pub first: Colors,
}

impl SlotRule {
    /// The keys never give one table key to two positions of different value.
    pub open spec fn separating(self) -> bool {
        separates(self.keys, self.keys.width, self.keys.height, self.first)
    }

    /// The bounds `lo` and `hi` enclose the value of every position that has the
    /// signature `sig`, as far as the keys separate.
    pub open spec fn admits(self, sig: Sigs, lo: Vals, hi: Vals) -> bool {
        self.separating() ==> forall|g: Grid|
            #![trigger self.keys.canon(g)]
            playable(g, self.keys.width, self.keys.height) && self.keys.canon(g) == sig ==> lo
                <= value(g, self.first) <= hi
    }
}

impl RwLockPredicate<HashElem> for SlotRule {
    /// What every entry in a slot obeys: no stored upper bound is below the value
    /// of the position with its signature, and no stored lower bound is above it.
    open spec fn inv(self, e: HashElem) -> bool {
        e.ranged() && self.admits(e.sig, e.v_inf, e.v_sup)
    }
}

/// The shared table, with the keys and the first mover it is bound to.
pub struct SharedTable {
    slots: Vec<RwLock<HashElem, SlotRule>>,
    nb_bits: u8,
    mask: Sigs,
    maxdepth: Depth,
    keys: Keys,
    first: Colors,
}

impl SharedTable {
    #[verifier::type_invariant]
    spec fn inv(&self) -> bool {
        &&& self.nb_bits <= MAXBITS
        &&& self.slots@.len() == pow2(self.nb_bits as nat)
        &&& self.mask == low_bits_mask(self.nb_bits as nat)
        &&& self.keys@.wf()
        &&& 1 <= self.keys.width
        &&& 1 <= self.keys.height
        &&& self.keys.width * self.keys.height <= MAXCELLS
        &&& self.maxdepth == self.keys.width * self.keys.height - 1
        &&& is_side(self.first)
        &&& forall|i: int|
            0 <= i < self.slots@.len() ==> (#[trigger] self.slots@[i]).pred() == (SlotRule {
                keys: self.keys@,
                first: self.first,
            })
    }

    /// The rule that the entries of this table obey.
    pub closed spec fn rule(&self) -> SlotRule {
        SlotRule { keys: self.keys@, first: self.first }
    }

    /// The number of slots.
    pub closed spec fn size(&self) -> nat {
        self.slots@.len()
    }

    /// A table of `2^nb_bits` vacant slots, bound to `keys` and to the side `first`
    /// that moves at the even plies; or `None` where `nb_bits` is above `MAXBITS`,
    /// the key tables are not rectangular, the board of the keys has no cell or
    /// more than `MAXCELLS`, or `first` is no side.
    pub fn new(nb_bits: u8, keys: Keys, first: Colors) -> (r: Option<SharedTable>)
        ensures
            r is Some <==> nb_bits <= MAXBITS && keys@.wf() && 1 <= keys.width && 1 <= keys.height
                && keys.width * keys.height <= MAXCELLS && is_side(first),
            r matches Some(t) ==> t.rule() == (SlotRule { keys: keys@, first }) && t.size() == pow2(
                nb_bits as nat,
            ),
    {
        if nb_bits > MAXBITS || !keys.is_wf() || !(first == WHITE || first == BLACK) {
            return None;
        }
        let maxdepth: Depth = match Board::new(keys.width, keys.height) {
            Some(board) => board.maxdepth(),
            None => {
                return None;
            },
        };
        let len: u64 = slot_count(nb_bits);
        let ghost rule = SlotRule { keys: keys@, first };
        proof {
            assert forall|g: Grid|
                #![trigger rule.keys.canon(g)]
                playable(g, rule.keys.width, rule.keys.height) implies VALMIN <= value(g, first)
                <= VALMAX by {
                lemma_negamax_range(g, mover(first, g.stones()), g.stones());
            }
        }
        let mut slots: Vec<RwLock<HashElem, SlotRule>> = Vec::new();
        let mut i: u64 = 0;
        while i < len
            invariant
                i <= len,
                slots@.len() == i,
                rule.inv(HashElem::vacant()),
                forall|k: int| 0 <= k < i ==> (#[trigger] slots@[k]).pred() == rule,
            decreases len - i,
        {
            slots.push(RwLock::new(HashElem::empty(), Ghost(rule)));
            i = i + 1;
        }
        Some(SharedTable { slots, nb_bits, mask: len - 1, maxdepth, keys, first })
    }

    /// The keys that the table is bound to.
    pub fn keys(&self) -> (k: &Keys)
        ensures
            k@ == self.rule().keys,
            k@.wf(),
    {
        proof {
            use_type_invariant(self);
        }
        &self.keys
    }

    /// The side that moves at the even plies.
    pub fn first(&self) -> (c: Colors)
        ensures
            c == self.rule().first,
            is_side(c),
    {
        proof {
            use_type_invariant(self);
        }
        self.first
    }

    /// The index of the slot of a signature: the signature modulo the slot count.
    fn index(&self, hv: Sigs) -> (ind: usize)
        ensures
            ind == hv as int % self.size() as int,
            ind < self.size(),
    {
        proof {
            use_type_invariant(self);
        }
        slot_index(hv, self.nb_bits, self.mask)
    }

    /// Looks a signature up under the lock of its slot: reads the entry of the slot
    /// `slot_index` and returns what `HashElem::probe` gives for it, the bounds
    /// stored there if the slot belongs to the signature.
    ///
    /// Which entry is read is not settled by the arguments: another search may have
    /// stored into the slot, or replaced its entry, at any moment before the lock
    /// was taken. So no answer is owed on any signature, and the contract states
    /// what holds of every answer: bounds that come back obey the rule.
    pub fn retrieve(&self, hv: Sigs) -> (r: Option<(Vals, Vals)>)
        ensures
            r matches Some((lo, hi)) ==> VALMIN <= lo && VALMIN <= hi && self.rule().admits(hv, lo, hi),
    {
        proof {
            use_type_invariant(self);
        }
        let ind: usize = self.index(hv);
        let handle = self.slots[ind].acquire_read();
        let data: HashElem = *handle.borrow();
        handle.release_read();
        data.probe(hv)
    }

    /// Offers the result `g` of a search with window `(alpha, beta)` at ply `depth`
    /// to the slot of the signature `hv`, under the lock of that slot; see
    /// `HashElem::stored`. The result must tell the truth about every position that
    /// has the signature, so that the entry obeys the rule.
    fn store(&self, hv: Sigs, alpha: Vals, beta: Vals, g: Vals, depth: Depth)
        requires
            VALMIN <= g,
            depth <= self.rule().keys.width * self.rule().keys.height + 1,
            self.rule().separating() ==> forall|p: Grid|
                #![trigger self.rule().keys.canon(p)]
                playable(p, self.rule().keys.width, self.rule().keys.height)
                    && self.rule().keys.canon(p) == hv ==> tells(
                    g as int,
                    alpha as int,
                    beta as int,
                    value(p, self.rule().first),
                ),
    {
        proof {
            use_type_invariant(self);
        }
        let ind: usize = self.index(hv);
        let d: Depth = self.maxdepth + 2 - depth;
        let (mut data, handle) = self.slots[ind].acquire_write();
        let ghost before = data;
        let ghost rule = self.rule();
        data.merge(hv, alpha, beta, g, d);
        proof {
            before.lemma_stored_other(hv, alpha, beta, g, d);
            if rule.separating() {
                assert forall|p: Grid|
                    #![trigger rule.keys.canon(p)]
                    playable(p, rule.keys.width, rule.keys.height) && rule.keys.canon(p)
                        == data.sig implies data.v_inf <= value(p, rule.first) <= data.v_sup by {
                    if data != before {
                        let v = value(p, rule.first);
                        lemma_negamax_range(p, mover(rule.first, p.stones()), p.stones());
                        before.lemma_stored_encloses(hv, alpha, beta, g, d, v);
                    }
                }
            }
        }
        handle.release_write(data);
    }

    /// Searches the position on `tab` as `ab2` does, with this table in place of a
    /// table of its own. The arguments must describe the position, and the side to
    /// move must be the one that the table expects at this ply.
    ///
    /// The board is handed back as it was. As far as the keys separate, the score
    /// tells the negamax value of the position, whatever other searches store in the
    /// table meanwhile. A stored pair whose lower bound is above its upper bound,
    /// which only colliding signatures can leave, is passed over.
    pub fn search(&self, args: Args, tab: &mut Board) -> (ret: Vals)
        requires
            old(tab)@.wf(),
            self.rule().keys.fits(old(tab)@),
            faithful(args, old(tab)@, self.rule().keys),
            args.color == mover(self.rule().first, args.depth as int),
            VALMIN <= args.alpha,
        ensures
            final(tab)@ == old(tab)@,
            VALMIN <= ret,
            self.rule().separating() ==> tells(
                ret as int,
                args.alpha as int,
                args.beta as int,
                negamax(old(tab)@, args.color, args.depth as int),
            ),
        decreases old(tab)@.free(),
    {
        let ghost g0 = tab@;
        let ghost rule = self.rule();
        let ghost sep = rule.separating();
        let ghost d = args.depth as int;
        let ghost v = negamax(g0, args.color, d);
        proof {
            use_type_invariant(self);
            g0.lemma_stones_range();
            lemma_negamax_range(g0, args.color, d);
            assert(value(g0, rule.first) == v);
        }
        let key: Sigs = if args.hv <= args.hv2 {
            args.hv
        } else {
            args.hv2
        };
        assert(key == rule.keys.canon(g0));
        let probe: Option<(Vals, Vals)> = match self.retrieve(key) {
            Some((v_inf, v_sup)) => if v_inf <= v_sup {
                Some((v_inf, v_sup))
            } else {
                None
            },
            None => None,
        };
        proof {
            if sep {
                lemma_glance(probe, args.alpha, args.beta, v);
            }
        }
        let (a1, b): (Vals, Vals) = match glance(probe, args.alpha, args.beta) {
            Glance::Settled(r) => {
                return r;
            },
            Glance::Open(a, b) => (a, b),
        };
        if winning_move(tab, args.color) {
            return 1;
        }
        if args.depth == self.maxdepth {
            return 0;
        }
        let keys = self.keys();
        let mut a: Vals = a1;
        let mut g: Vals = VALMIN;
        let mut cut: bool = false;
        let mut ix: usize = 0;
        proof {
            lemma_seen_start(g0, args.color, d, a1 as int, b as int);
        }
        while ix < tab.width && !cut
            invariant
                tab@ == g0,
                g0 == old(tab)@,
                g0.wf(),
                d == args.depth,
                rule == self.rule(),
                sep == rule.separating(),
                keys@ == rule.keys,
                rule.keys.fits(g0),
                is_side(args.color),
                is_side(rule.first),
                faithful(args, g0, rule.keys),
                args.color == mover(rule.first, d),
                args.depth != g0.maxdepth(),
                ix <= tab.width,
                VALMIN <= g,
                VALMIN <= a1 <= a,
                VALMIN <= b,
                a == if g > a1 { g } else { a1 },
                a1 < b,
                cut ==> a >= b,
                !cut ==> a < b,
                sep ==> seen(g0, args.color, d, ix as int, g as int, a1 as int, b as int),
            decreases tab.width - ix,
        {
            let x: usize = ind(tab.width, ix);
            let y: usize = tab.first[x];
            assert(0 <= g0.first[x as int] <= g0.height);
            if y < tab.height {
                let (hv, hv2) = keys.toggle(args.hv, args.hv2, args.color, x, y);
                proof {
                    g0.lemma_place(x as int, args.color);
                    g0.lemma_place_count(x as int, args.color);
                    g0.lemma_place_remove(x as int, args.color);
                    g0.lemma_stones_range();
                    rule.keys.lemma_sig_place(g0, x as int, args.color);
                    rule.keys.lemma_sig2_place(g0, x as int, args.color);
                }
                tab.place(x, args.color);
                let args2 = Args {
                    alpha: -b,
                    beta: -a,
                    color: -args.color,
                    depth: args.depth + 1,
                    hv,
                    hv2,
                };
                let ghost child = tab@;
                let ghost best = g;
                proof {
                    child.lemma_stones_range();
                    assert(0 <= child.free() < g0.free());
                    assert(faithful(args2, child, rule.keys));
                }
                let r: Vals = self.search(args2, tab);
                proof {
                    if sep {
                        lemma_seen_step(g0, args.color, d, ix as int, best as int, a1 as int, b as int, r as int);
                    }
                }
                let q: Vals = -r;
                if q > g {
                    g = q;
                }
                tab.remove(x);
                if g > a {
                    a = g;
                }
                if a >= b {
                    cut = true;
                }
            } else {
                proof {
                    if sep {
                        lemma_seen_skip(g0, args.color, d, ix as int, g as int, a1 as int, b as int);
                    }
                }
            }
            ix = ix + 1;
        }
        proof {
            if sep {
                assert(v == best_reply(g0, args.color, d, g0.width as int));
                lemma_seen_end(g0, args.color, d, ix as int, g as int, a1 as int, b as int);
                lemma_window(g as int, args.alpha as int, args.beta as int, a1 as int, b as int, v);
                assert forall|p: Grid|
                    #![trigger rule.keys.canon(p)]
                    playable(p, rule.keys.width, rule.keys.height) && rule.keys.canon(p)
                        == key implies tells(
                    g as int,
                    args.alpha as int,
                    args.beta as int,
                    value(p, rule.first),
                ) by {
                    assert(rule.keys.canon(p) == rule.keys.canon(g0));
                }
            }
        }
        self.store(key, args.alpha, args.beta, g, args.depth);
        g
    }

    /// Solves the position on `tab` with `color` to move, with the widest window
    /// and the signatures computed from scratch; or gives `None` where the board is
    /// no legal position, has not the size of the keys, or `color` is not the side
    /// that the table expects to move at the ply of the position.
    ///
    /// As far as the keys separate, the score is the negamax value of the position.
    pub fn solve(&self, tab: &mut Board, color: Colors) -> (r: Option<Vals>)
        ensures
            final(tab)@ == old(tab)@,
            r is Some <==> old(tab)@.wf() && self.rule().keys.fits(old(tab)@) && color == mover(
                self.rule().first,
                ply(old(tab)@),
            ),
            r matches Some(v) ==> VALMIN <= v && (self.rule().separating() || old(tab)@.stones()
                > old(tab)@.maxdepth() ==> v == negamax(old(tab)@, color, ply(old(tab)@)) && -1
                <= v <= 1),
    {
        proof {
            use_type_invariant(self);
        }
        let keys = self.keys();
        if !tab.is_wf() || keys.width != tab.width || keys.height != tab.height {
            return None;
        }
        let ghost g0 = tab@;
        proof {
            g0.lemma_stones_range();
            g0.lemma_mirror_wf();
        }
        let stones: usize = tab.stones();
        let full: bool = stones > self.maxdepth as usize;
        let depth: Depth = if full {
            self.maxdepth
        } else {
            stones as Depth
        };
        let expected: Colors = if depth % 2 == 0 {
            self.first
        } else {
            -self.first
        };
        if color != expected {
            return None;
        }
        if full {
            proof {
                assert forall|x: int| !wins_now(g0, x, color) by {
                    if g0.can_place(x) {
                        g0.lemma_free_column(x);
                    }
                }
                assert(!can_win(g0, color));
            }
            return Some(0);
        }
        let hv: Sigs = compute_hash(tab, keys);
        let mut image: Board = tab.mirrored();
        let hv2: Sigs = compute_hash(&mut image, keys);
        let args = Args { alpha: VALMIN, beta: VALMAX, color, depth, hv, hv2 };
        proof {
            lemma_negamax_range(g0, color, depth as int);
            lemma_negamax_small(g0, color, depth as int);
        }
        let ret: Vals = self.search(args, tab);
        Some(ret)
    }
}

} // verus!
