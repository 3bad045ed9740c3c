//! The transposition table: a fixed array of bound entries, one slot per
//! signature modulo the table size, with a depth-priority replacement rule.

use vstd::prelude::*;
use crate::board::MAXCELLS;
use crate::prune::tells;
use crate::{Depth, Sigs, Vals, VALMAX, VALMIN};
use vstd::arithmetic::power2::{lemma2_to64, lemma_pow2_pos, lemma_pow2_strictly_increases, pow2};
use vstd::bits::{
    lemma_u64_low_bits_mask_is_mod, lemma_u64_pow2_no_overflow, lemma_u64_shl_is_mul,
    low_bits_mask,
};

verus! {

/// The largest table is `2^MAXBITS` slots.
pub const MAXBITS: u8 = 31;

/// One table entry: the bounds known for the position with signature `sig`.
#[derive(Clone, Copy, Debug)]
pub struct HashElem {
    pub sig: Sigs,
    /// Lower bound of the position's value.
    pub v_inf: Vals,
    /// Upper bound of the position's value.
    pub v_sup: Vals,
    /// Retention priority: larger for positions nearer the root.
    pub d: Depth,
}

impl HashElem {
    /// The entry of a slot that holds nothing yet: signature 0, widest bounds,
    /// lowest priority.
    pub open spec fn vacant() -> HashElem {
        HashElem { sig: 0, v_inf: VALMIN, v_sup: VALMAX, d: 0 }
    }

    /// Neither bound is below `VALMIN`, so both can be negated.
    pub open spec fn ranged(self) -> bool {
        VALMIN <= self.v_inf && VALMIN <= self.v_sup
    }

    /// The stored bounds, if the entry belongs to signature `sig`.
    pub open spec fn bounds_for(self, sig: Sigs) -> Option<(Vals, Vals)> {
        if self.sig == sig {
            Some((self.v_inf, self.v_sup))
        } else {
            None
        }
    }

    /// The entry after a result `g`, found with window `(alpha, beta)` for signature
    /// `sig` at priority `prio`, was offered to it. An entry of higher priority
    /// stays as it is. Otherwise an entry of another signature is first reset to
    /// `sig`, `prio` and the widest bounds; then `g` replaces both bounds if it lies
    /// strictly inside the window, lowers the upper bound if `g <= alpha`, and
    /// raises the lower bound if `g >= beta`.
    pub open spec fn stored(self, sig: Sigs, alpha: Vals, beta: Vals, g: Vals, prio: Depth) -> HashElem {
        if self.d <= prio {
            let base = if self.sig != sig {
                HashElem { sig, v_inf: VALMIN, v_sup: VALMAX, d: prio }
            } else {
                self
            };
            if alpha < g && g < beta {
                HashElem { v_inf: g, v_sup: g, ..base }
            } else if g <= alpha {
                HashElem {
                    v_sup: if g < base.v_sup {
                        g
                    } else {
                        base.v_sup
                    },
                    ..base
                }
            } else {
                HashElem {
                    v_inf: if g > base.v_inf {
                        g
                    } else {
                        base.v_inf
                    },
                    ..base
                }
            }
        } else {
            self
        }
    }

    /// The bounds of the entry, where it belongs to `sig`, enclose `v`.
    pub open spec fn encloses(self, sig: Sigs, v: int) -> bool {
        self.sig == sig ==> self.v_inf <= v <= self.v_sup
    }

    /// Storing a result that tells the truth about `v` into an entry whose bounds
    /// enclose `v` gives an entry whose bounds enclose `v`, with the lower bound not
    /// above the upper one.
    pub proof fn lemma_stored_encloses(self, sig: Sigs, alpha: Vals, beta: Vals, g: Vals, prio: Depth, v: int)
        requires
            self.encloses(sig, v),
            tells(g as int, alpha as int, beta as int, v),
            VALMIN <= v <= VALMAX,
        ensures
            self.stored(sig, alpha, beta, g, prio).encloses(sig, v),
            self.stored(sig, alpha, beta, g, prio).sig == sig ==> self.stored(
                sig,
                alpha,
                beta,
                g,
                prio,
            ).v_inf <= self.stored(sig, alpha, beta, g, prio).v_sup,
    {
    }

    /// Storing never touches an entry of another signature unless it replaces it.
    pub proof fn lemma_stored_other(self, sig: Sigs, alpha: Vals, beta: Vals, g: Vals, prio: Depth)
        ensures
            self.stored(sig, alpha, beta, g, prio) == self || self.stored(
                sig,
                alpha,
                beta,
                g,
                prio,
            ).sig == sig,
            self.ranged() && VALMIN <= g ==> self.stored(sig, alpha, beta, g, prio).ranged(),
    {
    }

    /// The entry of a slot that holds nothing yet.
    pub fn empty() -> (e: HashElem)
        ensures
            e == HashElem::vacant(),
    {
        HashElem { sig: 0, v_inf: VALMIN, v_sup: VALMAX, d: 0 }
    }

    /// The stored bounds, if the entry belongs to signature `sig`.
    pub fn probe(&self, sig: Sigs) -> (r: Option<(Vals, Vals)>)
        ensures
            r == self.bounds_for(sig),
    {
        if self.sig == sig {
            Some((self.v_inf, self.v_sup))
        } else {
            None
        }
    }

    /// Offers a result to the entry; see `stored`.
    pub fn merge(&mut self, sig: Sigs, alpha: Vals, beta: Vals, g: Vals, prio: Depth)
        ensures
            *final(self) == old(self).stored(sig, alpha, beta, g, prio),
    {
        if self.d <= prio {
            if self.sig != sig {
                self.d = prio;
                self.v_inf = VALMIN;
                self.v_sup = VALMAX;
                self.sig = sig;
            }
            if (g > alpha) && (g < beta) {
                self.v_inf = g;
                self.v_sup = g;
            } else if g <= alpha {
                if g < self.v_sup {
                    self.v_sup = g;
                }
            } else if g >= beta {
                if g > self.v_inf {
                    self.v_inf = g;
                }
            }
        }
    }
}

/// The number of slots of a table of `nb_bits` bits, `2^nb_bits`.
pub fn slot_count(nb_bits: u8) -> (len: u64)
    requires
        nb_bits <= MAXBITS,
    ensures
        len == pow2(nb_bits as nat),
        len - 1 == low_bits_mask(nb_bits as nat),
        1 <= len <= 0x8000_0000,
{
    proof {
        lemma_u64_pow2_no_overflow(nb_bits as nat);
        lemma_u64_shl_is_mul(1, nb_bits as u64);
        lemma_pow2_pos(nb_bits as nat);
        lemma_pow2_strictly_increases(nb_bits as nat, 32);
        lemma2_to64();
    }
    1u64 << (nb_bits as u64)
}

/// The slot of a signature in a table of `2^nb_bits` slots: the signature modulo
/// the slot count, taken with the mask `2^nb_bits - 1`.
pub fn slot_index(hv: Sigs, nb_bits: u8, mask: Sigs) -> (ind: usize)
    requires
        nb_bits <= MAXBITS,
        mask == low_bits_mask(nb_bits as nat),
    ensures
        ind == hv as int % pow2(nb_bits as nat) as int,
        ind < pow2(nb_bits as nat),
{
    proof {
        lemma_u64_low_bits_mask_is_mod(hv, nb_bits as nat);
        lemma_u64_pow2_no_overflow(nb_bits as nat);
        lemma_pow2_pos(nb_bits as nat);
        lemma_pow2_strictly_increases(nb_bits as nat, 32);
        lemma2_to64();
    }
    (hv & mask) as usize
}

/// The table. It is made for one board size, whose last ply `maxdepth` sets the
/// retention priorities, and it counts the positions searched with it.
#[derive(Clone, Debug)]
pub struct HTable {
    pub slots: Vec<HashElem>,
    /// The slot count is `2^nb_bits`.
    pub nb_bits: u8,
    /// Slot count minus one.
    pub mask: Sigs,
    pub maxdepth: Depth,
    /// Number of positions that a search has entered with this table.
    pub nodes: u64,
}

impl View for HTable {
    type V = Seq<HashElem>;

    open spec fn view(&self) -> Seq<HashElem> {
        self.slots@
    }
}

/// Every entry of the sequence can be negated.
pub open spec fn ranged_all(t: Seq<HashElem>) -> bool {
    forall|i: int| 0 <= i < t.len() ==> (#[trigger] t[i]).ranged()
}

/// The number after `n` in a counter that stops at the largest value.
pub open spec fn bump(n: u64) -> u64 {
    if n < u64::MAX {
        (n + 1) as u64
    } else {
        n
    }
}

impl HTable {
    /// The slot count is `2^nb_bits`, `mask` is that minus one, and the priorities
    /// `maxdepth + 2 - depth` fit a `Depth`.
    pub open spec fn wf(&self) -> bool {
        &&& self.nb_bits <= MAXBITS
        &&& self.slots@.len() == pow2(self.nb_bits as nat)
        &&& self.mask == low_bits_mask(self.nb_bits as nat)
        &&& self.maxdepth < MAXCELLS
    }

    /// Every entry can be negated.
    pub open spec fn ranged(&self) -> bool {
        ranged_all(self.slots@)
    }

    /// The slot of a signature: the signature modulo the slot count.
    pub open spec fn slot(&self, sig: Sigs) -> int {
        sig as int % self.slots@.len() as int
    }

    /// Every signature has its slot.
    pub proof fn lemma_slot_range(&self, sig: Sigs)
        requires
            self.wf(),
        ensures
            0 <= self.slot(sig) < self@.len(),
    {
        lemma_pow2_pos(self.nb_bits as nat);
    }

    /// The priority with which a result found at ply `depth` is kept.
    pub open spec fn prio(&self, depth: Depth) -> Depth {
        (self.maxdepth + 2 - depth) as Depth
    }

    /// A table of `2^nb_bits` vacant slots for boards whose last ply is `maxdepth`,
    /// or `None` where `nb_bits` is above `MAXBITS` or `maxdepth` is not below
    /// `MAXCELLS`.
    pub fn new(nb_bits: u8, maxdepth: Depth) -> (r: Option<HTable>)
        ensures
            r is Some <==> nb_bits <= MAXBITS && maxdepth < MAXCELLS,
            r matches Some(t) ==> {
                &&& t.wf()
                &&& t.ranged()
                &&& t.maxdepth == maxdepth
                &&& t.nodes == 0
                &&& t.nb_bits == nb_bits
                &&& t@.len() == pow2(nb_bits as nat)
                &&& forall|i: int| 0 <= i < t@.len() ==> t@[i] == HashElem::vacant()
            },
    {
        if nb_bits > MAXBITS || maxdepth as usize >= MAXCELLS {
            return None;
        }
        let len: u64 = slot_count(nb_bits);
        let mut slots: Vec<HashElem> = Vec::new();
        let mut i: u64 = 0;
        while i < len
            invariant
                i <= len,
                slots@.len() == i,
                forall|k: int| 0 <= k < i ==> slots@[k] == HashElem::vacant(),
            decreases len - i,
        {
            slots.push(HashElem::empty());
            i = i + 1;
        }
        Some(HTable { slots, nb_bits, mask: len - 1, maxdepth, nodes: 0 })
    }

    /// Tells whether the fields of the table fit together; see `wf`.
    pub fn is_wf(&self) -> (ok: bool)
        ensures
            ok == self.wf(),
    {
        if self.nb_bits > MAXBITS || self.maxdepth as usize >= MAXCELLS {
            return false;
        }
        let len: u64 = slot_count(self.nb_bits);
        self.slots.len() as u64 == len && self.mask == len - 1
    }

    /// Tells whether every entry can be negated; see `ranged`.
    pub fn is_ranged(&self) -> (ok: bool)
        ensures
            ok == self.ranged(),
    {
        let mut i: usize = 0;
        while i < self.slots.len()
            invariant
                i <= self.slots@.len(),
                forall|k: int| 0 <= k < i ==> (#[trigger] self.slots@[k]).ranged(),
            decreases self.slots@.len() - i,
        {
            if self.slots[i].v_inf < VALMIN || self.slots[i].v_sup < VALMIN {
                assert(!self.slots@[i as int].ranged());
                return false;
            }
            i = i + 1;
        }
        true
    }

    /// The index of the slot of a signature.
    pub fn index(&self, hv: Sigs) -> (ind: usize)
        requires
            self.wf(),
        ensures
            ind == self.slot(hv),
            ind < self.slots@.len(),
    {
        slot_index(hv, self.nb_bits, self.mask)
    }
}

/// Looks a signature up: the bounds stored in its slot, if that slot belongs to it.
pub fn retrieve(hv: Sigs, hashes: &HTable) -> (r: Option<(Vals, Vals)>)
    requires
        hashes.wf(),
    ensures
        0 <= hashes.slot(hv) < hashes@.len(),
        r == hashes@[hashes.slot(hv)].bounds_for(hv),
{
    let ind: usize = hashes.index(hv);
    hashes.slots[ind].probe(hv)
}

/// Offers the result `g` of a search with window `(alpha, beta)` at ply `depth` to
/// the slot of the signature `hv`; no other slot changes.
pub fn store(hv: Sigs, alpha: Vals, beta: Vals, g: Vals, depth: Depth, hashes: &mut HTable)
    requires
        old(hashes).wf(),
        depth <= old(hashes).maxdepth + 2,
    ensures
        0 <= old(hashes).slot(hv) < old(hashes)@.len(),
        final(hashes)@ == old(hashes)@.update(
            old(hashes).slot(hv),
            old(hashes)@[old(hashes).slot(hv)].stored(hv, alpha, beta, g, old(hashes).prio(depth)),
        ),
        final(hashes).nb_bits == old(hashes).nb_bits,
        final(hashes).mask == old(hashes).mask,
        final(hashes).maxdepth == old(hashes).maxdepth,
        final(hashes).nodes == old(hashes).nodes,
        final(hashes).wf(),
        old(hashes).ranged() && VALMIN <= g ==> final(hashes).ranged(),
{
    let ind: usize = hashes.index(hv);
    let d: Depth = hashes.maxdepth + 2 - depth;
    let mut data: HashElem = hashes.slots[ind];
    data.merge(hv, alpha, beta, g, d);
    hashes.slots[ind] = data;
    proof {
        old(hashes)@[ind as int].lemma_stored_other(hv, alpha, beta, g, d);
    }
}

} // verus!
