//! Position signatures: a 64-bit XOR of one random key per stone, kept for the
//! position as it stands and for its left-right mirror image.

use vstd::prelude::*;
use crate::board::{Board, Grid};
use crate::{Colors, Sigs, BLACK, EMPTY, WHITE};

verus! {

/// The mathematical content of a key set.
pub struct KeyTable {
    pub width: nat,
    pub height: nat,
    /// Signature of the empty board.
    pub fh: Sigs,
    /// `hw[x][y]`: key of a white stone on column `x`, row `y`.
    pub hw: Seq<Seq<Sigs>>,
    /// `hb[x][y]`: key of a black stone on column `x`, row `y`.
    pub hb: Seq<Seq<Sigs>>,
}

impl KeyTable {
    /// Both tables are rectangular, `width` by `height`.
    pub open spec fn wf(self) -> bool {
        &&& self.hw.len() == self.width
        &&& self.hb.len() == self.width
        &&& forall|x: int| 0 <= x < self.width ==> (#[trigger] self.hw[x]).len() == self.height
        &&& forall|x: int| 0 <= x < self.width ==> (#[trigger] self.hb[x]).len() == self.height
    }

    /// The key tables fit the grid.
    pub open spec fn fits(self, g: Grid) -> bool {
        self.wf() && self.width == g.width && self.height == g.height
    }

    /// What a cell of content `c` on `(x, y)` contributes to a signature: the key of
    /// its colour, and nothing for a free cell.
    pub open spec fn cell_key(self, c: Colors, x: int, y: int) -> Sigs {
        if c == WHITE {
            self.hw[x][y]
        } else if c == BLACK {
            self.hb[x][y]
        } else {
            0
        }
    }

    /// The key that a stone of colour `c` on `(x, y)` is hashed with: from the white
    /// table for `WHITE`, from the black table for any other colour.
    pub open spec fn stone_key(self, c: Colors, x: int, y: int) -> Sigs {
        if c == WHITE {
            self.hw[x][y]
        } else {
            self.hb[x][y]
        }
    }

    /// The pair of signatures after a stone of colour `c` went onto, or came off,
    /// the cell `(x, y)` of a board with the pair `(hv, hv2)`: the stone's key goes
    /// into the first, its key on the mirrored column into the second.
    pub open spec fn toggled(self, hv: Sigs, hv2: Sigs, c: Colors, x: int, y: int) -> (Sigs, Sigs) {
        (hv ^ self.stone_key(c, x, y), hv2 ^ self.stone_key(c, self.width - 1 - x, y))
    }

    /// `acc` with the keys of the lowest `n` cells of column `x` folded in.
    pub open spec fn fold_column(self, g: Grid, x: int, n: int, acc: Sigs) -> Sigs
        decreases n,
    {
        if n <= 0 {
            acc
        } else {
            self.fold_column(g, x, n - 1, acc) ^ self.cell_key(g.at(x, n - 1), x, n - 1)
        }
    }

    /// The empty-board key with the keys of the first `m` columns folded in.
    pub open spec fn fold_columns(self, g: Grid, m: int) -> Sigs
        decreases m,
    {
        if m <= 0 {
            self.fh
        } else {
            self.fold_column(g, m - 1, g.height as int, self.fold_columns(g, m - 1))
        }
    }

    /// The signature of a grid, computed from scratch: the empty-board key XOR the
    /// key of every stone.
    pub open spec fn sig(self, g: Grid) -> Sigs {
        self.fold_columns(g, g.width as int)
    }

    /// The signature of the mirror image of a grid.
    pub open spec fn sig2(self, g: Grid) -> Sigs {
        self.sig(g.mirror())
    }

    /// The table key of a grid: the smaller of its signature and that of its mirror
    /// image, so that both images share one key.
    pub open spec fn canon(self, g: Grid) -> Sigs {
        min_sig(self.sig(g), self.sig2(g))
    }
}

pub open spec fn min_sig(a: Sigs, b: Sigs) -> Sigs {
    if a <= b {
        a
    } else {
        b
    }
}

proof fn lemma_xor_swap(a: Sigs, d: Sigs, k: Sigs)
    ensures
        (a ^ d) ^ k == (a ^ k) ^ d,
{
    assert((a ^ d) ^ k == (a ^ k) ^ d) by (bit_vector);
}

proof fn lemma_xor_zero(a: Sigs)
    ensures
        a ^ 0 == a,
{
    assert(a ^ 0 == a) by (bit_vector);
}

/// XOR with one key twice gives the signature back, so a stone is taken out of a
/// signature the way it was put in.
pub proof fn lemma_xor_twice(a: Sigs, k: Sigs)
    ensures
        (a ^ k) ^ k == a,
{
    assert((a ^ k) ^ k == a) by (bit_vector);
}

impl KeyTable {
    /// Folding a column into `acc ^ d` gives the fold into `acc`, XOR `d`.
    proof fn lemma_fold_column_acc(self, g: Grid, x: int, n: int, acc: Sigs, d: Sigs)
        ensures
            self.fold_column(g, x, n, acc ^ d) == self.fold_column(g, x, n, acc) ^ d,
        decreases n,
    {
        if n > 0 {
            self.lemma_fold_column_acc(g, x, n - 1, acc, d);
            lemma_xor_swap(
                self.fold_column(g, x, n - 1, acc),
                d,
                self.cell_key(g.at(x, n - 1), x, n - 1),
            );
        }
    }

    /// A column whose lowest `n` cells agree in two grids folds alike in both.
    proof fn lemma_fold_column_same(self, g: Grid, h: Grid, x: int, n: int, acc: Sigs)
        requires
            forall|y: int| 0 <= y < n ==> g.at(x, y) == h.at(x, y),
        ensures
            self.fold_column(g, x, n, acc) == self.fold_column(h, x, n, acc),
        decreases n,
    {
        if n > 0 {
            self.lemma_fold_column_same(g, h, x, n - 1, acc);
        }
    }

    /// A column in which only the free cell `y0` became `c` folds to the old fold
    /// XOR the key of `c` on that cell, once the fold reaches the cell.
    proof fn lemma_fold_column_set(self, g: Grid, h: Grid, x: int, y0: int, c: Colors, n: int, acc: Sigs)
        requires
            0 <= y0,
            g.at(x, y0) == EMPTY,
            h.at(x, y0) == c,
            forall|y: int| 0 <= y < n && y != y0 ==> g.at(x, y) == h.at(x, y),
        ensures
            self.fold_column(h, x, n, acc) == if y0 < n {
                self.fold_column(g, x, n, acc) ^ self.cell_key(c, x, y0)
            } else {
                self.fold_column(g, x, n, acc)
            },
        decreases n,
    {
        if n > 0 {
            self.lemma_fold_column_set(g, h, x, y0, c, n - 1, acc);
            if n - 1 == y0 {
                self.lemma_fold_column_same(g, h, x, n - 1, acc);
                lemma_xor_zero(self.fold_column(g, x, n - 1, acc));
            } else if y0 < n - 1 {
                lemma_xor_swap(
                    self.fold_column(g, x, n - 1, acc),
                    self.cell_key(c, x, y0),
                    self.cell_key(g.at(x, n - 1), x, n - 1),
                );
            }
        }
    }

    proof fn lemma_fold_columns_set(self, g: Grid, h: Grid, x0: int, y0: int, c: Colors, m: int)
        requires
            g.height == h.height,
            0 <= x0,
            0 <= y0 < g.height,
            g.at(x0, y0) == EMPTY,
            h.at(x0, y0) == c,
            forall|x: int, y: int|
                0 <= x < m && 0 <= y < g.height && !(x == x0 && y == y0) ==> g.at(x, y) == h.at(
                    x,
                    y,
                ),
        ensures
            self.fold_columns(h, m) == if x0 < m {
                self.fold_columns(g, m) ^ self.cell_key(c, x0, y0)
            } else {
                self.fold_columns(g, m)
            },
        decreases m,
    {
        if m > 0 {
            self.lemma_fold_columns_set(g, h, x0, y0, c, m - 1);
            let hh = g.height as int;
            let before_g = self.fold_columns(g, m - 1);
            let before_h = self.fold_columns(h, m - 1);
            if m - 1 == x0 {
                self.lemma_fold_column_set(g, h, x0, y0, c, hh, before_g);
            } else {
                self.lemma_fold_column_same(g, h, m - 1, hh, before_h);
                if x0 < m - 1 {
                    self.lemma_fold_column_acc(g, m - 1, hh, before_g, self.cell_key(c, x0, y0));
                }
            }
        }
    }

    /// Dropping a stone changes the signature by the key of that stone.
    pub proof fn lemma_sig_place(self, g: Grid, x: int, c: Colors)
        requires
            g.wf(),
            g.can_place(x),
        ensures
            self.sig(g.place(x, c)) == self.sig(g) ^ self.cell_key(c, x, g.first[x]),
    {
        let h = g.place(x, c);
        assert(g.cells[x].len() == g.height);
        assert(g.at(x, g.first[x]) == EMPTY);
        self.lemma_fold_columns_set(g, h, x, g.first[x], c, g.width as int);
    }

    /// Dropping a stone changes the signature of the mirror image by the key of that
    /// stone on the mirrored column.
    pub proof fn lemma_sig2_place(self, g: Grid, x: int, c: Colors)
        requires
            g.wf(),
            g.can_place(x),
        ensures
            self.sig2(g.place(x, c)) == self.sig2(g) ^ self.cell_key(c, g.width - 1 - x, g.first[x]),
    {
        g.lemma_mirror_place(x, c);
        g.lemma_mirror_wf();
        self.lemma_sig_place(g.mirror(), g.width - 1 - x, c);
    }

    /// A grid and its mirror image have the same table key.
    pub proof fn lemma_canon_mirror(self, g: Grid)
        requires
            g.shaped(),
        ensures
            self.canon(g.mirror()) == self.canon(g),
    {
        g.lemma_mirror_mirror();
    }

    /// A grid that is its own mirror image has two equal signatures.
    pub proof fn lemma_symmetric(self, g: Grid)
        requires
            g.mirror() == g,
        ensures
            self.sig(g) == self.sig2(g),
    {
    }

    proof fn lemma_fold_column_empty(self, g: Grid, x: int, n: int, acc: Sigs)
        requires
            forall|y: int| 0 <= y < n ==> g.at(x, y) == EMPTY,
        ensures
            self.fold_column(g, x, n, acc) == acc,
        decreases n,
    {
        if n > 0 {
            self.lemma_fold_column_empty(g, x, n - 1, acc);
            lemma_xor_zero(acc);
        }
    }

    proof fn lemma_fold_columns_empty(self, g: Grid, m: int)
        requires
            forall|x: int, y: int| 0 <= x < m && 0 <= y < g.height ==> g.at(x, y) == EMPTY,
        ensures
            self.fold_columns(g, m) == self.fh,
        decreases m,
    {
        if m > 0 {
            self.lemma_fold_columns_empty(g, m - 1);
            self.lemma_fold_column_empty(g, m - 1, g.height as int, self.fh);
        }
    }

    /// The empty board has the signature `fh`, and so has its mirror image.
    pub proof fn lemma_sig_empty(self, width: nat, height: nat)
        ensures
            self.sig(Grid::empty(width, height)) == self.fh,
            self.sig2(Grid::empty(width, height)) == self.fh,
    {
        let e = Grid::empty(width, height);
        self.lemma_fold_columns_empty(e, width as int);
        self.lemma_fold_columns_empty(e.mirror(), width as int);
    }
}

/// A move: the column and the colour of the stone.
pub struct Move {
    pub x: int,
    pub c: Colors,
}

/// The grid after the moves were played on `g`, one after the other.
pub open spec fn play(g: Grid, moves: Seq<Move>) -> Grid
    decreases moves.len(),
{
    if moves.len() == 0 {
        g
    } else {
        play(g, moves.drop_last()).place(moves.last().x, moves.last().c)
    }
}

/// Every move drops a stone of one of the two sides into a column that has a free
/// row at that time.
pub open spec fn playable_moves(g: Grid, moves: Seq<Move>) -> bool
    decreases moves.len(),
{
    moves.len() == 0 || {
        &&& playable_moves(g, moves.drop_last())
        &&& play(g, moves.drop_last()).can_place(moves.last().x)
        &&& (moves.last().c == WHITE || moves.last().c == BLACK)
    }
}

impl KeyTable {
    /// The pair of signatures kept move by move: it starts as the pair computed from
    /// scratch for `g`, and every move toggles the keys of its stone.
    pub open spec fn kept_pair(self, g: Grid, moves: Seq<Move>) -> (Sigs, Sigs)
        decreases moves.len(),
    {
        if moves.len() == 0 {
            (self.sig(g), self.sig2(g))
        } else {
            let before = play(g, moves.drop_last());
            let pair = self.kept_pair(g, moves.drop_last());
            self.toggled(pair.0, pair.1, moves.last().c, moves.last().x, before.first[moves.last().x])
        }
    }

    /// On every board reached by legal moves, the pair of signatures kept move by
    /// move is the pair computed from scratch: the first is the signature of the
    /// board, the second the signature of its mirror image.
    pub proof fn lemma_kept_pair(self, g: Grid, moves: Seq<Move>)
        requires
            g.wf(),
            self.fits(g),
            playable_moves(g, moves),
        ensures
            play(g, moves).wf(),
            play(g, moves).width == g.width,
            play(g, moves).height == g.height,
            self.kept_pair(g, moves) == (self.sig(play(g, moves)), self.sig2(play(g, moves))),
        decreases moves.len(),
    {
        if moves.len() > 0 {
            let m = moves.last();
            let before = play(g, moves.drop_last());
            self.lemma_kept_pair(g, moves.drop_last());
            before.lemma_place(m.x, m.c);
            before.lemma_place_count(m.x, m.c);
            self.lemma_sig_place(before, m.x, m.c);
            self.lemma_sig2_place(before, m.x, m.c);
        }
    }

    /// Taking a stone off again gives back the pair of signatures from before it
    /// went on.
    pub proof fn lemma_toggled_twice(self, hv: Sigs, hv2: Sigs, c: Colors, x: int, y: int)
        ensures
            ({
                let once = self.toggled(hv, hv2, c, x, y);
                self.toggled(once.0, once.1, c, x, y)
            }) == (hv, hv2),
    {
        lemma_xor_twice(hv, self.stone_key(c, x, y));
        lemma_xor_twice(hv2, self.stone_key(c, self.width - 1 - x, y));
    }
}

/// The hashing context: one key per colour and cell, and the key of the empty board.
/// It is built once and handed to every call that hashes.
#[derive(Clone, Debug)]
pub struct Keys {
    pub width: usize,
    pub height: usize,
    pub fh: Sigs,
    pub hw: Vec<Vec<Sigs>>,
    pub hb: Vec<Vec<Sigs>>,
}

impl View for Keys {
    type V = KeyTable;

    open spec fn view(&self) -> KeyTable {
        KeyTable {
            width: self.width as nat,
            height: self.height as nat,
            fh: self.fh,
            hw: Seq::new(self.hw@.len(), |x: int| self.hw@[x]@),
            hb: Seq::new(self.hb@.len(), |x: int| self.hb@[x]@),
        }
    }
}

/// Draws one key from the thread-local generator of `rand`, by
/// `rand::Rng::gen::<u64>` on `rand::thread_rng()`. Nothing is claimed of the value.
/// The call takes no argument, so no argument can make it fail; it panics only
/// where the operating system gives the generator no entropy, at its first use
/// or at a reseed.
#[verifier::external_body]
fn random_sig() -> Sigs {
    rand::Rng::gen::<u64>(&mut rand::thread_rng())
}

/// A `width` by `height` table of fresh random keys.
fn random_table(width: usize, height: usize) -> (t: Vec<Vec<Sigs>>)
    ensures
        t@.len() == width,
        forall|x: int| 0 <= x < width ==> (#[trigger] t@[x])@.len() == height,
{
    let mut t: Vec<Vec<Sigs>> = Vec::new();
    let mut x: usize = 0;
    while x < width
        invariant
            x <= width,
            t@.len() == x,
            forall|i: int| 0 <= i < x ==> (#[trigger] t@[i])@.len() == height,
        decreases width - x,
    {
        let mut column: Vec<Sigs> = Vec::new();
        let mut y: usize = 0;
        while y < height
            invariant
                y <= height,
                column@.len() == y,
            decreases height - y,
        {
            column.push(random_sig());
            y = y + 1;
        }
        t.push(column);
        x = x + 1;
    }
    t
}

impl Keys {
    /// A key set for a `width` by `height` board, every key drawn at random.
    pub fn random(width: usize, height: usize) -> (k: Keys)
        ensures
            k@.wf(),
            k@.width == width,
            k@.height == height,
    {
        let hw = random_table(width, height);
        let hb = random_table(width, height);
        let fh: Sigs = random_sig();
        Keys { width, height, fh, hw, hb }
    }

    /// The key that a stone of colour `color` on `(x, y)` is hashed with.
    pub fn key(&self, color: Colors, x: usize, y: usize) -> (k: Sigs)
        requires
            self@.wf(),
            x < self.width,
            y < self.height,
        ensures
            k == self@.stone_key(color, x as int, y as int),
    {
        assert(self@.hw[x as int].len() == self.height);
        assert(self@.hb[x as int].len() == self.height);
        if color == WHITE {
            self.hw[x][y]
        } else {
            self.hb[x][y]
        }
    }

    /// The pair of signatures after a stone of colour `color` went onto the cell
    /// `(x, y)`; called again with the result, it takes the stone off.
    pub fn toggle(&self, hv: Sigs, hv2: Sigs, color: Colors, x: usize, y: usize) -> (r: (Sigs, Sigs))
        requires
            self@.wf(),
            x < self.width,
            y < self.height,
        ensures
            r == self@.toggled(hv, hv2, color, x as int, y as int),
    {
        (hv ^ self.key(color, x, y), hv2 ^ self.key(color, self.width - 1 - x, y))
    }

    /// Tells whether both key tables are `width` by `height`.
    pub fn is_wf(&self) -> (ok: bool)
        ensures
            ok == self@.wf(),
    {
        if self.hw.len() != self.width || self.hb.len() != self.width {
            return false;
        }
        let mut x: usize = 0;
        while x < self.width
            invariant
                x <= self.width,
                self.hw@.len() == self.width,
                self.hb@.len() == self.width,
                forall|i: int| 0 <= i < x ==> (#[trigger] self@.hw[i]).len() == self.height,
                forall|i: int| 0 <= i < x ==> (#[trigger] self@.hb[i]).len() == self.height,
            decreases self.width - x,
        {
            if self.hw[x].len() != self.height || self.hb[x].len() != self.height {
                assert(self@.hw[x as int].len() != self.height || self@.hb[x as int].len()
                    != self.height);
                return false;
            }
            x = x + 1;
        }
        true
    }
}

/// Computes the signature of a board from scratch, by scanning every cell.
pub fn compute_hash(tab: &mut Board, keys: &Keys) -> (h: Sigs)
    requires
        old(tab)@.shaped(),
        keys@.fits(old(tab)@),
    ensures
        h == keys@.sig(old(tab)@),
        final(tab)@ == old(tab)@,
{
    let mut h: Sigs = keys.fh;
    let mut i: usize = 0;
    while i < tab.width
        invariant
            tab@ == old(tab)@,
            tab@.shaped(),
            keys@.fits(tab@),
            i <= tab.width,
            h == keys@.fold_columns(tab@, i as int),
        decreases tab.width - i,
    {
        let mut j: usize = 0;
        assert(tab@.cells[i as int].len() == tab.height);
        assert(keys@.hw[i as int].len() == tab.height);
        assert(keys@.hb[i as int].len() == tab.height);
        while j < tab.height
            invariant
                tab@ == old(tab)@,
                tab@.shaped(),
                keys@.fits(tab@),
                i < tab.width,
                j <= tab.height,
                tab@.cells[i as int].len() == tab.height,
                keys@.hw[i as int].len() == tab.height,
                keys@.hb[i as int].len() == tab.height,
                h == keys@.fold_column(tab@, i as int, j as int, keys@.fold_columns(tab@, i as int)),
            decreases tab.height - j,
        {
            let e: Colors = tab.cells[i][j];
            if e == BLACK {
                h = h ^ keys.hb[i][j];
            } else if e == WHITE {
                h = h ^ keys.hw[i][j];
            } else {
                proof {
                    lemma_xor_zero(h);
                }
            }
            j = j + 1;
        }
        i = i + 1;
    }
    h
}

} // verus!
