//! The playing grid: a column-major matrix of cells and one fill counter per column.
//!
//! Stones drop to the lowest free row of a column. The search mutates one board in
//! place and undoes every move it makes, so `place` and `remove` are exact inverses.

use vstd::prelude::*;
use crate::{Colors, Depth, BLACK, EMPTY, WHITE};

verus! {

/// Largest number of cells a board may have, so that every ply count and every
/// retention priority fits a `Depth`.
pub const MAXCELLS: usize = 254;

/// The mathematical content of a board.
pub struct Grid {
    pub width: nat,
    pub height: nat,
    /// `cells[x][y]` is the content of column `x`, row `y`; row 0 is the bottom.
    pub cells: Seq<Seq<Colors>>,
    /// `first[x]` is the lowest free row of column `x`.
    pub first: Seq<int>,
}

impl Grid {
    /// The matrix is rectangular and has one counter per column.
    pub open spec fn shaped(self) -> bool {
        &&& self.cells.len() == self.width
        &&& self.first.len() == self.width
        &&& forall|x: int| 0 <= x < self.width ==> (#[trigger] self.cells[x]).len() == self.height
    }

    pub open spec fn at(self, x: int, y: int) -> Colors {
        self.cells[x][y]
    }

    pub open spec fn inside(self, x: int, y: int) -> bool {
        0 <= x < self.width && 0 <= y < self.height
    }

    /// A legal position: every column is a gap-free stack of stones whose height is
    /// the column's counter, with free cells above it.
    pub open spec fn wf(self) -> bool {
        &&& self.shaped()
        &&& 1 <= self.width
        &&& 1 <= self.height
        &&& self.width * self.height <= MAXCELLS
        &&& forall|x: int| 0 <= x < self.width ==> 0 <= (#[trigger] self.first[x]) <= self.height
        &&& forall|x: int, y: int|
            0 <= x < self.width && 0 <= y < self.height ==> if y < self.first[x] {
                #[trigger] self.at(x, y) == WHITE || self.at(x, y) == BLACK
            } else {
                self.at(x, y) == EMPTY
            }
    }

    pub open spec fn empty(width: nat, height: nat) -> Grid {
        Grid {
            width,
            height,
            cells: Seq::new(width, |x: int| Seq::new(height, |y: int| EMPTY)),
            first: Seq::new(width, |x: int| 0int),
        }
    }

    /// The last ply at which a stone can still be dropped.
    pub open spec fn maxdepth(self) -> int {
        self.width * self.height - 1
    }

    /// Sum of the counters of the columns below `n`.
    pub open spec fn stones_upto(self, n: int) -> int
        decreases n,
    {
        if n <= 0 {
            0
        } else {
            self.stones_upto(n - 1) + self.first[n - 1]
        }
    }

    /// Number of stones on the board.
    pub open spec fn stones(self) -> int {
        self.stones_upto(self.width as int)
    }

    /// Number of free cells.
    pub open spec fn free(self) -> int {
        self.width * self.height - self.stones()
    }

    pub open spec fn can_place(self, x: int) -> bool {
        0 <= x < self.width && 0 <= self.first[x] < self.height
    }

    /// The grid after a stone of colour `c` was dropped into column `x`.
    pub open spec fn place(self, x: int, c: Colors) -> Grid {
        Grid {
            cells: self.cells.update(x, self.cells[x].update(self.first[x], c)),
            first: self.first.update(x, self.first[x] + 1),
            ..self
        }
    }

    pub open spec fn can_remove(self, x: int) -> bool {
        0 <= x < self.width && 0 < self.first[x] <= self.height
    }

    /// The grid after the top stone of column `x` was taken back.
    pub open spec fn remove(self, x: int) -> Grid {
        Grid {
            cells: self.cells.update(x, self.cells[x].update(self.first[x] - 1, EMPTY)),
            first: self.first.update(x, self.first[x] - 1),
            ..self
        }
    }

    /// The grid seen in a mirror that swaps left and right.
    pub open spec fn mirror(self) -> Grid {
        Grid {
            cells: Seq::new(self.width, |x: int| self.cells[self.width - 1 - x]),
            first: Seq::new(self.width, |x: int| self.first[self.width - 1 - x]),
            ..self
        }
    }

    /// Sum of the counters of the columns `lo .. hi`, taken from the left end.
    spec fn stones_between(self, lo: int, hi: int) -> int
        decreases hi - lo,
    {
        if hi <= lo {
            0
        } else {
            self.first[lo] + self.stones_between(lo + 1, hi)
        }
    }

    proof fn lemma_stones_bound(self, n: int)
        requires
            self.first.len() == self.width,
            0 <= n <= self.width,
            forall|i: int| 0 <= i < self.width ==> 0 <= (#[trigger] self.first[i]) <= self.height,
        ensures
            0 <= self.stones_upto(n) <= n * self.height,
        decreases n,
    {
        if n > 0 {
            self.lemma_stones_bound(n - 1);
            assert((n - 1) * self.height + self.height == n * self.height) by (nonlinear_arith);
        } else {
            assert(0 * self.height == 0) by (nonlinear_arith);
        }
    }

    /// Two lists of counters that differ by `delta` in column `x` alone: so do their
    /// sums, once column `x` is counted.
    proof fn lemma_stones_step(self, other: Grid, x: int, delta: int, n: int)
        requires
            0 <= n <= self.first.len(),
            self.first.len() == other.first.len(),
            0 <= x < self.first.len(),
            other.first[x] == self.first[x] + delta,
            forall|i: int| 0 <= i < self.first.len() && i != x ==> self.first[i] == other.first[i],
        ensures
            other.stones_upto(n) == self.stones_upto(n) + if x < n {
                delta
            } else {
                0
            },
        decreases n,
    {
        if n > 0 {
            self.lemma_stones_step(other, x, delta, n - 1);
        }
    }

    proof fn lemma_stones_none(self, n: int)
        requires
            0 <= n <= self.first.len(),
            forall|i: int| 0 <= i < self.first.len() ==> self.first[i] == 0,
        ensures
            self.stones_upto(n) == 0,
        decreases n,
    {
        if n > 0 {
            self.lemma_stones_none(n - 1);
        }
    }

    proof fn lemma_stones_between_split(self, lo: int, hi: int)
        requires
            lo < hi,
        ensures
            self.stones_between(lo, hi) == self.stones_between(lo, hi - 1) + self.first[hi - 1],
        decreases hi - lo,
    {
        if lo + 1 < hi {
            self.lemma_stones_between_split(lo + 1, hi);
        } else {
            assert(self.stones_between(lo + 1, hi) == 0);
            assert(self.stones_between(lo, hi - 1) == 0);
        }
    }

    proof fn lemma_stones_between_all(self, n: int)
        requires
            0 <= n,
        ensures
            self.stones_between(0, n) == self.stones_upto(n),
        decreases n,
    {
        if n > 0 {
            self.lemma_stones_between_all(n - 1);
            self.lemma_stones_between_split(0, n);
        }
    }

    proof fn lemma_mirror_stones(self, n: int)
        requires
            self.shaped(),
            0 <= n <= self.width,
        ensures
            self.mirror().stones_upto(n) == self.stones_between(self.width - n, self.width as int),
        decreases n,
    {
        if n > 0 {
            self.lemma_mirror_stones(n - 1);
        }
    }

    /// A legal board holds between zero and `width * height` stones.
    pub proof fn lemma_stones_range(self)
        requires
            self.wf(),
        ensures
            0 <= self.stones() <= self.width * self.height,
            0 <= self.free() <= self.width * self.height,
            0 <= self.maxdepth(),
    {
        self.lemma_stones_bound(self.width as int);
        assert(self.width * self.height >= 1) by (nonlinear_arith)
            requires
                self.width >= 1,
                self.height >= 1,
        ;
    }

    /// A column with a free row means that the board is not full.
    pub proof fn lemma_free_column(self, x: int)
        requires
            self.wf(),
            self.can_place(x),
        ensures
            self.stones() < self.width * self.height,
    {
        let full = Grid { first: self.first.update(x, self.height as int), ..self };
        assert forall|i: int| 0 <= i < full.width implies 0 <= (#[trigger] full.first[i])
            <= full.height by {
            if i != x {
                assert(0 <= self.first[i] <= self.height);
            }
        }
        self.lemma_stones_step(full, x, self.height - self.first[x], self.width as int);
        full.lemma_stones_bound(self.width as int);
    }

    proof fn lemma_stones_full(self, n: int)
        requires
            0 <= n <= self.first.len(),
            forall|i: int| 0 <= i < self.first.len() ==> self.first[i] == self.height,
        ensures
            self.stones_upto(n) == n * self.height,
        decreases n,
    {
        if n > 0 {
            self.lemma_stones_full(n - 1);
            assert((n - 1) * self.height + self.height == n * self.height) by (nonlinear_arith);
        } else {
            assert(0 * self.height == 0) by (nonlinear_arith);
        }
    }

    /// A legal board that is not full has a column with a free row.
    pub proof fn lemma_room(self)
        requires
            self.wf(),
            self.stones() < self.width * self.height,
        ensures
            exists|x: int| self.can_place(x),
    {
        if forall|x: int| !self.can_place(x) {
            assert forall|i: int| 0 <= i < self.first.len() implies self.first[i]
                == self.height by {
                assert(0 <= self.first[i] <= self.height);
                assert(!self.can_place(i));
            }
            self.lemma_stones_full(self.width as int);
        }
    }

    /// Dropping a stone into a column with a free row adds one stone, and there was
    /// room for it.
    pub proof fn lemma_place_count(self, x: int, c: Colors)
        requires
            self.wf(),
            self.can_place(x),
        ensures
            self.place(x, c).stones() == self.stones() + 1,
            self.place(x, c).free() == self.free() - 1,
            self.free() >= 1,
    {
        self.lemma_stones_step(self.place(x, c), x, 1, self.width as int);
        self.lemma_free_column(x);
    }

    /// Dropping a stone of one of the two sides into a column with a free row gives
    /// a legal position of the same size, in which that stone can be taken back.
    pub proof fn lemma_place(self, x: int, c: Colors)
        requires
            self.wf(),
            self.can_place(x),
            c == WHITE || c == BLACK,
        ensures
            self.place(x, c).wf(),
            self.place(x, c).can_remove(x),
            self.place(x, c).width == self.width,
            self.place(x, c).height == self.height,
    {
        let g = self.place(x, c);
        assert(g.shaped()) by {
            assert forall|i: int| 0 <= i < g.width implies (#[trigger] g.cells[i]).len()
                == g.height by {
                assert(self.cells[i].len() == self.height);
            }
        }
        assert forall|i: int| 0 <= i < g.width implies 0 <= (#[trigger] g.first[i]) <= g.height by {
            assert(0 <= self.first[i] <= self.height);
        }
        assert forall|i: int, j: int| 0 <= i < g.width && 0 <= j < g.height implies if j
            < g.first[i] {
            #[trigger] g.at(i, j) == WHITE || g.at(i, j) == BLACK
        } else {
            g.at(i, j) == EMPTY
        } by {
            assert(self.cells[i].len() == self.height);
            assert(0 <= self.first[i] <= self.height);
            if j < self.first[i] {
                assert(self.at(i, j) == WHITE || self.at(i, j) == BLACK);
            } else {
                assert(self.at(i, j) == EMPTY);
            }
        }
    }

    /// Taking back the stone that was just dropped restores the grid exactly.
    pub proof fn lemma_place_remove(self, x: int, c: Colors)
        requires
            self.wf(),
            self.can_place(x),
        ensures
            self.place(x, c).remove(x) == self,
    {
        let g = self.place(x, c).remove(x);
        assert(self.cells[x].len() == self.height);
        assert(self.at(x, self.first[x]) == EMPTY);
        assert(g.cells[x] =~= self.cells[x]);
        assert(g.cells =~= self.cells);
        assert(g.first =~= self.first);
    }

    /// Taking back the top stone of a column gives a legal position with one stone
    /// less, into which the stone can be dropped again.
    pub proof fn lemma_remove(self, x: int)
        requires
            self.wf(),
            self.can_remove(x),
        ensures
            self.remove(x).wf(),
            self.remove(x).can_place(x),
            self.remove(x).stones() == self.stones() - 1,
            self.remove(x).place(x, self.at(x, self.first[x] - 1)) == self,
    {
        let g = self.remove(x);
        assert(self.cells[x].len() == self.height);
        assert(g.shaped()) by {
            assert forall|i: int| 0 <= i < g.width implies (#[trigger] g.cells[i]).len()
                == g.height by {
                assert(self.cells[i].len() == self.height);
            }
        }
        assert forall|i: int| 0 <= i < g.width implies 0 <= (#[trigger] g.first[i]) <= g.height by {
            assert(0 <= self.first[i] <= self.height);
        }
        assert forall|i: int, j: int| 0 <= i < g.width && 0 <= j < g.height implies if j
            < g.first[i] {
            #[trigger] g.at(i, j) == WHITE || g.at(i, j) == BLACK
        } else {
            g.at(i, j) == EMPTY
        } by {
            assert(self.cells[i].len() == self.height);
            assert(0 <= self.first[i] <= self.height);
            if j < self.first[i] {
                assert(self.at(i, j) == WHITE || self.at(i, j) == BLACK);
            } else {
                assert(self.at(i, j) == EMPTY);
            }
        }
        self.lemma_stones_step(g, x, -1, self.width as int);
        let back = g.place(x, self.at(x, self.first[x] - 1));
        assert(back.cells[x] =~= self.cells[x]);
        assert(back.cells =~= self.cells);
        assert(back.first =~= self.first);
    }

    /// Mirroring twice gives the grid back.
    pub proof fn lemma_mirror_mirror(self)
        requires
            self.shaped(),
        ensures
            self.mirror().mirror() == self,
    {
        let g = self.mirror().mirror();
        assert(g.cells =~= self.cells);
        assert(g.first =~= self.first);
    }

    /// Dropping a stone and mirroring commute, with the column mirrored too.
    pub proof fn lemma_mirror_place(self, x: int, c: Colors)
        requires
            self.shaped(),
            0 <= x < self.width,
        ensures
            self.place(x, c).mirror() == self.mirror().place(self.width - 1 - x, c),
    {
        let a = self.place(x, c).mirror();
        let b = self.mirror().place(self.width - 1 - x, c);
        assert(a.cells =~= b.cells);
        assert(a.first =~= b.first);
    }

    /// The mirror image of a legal position is legal and holds as many stones.
    pub proof fn lemma_mirror_wf(self)
        requires
            self.wf(),
        ensures
            self.mirror().wf(),
            self.mirror().stones() == self.stones(),
            self.mirror().free() == self.free(),
    {
        let m = self.mirror();
        assert(m.shaped()) by {
            assert forall|x: int| 0 <= x < m.width implies (#[trigger] m.cells[x]).len()
                == m.height by {
                assert(self.cells[self.width - 1 - x].len() == self.height);
            }
        }
        assert forall|x: int| 0 <= x < m.width implies 0 <= (#[trigger] m.first[x]) <= m.height by {
            assert(0 <= self.first[self.width - 1 - x] <= self.height);
        }
        assert forall|x: int, y: int| 0 <= x < m.width && 0 <= y < m.height implies if y
            < m.first[x] {
            #[trigger] m.at(x, y) == WHITE || m.at(x, y) == BLACK
        } else {
            m.at(x, y) == EMPTY
        } by {
            let u = self.width - 1 - x;
            if y < self.first[u] {
                assert(self.at(u, y) == WHITE || self.at(u, y) == BLACK);
            } else {
                assert(self.at(u, y) == EMPTY);
            }
        }
        self.lemma_mirror_stones(self.width as int);
        self.lemma_stones_between_all(self.width as int);
    }
}

/// A board: the cell matrix and the per-column fill counters.
#[derive(Clone, Debug)]
pub struct Board {
    pub width: usize,
    pub height: usize,
    /// `cells[x][y]`: column `x`, row `y`, row 0 at the bottom.
    pub cells: Vec<Vec<Colors>>,
    /// `first[x]`: the next free row of column `x`.
    pub first: Vec<usize>,
}

impl View for Board {
    type V = Grid;

    open spec fn view(&self) -> Grid {
        Grid {
            width: self.width as nat,
            height: self.height as nat,
            cells: Seq::new(self.cells@.len(), |x: int| self.cells@[x]@),
            first: Seq::new(self.first@.len(), |x: int| self.first@[x] as int),
        }
    }
}

/// Tells whether a board of these dimensions has at least one cell and at most
/// `MAXCELLS`.
fn within_limits(width: usize, height: usize) -> (ok: bool)
    ensures
        ok == (1 <= width && 1 <= height && width * height <= MAXCELLS),
{
    if width == 0 || height == 0 {
        return false;
    }
    if width > MAXCELLS || height > MAXCELLS {
        assert(width * height > MAXCELLS) by (nonlinear_arith)
            requires
                width >= 1,
                height >= 1,
                width > MAXCELLS || height > MAXCELLS,
        ;
        return false;
    }
    assert(width * height <= MAXCELLS * MAXCELLS) by (nonlinear_arith)
        requires
            width <= MAXCELLS,
            height <= MAXCELLS,
    ;
    width * height <= MAXCELLS
}

impl Board {
    /// An empty board, or `None` where a dimension is zero or the board would have
    /// more than `MAXCELLS` cells.
    pub fn new(width: usize, height: usize) -> (r: Option<Board>)
        ensures
            r is Some <==> 1 <= width && 1 <= height && width * height <= MAXCELLS,
            r matches Some(b) ==> b@ == Grid::empty(width as nat, height as nat) && b@.wf()
                && b@.stones() == 0 && b@.maxdepth() >= 0,
    {
        if !within_limits(width, height) {
            return None;
        }
        let mut cells: Vec<Vec<Colors>> = Vec::new();
        let mut first: Vec<usize> = Vec::new();
        let mut x: usize = 0;
        while x < width
            invariant
                x <= width,
                cells@.len() == x,
                first@.len() == x,
                forall|i: int| 0 <= i < x ==> first@[i] == 0,
                forall|i: int| 0 <= i < x ==> (#[trigger] cells@[i])@.len() == height,
                forall|i: int, j: int|
                    0 <= i < x && 0 <= j < height ==> (#[trigger] cells@[i]@[j]) == EMPTY,
            decreases width - x,
        {
            let mut column: Vec<Colors> = Vec::new();
            let mut y: usize = 0;
            while y < height
                invariant
                    y <= height,
                    column@.len() == y,
                    forall|j: int| 0 <= j < y ==> column@[j] == EMPTY,
                decreases height - y,
            {
                column.push(EMPTY);
                y = y + 1;
            }
            cells.push(column);
            first.push(0);
            x = x + 1;
        }
        let b = Board { width, height, cells, first };
        proof {
            let e = Grid::empty(width as nat, height as nat);
            assert(b@.cells =~= e.cells) by {
                assert forall|i: int| 0 <= i < width implies #[trigger] b@.cells[i] =~= e.cells[i] by {
                    assert(b.cells@[i]@.len() == height);
                }
            }
            assert(b@.first =~= e.first);
            assert(b@.shaped());
            b@.lemma_stones_none(width as int);
            b@.lemma_stones_range();
        }
        Some(b)
    }

    /// Tells whether the board is a legal position.
    pub fn is_wf(&self) -> (ok: bool)
        ensures
            ok == self@.wf(),
    {
        if !within_limits(self.width, self.height) {
            return false;
        }
        if self.cells.len() != self.width || self.first.len() != self.width {
            return false;
        }
        let mut x: usize = 0;
        while x < self.width
            invariant
                x <= self.width,
                self.cells@.len() == self.width,
                self.first@.len() == self.width,
                forall|i: int| 0 <= i < x ==> (#[trigger] self@.cells[i]).len() == self.height,
                forall|i: int| 0 <= i < x ==> 0 <= (#[trigger] self@.first[i]) <= self.height,
                forall|i: int, j: int|
                    0 <= i < x && 0 <= j < self.height ==> if j < self@.first[i] {
                        #[trigger] self@.at(i, j) == WHITE || self@.at(i, j) == BLACK
                    } else {
                        self@.at(i, j) == EMPTY
                    },
            decreases self.width - x,
        {
            if self.cells[x].len() != self.height {
                assert(self@.cells[x as int].len() != self.height);
                return false;
            }
            let top: usize = self.first[x];
            if top > self.height {
                assert(!(0 <= self@.first[x as int] <= self.height));
                return false;
            }
            let mut y: usize = 0;
            while y < self.height
                invariant
                    x < self.width,
                    self.cells@.len() == self.width,
                    self.first@.len() == self.width,
                    self.cells@[x as int]@.len() == self.height,
                    top == self.first@[x as int],
                    y <= self.height,
                    forall|j: int|
                        0 <= j < y ==> if j < top {
                            #[trigger] self@.at(x as int, j) == WHITE || self@.at(x as int, j)
                                == BLACK
                        } else {
                            self@.at(x as int, j) == EMPTY
                        },
                decreases self.height - y,
            {
                let e: Colors = self.cells[x][y];
                let good: bool = if y < top {
                    e == WHITE || e == BLACK
                } else {
                    e == EMPTY
                };
                if !good {
                    assert(self@.at(x as int, y as int) == e);
                    return false;
                }
                y = y + 1;
            }
            x = x + 1;
        }
        true
    }

    /// The last ply at which a stone can still be dropped: one less than the number
    /// of cells.
    pub fn maxdepth(&self) -> (d: Depth)
        requires
            self@.wf(),
        ensures
            d == self@.maxdepth(),
    {
        assert(self.width * self.height >= 1) by (nonlinear_arith)
            requires
                self.width >= 1,
                self.height >= 1,
        ;
        (self.width * self.height - 1) as Depth
    }

    /// Number of stones on the board.
    pub fn stones(&self) -> (n: usize)
        requires
            self@.wf(),
        ensures
            n == self@.stones(),
            n <= self.width * self.height,
    {
        let mut n: usize = 0;
        let mut x: usize = 0;
        while x < self.width
            invariant
                self@.wf(),
                x <= self.width,
                n == self@.stones_upto(x as int),
                n <= x * self.height,
            decreases self.width - x,
        {
            assert(0 <= self@.first[x as int] <= self.height);
            assert(x * self.height + self.height == (x + 1) * self.height) by (nonlinear_arith);
            assert((x + 1) * self.height <= self.width * self.height) by (nonlinear_arith)
                requires
                    x + 1 <= self.width,
            ;
            n = n + self.first[x];
            x = x + 1;
        }
        n
    }

    /// A copy of the board with left and right swapped.
    pub fn mirrored(&self) -> (m: Board)
        requires
            self@.shaped(),
        ensures
            m@ == self@.mirror(),
    {
        let mut cells: Vec<Vec<Colors>> = Vec::new();
        let mut first: Vec<usize> = Vec::new();
        let mut x: usize = 0;
        while x < self.width
            invariant
                self@.shaped(),
                x <= self.width,
                cells@.len() == x,
                first@.len() == x,
                forall|i: int| 0 <= i < x ==> first@[i] == self.first@[self.width - 1 - i],
                forall|i: int| 0 <= i < x ==> (#[trigger] cells@[i])@ == self.cells@[self.width - 1 - i]@,
            decreases self.width - x,
        {
            let u: usize = self.width - 1 - x;
            assert(self@.cells[u as int].len() == self.height);
            let mut column: Vec<Colors> = Vec::new();
            let mut y: usize = 0;
            while y < self.height
                invariant
                    u < self.cells@.len(),
                    self.cells@[u as int]@.len() == self.height,
                    y <= self.height,
                    column@.len() == y,
                    forall|j: int| 0 <= j < y ==> column@[j] == self.cells@[u as int]@[j],
                decreases self.height - y,
            {
                column.push(self.cells[u][y]);
                y = y + 1;
            }
            assert(column@ =~= self.cells@[u as int]@);
            cells.push(column);
            first.push(self.first[u]);
            x = x + 1;
        }
        let m = Board { width: self.width, height: self.height, cells, first };
        proof {
            let g = self@.mirror();
            assert(m@.cells =~= g.cells);
            assert(m@.first =~= g.first);
        }
        m
    }

    /// Drops a stone of colour `color` into column `x`: writes the lowest free cell
    /// and raises the counter. The column must have a free row.
    pub fn place(&mut self, x: usize, color: Colors)
        requires
            old(self)@.shaped(),
            old(self)@.can_place(x as int),
        ensures
            final(self)@ == old(self)@.place(x as int, color),
            old(self)@.wf() ==> final(self)@.stones() == old(self)@.stones() + 1,
            old(self)@.wf() && (color == WHITE || color == BLACK) ==> final(self)@.wf(),
    {
        let y: usize = self.first[x];
        assert(self@.cells[x as int].len() == self.height);
        self.cells[x][y] = color;
        self.first[x] = y + 1;
        proof {
            if old(self)@.wf() {
                old(self)@.lemma_place_count(x as int, color);
                if color == WHITE || color == BLACK {
                    old(self)@.lemma_place(x as int, color);
                }
            }
            let g = old(self)@.place(x as int, color);
            assert(self@.cells =~= g.cells) by {
                assert forall|i: int| 0 <= i < self@.cells.len() implies #[trigger] self@.cells[i]
                    =~= g.cells[i] by {}
            }
            assert(self@.first =~= g.first);
        }
    }

    /// Takes back the top stone of column `x`: lowers the counter and clears the
    /// cell that becomes the new top. The column must hold a stone.
    pub fn remove(&mut self, x: usize)
        requires
            old(self)@.shaped(),
            old(self)@.can_remove(x as int),
        ensures
            final(self)@ == old(self)@.remove(x as int),
            old(self)@.wf() ==> final(self)@.wf() && final(self)@.stones() == old(self)@.stones() - 1,
    {
        let y: usize = self.first[x] - 1;
        assert(self@.cells[x as int].len() == self.height);
        self.first[x] = y;
        self.cells[x][y] = EMPTY;
        proof {
            if old(self)@.wf() {
                old(self)@.lemma_remove(x as int);
            }
            let g = old(self)@.remove(x as int);
            assert(self@.cells =~= g.cells) by {
                assert forall|i: int| 0 <= i < self@.cells.len() implies #[trigger] self@.cells[i]
                    =~= g.cells[i] by {}
            }
            assert(self@.first =~= g.first);
        }
    }
}

} // verus!
