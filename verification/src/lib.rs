//! Exhaustive solver for a four-in-a-row drop game on a small grid.
//!
//! Two sides drop stones into the columns of a grid; a stone falls to the lowest
//! free row; the side that first has four stones in a row, in a column or on a
//! diagonal wins. The crate computes the value of a position by negamax search
//! with alpha-beta pruning and a transposition table.
//!
//! - `board`: the grid and its fill counters, with `place` and `remove`;
//! - `win`: does a stone on a cell complete four in a row;
//! - `hash`: the two signatures of a position, kept move by move;
//! - `table`: the transposition table and its replacement rule;
//! - `order`: the order in which columns are tried;
//! - `game`: the value of a position, defined without any shortcut;
//! - `prune`: why a score found in a window tells the value;
//! - `search`: the search with a table of its own, and what it computes;
//! - `correct`: why that tells the value of the position;
//! - `shared`: a table with one lock per slot, and the search that shares it;
//! - `symmetry`: mirror images have equal values.

use vstd::prelude::*;

pub mod board;
pub mod correct;
pub mod game;
pub mod hash;
pub mod order;
pub mod prune;
pub mod search;
pub mod symmetry;
pub mod table;
pub mod win;

verus! {

/// A score, always seen from the side to move.
pub type Vals = i8;

/// A ply count.
pub type Depth = u8;

/// A cell content or a side: `WHITE`, `BLACK`, or `EMPTY` for a free cell.
pub type Colors = i8;

/// A position signature.
pub type Sigs = u64;

/// Length of a winning run.
pub const FOUR: usize = 4;

pub const EMPTY: Colors = 0;

pub const WHITE: Colors = 1;

pub const BLACK: Colors = -1;

/// The largest score; it stands for "no upper bound known".
pub const VALMAX: Vals = 127;

/// The smallest score, `-VALMAX`; it stands for "no lower bound known".
pub const VALMIN: Vals = -127;

} // verus!
pub mod shared;
