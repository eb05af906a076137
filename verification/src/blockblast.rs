//! Block Blast: an 8x8 board, a tray of three pieces, placement, simultaneous row and column
//! clears, scoring with combo multipliers and a perfect-clear bonus, the difficulty-controlled
//! tray generator, game-over detection, and the save state.
use vstd::prelude::*;
use crate::xorshift::{xorshift, xorshift_next};

verus! {

/// The board is `N` x `N` cells.
pub const N: usize = 8;
pub const CELLS: usize = 64;
/// The block palette size.
pub const COLORS: u8 = 8;
/// Pieces offered at a time.
pub const TRAY: usize = 3;
/// How many shapes the generator draws from.
pub const SHAPE_COUNT: usize = 33;

pub const POINTS_PER_CELL: i64 = 10;
/// Line points grow with the square of the lines a placement clears: 100, 400, 900, ...
pub const POINTS_PER_LINE: i64 = 100;
/// Emptying the whole board.
pub const PERFECT_BONUS: i64 = 5000;
/// A combo survives placements that clear nothing, up to this many in a row: the third
/// clearless placement ends it.
pub const COMBO_GRACE: u32 = 3;
/// Placements the solvability search may try per candidate set.
pub const SEARCH_BUDGET: u32 = 20000;

/// A piece shape: its cells as `(row, col)` offsets from the top-left corner. Pieces never
/// rotate; each orientation is its own shape.
#[derive(Clone, Copy)]
pub struct Shape {
    /// Stable name, used by the save state.
    pub id: &'static str,
    pub cells: &'static [(u8, u8)],
}

/// The largest row offset among `cells` (0 when there are none).
pub open spec fn max_row(cells: Seq<(u8, u8)>) -> int
    decreases cells.len(),
{
    if cells.len() == 0 {
        0
    } else {
        let m = max_row(cells.drop_last());
        if cells.last().0 as int > m { cells.last().0 as int } else { m }
    }
}

/// The largest column offset among `cells` (0 when there are none).
pub open spec fn max_col(cells: Seq<(u8, u8)>) -> int
    decreases cells.len(),
{
    if cells.len() == 0 {
        0
    } else {
        let m = max_col(cells.drop_last());
        if cells.last().1 as int > m { cells.last().1 as int } else { m }
    }
}

pub open spec fn shape_height(cells: Seq<(u8, u8)>) -> int {
    max_row(cells) + 1
}

pub open spec fn shape_width(cells: Seq<(u8, u8)>) -> int {
    max_col(cells) + 1
}

proof fn lemma_max_row_bounds(cells: Seq<(u8, u8)>)
    ensures
        max_row(cells) >= 0,
        forall|k: int| 0 <= k < cells.len() ==> cells[k].0 as int <= max_row(cells),
    decreases cells.len(),
{
    if cells.len() > 0 {
        let d = cells.drop_last();
        lemma_max_row_bounds(d);
        assert forall|k: int| 0 <= k < cells.len() implies cells[k].0 as int <= max_row(cells) by {
            if k < cells.len() - 1 {
                assert(cells[k] == d[k]);
            }
        }
    }
}

proof fn lemma_max_row_at_most(cells: Seq<(u8, u8)>, b: int)
    requires
        b >= 0,
        forall|k: int| 0 <= k < cells.len() ==> cells[k].0 as int <= b,
    ensures
        max_row(cells) <= b,
    decreases cells.len(),
{
    if cells.len() > 0 {
        let d = cells.drop_last();
        assert forall|k: int| 0 <= k < d.len() implies d[k].0 as int <= b by {
            assert(d[k] == cells[k]);
        }
        lemma_max_row_at_most(d, b);
        assert(cells.last() == cells[cells.len() - 1]);
    }
}

proof fn lemma_max_col_bounds(cells: Seq<(u8, u8)>)
    ensures
        max_col(cells) >= 0,
        forall|k: int| 0 <= k < cells.len() ==> cells[k].1 as int <= max_col(cells),
    decreases cells.len(),
{
    if cells.len() > 0 {
        let d = cells.drop_last();
        lemma_max_col_bounds(d);
        assert forall|k: int| 0 <= k < cells.len() implies cells[k].1 as int <= max_col(cells) by {
            if k < cells.len() - 1 {
                assert(cells[k] == d[k]);
            }
        }
    }
}

proof fn lemma_max_col_at_most(cells: Seq<(u8, u8)>, b: int)
    requires
        b >= 0,
        forall|k: int| 0 <= k < cells.len() ==> cells[k].1 as int <= b,
    ensures
        max_col(cells) <= b,
    decreases cells.len(),
{
    if cells.len() > 0 {
        let d = cells.drop_last();
        assert forall|k: int| 0 <= k < d.len() implies d[k].1 as int <= b by {
            assert(d[k] == cells[k]);
        }
        lemma_max_col_at_most(d, b);
        assert(cells.last() == cells[cells.len() - 1]);
    }
}

impl Shape {
    /// Columns the shape spans.
    pub fn width(&self) -> (w: usize)
        ensures
            w == shape_width(self.cells@),
    {
        let mut m: u8 = 0;
        let mut k: usize = 0;
        while k < self.cells.len()
            invariant
                k <= self.cells@.len(),
                m as int == max_col(self.cells@.take(k as int)),
            decreases self.cells@.len() - k,
        {
            assert(self.cells@.take(k as int + 1).drop_last() =~= self.cells@.take(k as int));
            if self.cells[k].1 > m {
                m = self.cells[k].1;
            }
            k += 1;
        }
        assert(self.cells@.take(k as int) =~= self.cells@);
        m as usize + 1
    }

    /// Rows the shape spans.
    pub fn height(&self) -> (h: usize)
        ensures
            h == shape_height(self.cells@),
    {
        let mut m: u8 = 0;
        let mut k: usize = 0;
        while k < self.cells.len()
            invariant
                k <= self.cells@.len(),
                m as int == max_row(self.cells@.take(k as int)),
            decreases self.cells@.len() - k,
        {
            assert(self.cells@.take(k as int + 1).drop_last() =~= self.cells@.take(k as int));
            if self.cells[k].0 > m {
                m = self.cells[k].0;
            }
            k += 1;
        }
        assert(self.cells@.take(k as int) =~= self.cells@);
        m as usize + 1
    }

    /// Cells in the shape.
    pub fn size(&self) -> (n: usize)
        ensures
            n == self.cells@.len(),
    {
        self.cells.len()
    }
}

/// The cells of shape `i`, in the order the shape lists them.
pub open spec fn shape_cells(i: int) -> Seq<(u8, u8)> {
    if i == 0 {
        seq![(0u8, 0u8)]
    } else if i == 1 {
        seq![(0u8, 0u8), (0u8, 1u8)]
    } else if i == 2 {
        seq![(0u8, 0u8), (0u8, 1u8), (0u8, 2u8)]
    } else if i == 3 {
        seq![(0u8, 0u8), (0u8, 1u8), (0u8, 2u8), (0u8, 3u8)]
    } else if i == 4 {
        seq![(0u8, 0u8), (0u8, 1u8), (0u8, 2u8), (0u8, 3u8), (0u8, 4u8)]
    } else if i == 5 {
        seq![(0u8, 0u8), (1u8, 0u8)]
    } else if i == 6 {
        seq![(0u8, 0u8), (1u8, 0u8), (2u8, 0u8)]
    } else if i == 7 {
        seq![(0u8, 0u8), (1u8, 0u8), (2u8, 0u8), (3u8, 0u8)]
    } else if i == 8 {
        seq![(0u8, 0u8), (1u8, 0u8), (2u8, 0u8), (3u8, 0u8), (4u8, 0u8)]
    } else if i == 9 {
        seq![(0u8, 0u8), (0u8, 1u8), (1u8, 0u8), (1u8, 1u8)]
    } else if i == 10 {
        seq![(0u8, 0u8), (0u8, 1u8), (0u8, 2u8), (1u8, 0u8), (1u8, 1u8), (1u8, 2u8), (2u8, 0u8), (2u8, 1u8), (2u8, 2u8)]
    } else if i == 11 {
        seq![(0u8, 0u8), (1u8, 0u8), (1u8, 1u8)]
    } else if i == 12 {
        seq![(0u8, 1u8), (1u8, 0u8), (1u8, 1u8)]
    } else if i == 13 {
        seq![(0u8, 0u8), (0u8, 1u8), (1u8, 0u8)]
    } else if i == 14 {
        seq![(0u8, 0u8), (0u8, 1u8), (1u8, 1u8)]
    } else if i == 15 {
        seq![(0u8, 0u8), (1u8, 0u8), (2u8, 0u8), (2u8, 1u8)]
    } else if i == 16 {
        seq![(0u8, 1u8), (1u8, 1u8), (2u8, 0u8), (2u8, 1u8)]
    } else if i == 17 {
        seq![(0u8, 0u8), (0u8, 1u8), (1u8, 0u8), (2u8, 0u8)]
    } else if i == 18 {
        seq![(0u8, 0u8), (0u8, 1u8), (1u8, 1u8), (2u8, 1u8)]
    } else if i == 19 {
        seq![(0u8, 0u8), (1u8, 0u8), (2u8, 0u8), (2u8, 1u8), (2u8, 2u8)]
    } else if i == 20 {
        seq![(0u8, 2u8), (1u8, 2u8), (2u8, 0u8), (2u8, 1u8), (2u8, 2u8)]
    } else if i == 21 {
        seq![(0u8, 0u8), (0u8, 1u8), (0u8, 2u8), (1u8, 0u8), (2u8, 0u8)]
    } else if i == 22 {
        seq![(0u8, 0u8), (0u8, 1u8), (0u8, 2u8), (1u8, 2u8), (2u8, 2u8)]
    } else if i == 23 {
        seq![(0u8, 0u8), (0u8, 1u8), (1u8, 0u8), (1u8, 1u8), (2u8, 0u8), (2u8, 1u8)]
    } else if i == 24 {
        seq![(0u8, 0u8), (0u8, 1u8), (0u8, 2u8), (1u8, 0u8), (1u8, 1u8), (1u8, 2u8)]
    } else if i == 25 {
        seq![(0u8, 0u8), (0u8, 1u8), (0u8, 2u8), (1u8, 1u8)]
    } else if i == 26 {
        seq![(0u8, 1u8), (1u8, 0u8), (1u8, 1u8), (1u8, 2u8)]
    } else if i == 27 {
        seq![(0u8, 0u8), (1u8, 0u8), (1u8, 1u8), (2u8, 0u8)]
    } else if i == 28 {
        seq![(0u8, 1u8), (1u8, 0u8), (1u8, 1u8), (2u8, 1u8)]
    } else if i == 29 {
        seq![(0u8, 1u8), (0u8, 2u8), (1u8, 0u8), (1u8, 1u8)]
    } else if i == 30 {
        seq![(0u8, 0u8), (0u8, 1u8), (1u8, 1u8), (1u8, 2u8)]
    } else if i == 31 {
        seq![(0u8, 0u8), (1u8, 0u8), (1u8, 1u8), (2u8, 1u8)]
    } else if i == 32 {
        seq![(0u8, 1u8), (1u8, 0u8), (1u8, 1u8), (2u8, 0u8)]
    } else {
        seq![]
    }
}

/// The stable name of shape `i`.
pub open spec fn shape_name(i: int) -> Seq<char> {
    if i == 0 {
        "dot"@
    } else if i == 1 {
        "h2"@
    } else if i == 2 {
        "h3"@
    } else if i == 3 {
        "h4"@
    } else if i == 4 {
        "h5"@
    } else if i == 5 {
        "v2"@
    } else if i == 6 {
        "v3"@
    } else if i == 7 {
        "v4"@
    } else if i == 8 {
        "v5"@
    } else if i == 9 {
        "sq2"@
    } else if i == 10 {
        "sq3"@
    } else if i == 11 {
        "L_bl"@
    } else if i == 12 {
        "L_br"@
    } else if i == 13 {
        "L_tl"@
    } else if i == 14 {
        "L_tr"@
    } else if i == 15 {
        "L23_bl"@
    } else if i == 16 {
        "L23_br"@
    } else if i == 17 {
        "L23_tl"@
    } else if i == 18 {
        "L23_tr"@
    } else if i == 19 {
        "L33_bl"@
    } else if i == 20 {
        "L33_br"@
    } else if i == 21 {
        "L33_tl"@
    } else if i == 22 {
        "L33_tr"@
    } else if i == 23 {
        "rect2x3"@
    } else if i == 24 {
        "rect3x2"@
    } else if i == 25 {
        "T_up"@
    } else if i == 26 {
        "T_dn"@
    } else if i == 27 {
        "T_lt"@
    } else if i == 28 {
        "T_rt"@
    } else if i == 29 {
        "S_h"@
    } else if i == 30 {
        "Z_h"@
    } else if i == 31 {
        "S_v"@
    } else if i == 32 {
        "Z_v"@
    } else {
        seq![]
    }
}

/// Every shape fits in a 5x5 box and has between one and nine cells.
pub proof fn lemma_shape_small(i: int)
    requires
        0 <= i < SHAPE_COUNT,
    ensures
        1 <= shape_cells(i).len() <= 9,
        forall|k: int| 0 <= k < shape_cells(i).len() ==> shape_cells(i)[k].0 < 5 && shape_cells(i)[k].1 < 5,
        1 <= shape_height(shape_cells(i)) <= 5,
        1 <= shape_width(shape_cells(i)) <= 5,
{
    let s = shape_cells(i);
    assert(1 <= s.len() <= 9 && forall|k: int| 0 <= k < s.len() ==> s[k].0 < 5 && s[k].1 < 5);
    lemma_max_row_bounds(s);
    lemma_max_col_bounds(s);
    lemma_max_row_at_most(s, 4);
    lemma_max_col_at_most(s, 4);
}

/// The shape at index `i` of the generator's catalogue.
pub fn shape_at(i: usize) -> (s: Shape)
    requires
        i < SHAPE_COUNT,
    ensures
        s.cells@ == shape_cells(i as int),
        s.id@ == shape_name(i as int),
{
    proof {
        reveal_strlit("dot");
    }
    match i {
        0 => Shape { id: "dot", cells: &[(0, 0)] },
        1 => Shape { id: "h2", cells: &[(0, 0), (0, 1)] },
        2 => Shape { id: "h3", cells: &[(0, 0), (0, 1), (0, 2)] },
        3 => Shape { id: "h4", cells: &[(0, 0), (0, 1), (0, 2), (0, 3)] },
        4 => Shape { id: "h5", cells: &[(0, 0), (0, 1), (0, 2), (0, 3), (0, 4)] },
        5 => Shape { id: "v2", cells: &[(0, 0), (1, 0)] },
        6 => Shape { id: "v3", cells: &[(0, 0), (1, 0), (2, 0)] },
        7 => Shape { id: "v4", cells: &[(0, 0), (1, 0), (2, 0), (3, 0)] },
        8 => Shape { id: "v5", cells: &[(0, 0), (1, 0), (2, 0), (3, 0), (4, 0)] },
        9 => Shape { id: "sq2", cells: &[(0, 0), (0, 1), (1, 0), (1, 1)] },
        10 => Shape { id: "sq3", cells: &[(0, 0), (0, 1), (0, 2), (1, 0), (1, 1), (1, 2), (2, 0), (2, 1), (2, 2)] },
        11 => Shape { id: "L_bl", cells: &[(0, 0), (1, 0), (1, 1)] },
        12 => Shape { id: "L_br", cells: &[(0, 1), (1, 0), (1, 1)] },
        13 => Shape { id: "L_tl", cells: &[(0, 0), (0, 1), (1, 0)] },
        14 => Shape { id: "L_tr", cells: &[(0, 0), (0, 1), (1, 1)] },
        15 => Shape { id: "L23_bl", cells: &[(0, 0), (1, 0), (2, 0), (2, 1)] },
        16 => Shape { id: "L23_br", cells: &[(0, 1), (1, 1), (2, 0), (2, 1)] },
        17 => Shape { id: "L23_tl", cells: &[(0, 0), (0, 1), (1, 0), (2, 0)] },
        18 => Shape { id: "L23_tr", cells: &[(0, 0), (0, 1), (1, 1), (2, 1)] },
        19 => Shape { id: "L33_bl", cells: &[(0, 0), (1, 0), (2, 0), (2, 1), (2, 2)] },
        20 => Shape { id: "L33_br", cells: &[(0, 2), (1, 2), (2, 0), (2, 1), (2, 2)] },
        21 => Shape { id: "L33_tl", cells: &[(0, 0), (0, 1), (0, 2), (1, 0), (2, 0)] },
        22 => Shape { id: "L33_tr", cells: &[(0, 0), (0, 1), (0, 2), (1, 2), (2, 2)] },
        23 => Shape { id: "rect2x3", cells: &[(0, 0), (0, 1), (1, 0), (1, 1), (2, 0), (2, 1)] },
        24 => Shape { id: "rect3x2", cells: &[(0, 0), (0, 1), (0, 2), (1, 0), (1, 1), (1, 2)] },
        25 => Shape { id: "T_up", cells: &[(0, 0), (0, 1), (0, 2), (1, 1)] },
        26 => Shape { id: "T_dn", cells: &[(0, 1), (1, 0), (1, 1), (1, 2)] },
        27 => Shape { id: "T_lt", cells: &[(0, 0), (1, 0), (1, 1), (2, 0)] },
        28 => Shape { id: "T_rt", cells: &[(0, 1), (1, 0), (1, 1), (2, 1)] },
        29 => Shape { id: "S_h", cells: &[(0, 1), (0, 2), (1, 0), (1, 1)] },
        30 => Shape { id: "Z_h", cells: &[(0, 0), (0, 1), (1, 1), (1, 2)] },
        31 => Shape { id: "S_v", cells: &[(0, 0), (1, 0), (1, 1), (2, 1)] },
        _ => Shape { id: "Z_v", cells: &[(0, 1), (1, 0), (1, 1), (2, 0)] },
    }
}

/// A shape in a color, as the tray offers it.
#[derive(Clone, Copy, PartialEq, Eq, Debug, Structural)]
pub struct Piece {
    /// Index into the shape catalogue ([`shape_at`]).
    pub shape: usize,
    /// Palette index, below [`COLORS`].
    pub color: u8,
}

impl Piece {
    /// A piece names a shape of the catalogue and a palette color.
    pub open spec fn wf(self) -> bool {
        self.shape < SHAPE_COUNT && self.color < COLORS
    }

    pub fn shape(&self) -> (s: Shape)
        requires
            self.shape < SHAPE_COUNT,
        ensures
            s.cells@ == shape_cells(self.shape as int),
            s.id@ == shape_name(self.shape as int),
    {
        shape_at(self.shape)
    }
}

/// The board: a color per cell, row-major, `None` where empty.
pub type Grid = [Option<u8>; CELLS];

/// The row-major index of `(row, col)`.
pub open spec fn cell(row: int, col: int) -> int {
    row * 8 + col
}

pub fn idx(row: usize, col: usize) -> (i: usize)
    requires
        row * 8 + col <= usize::MAX,
    ensures
        i == cell(row as int, col as int),
{
    row * N + col
}

/// The shape lies inside the board with its top-left corner at `(row, col)`.
pub open spec fn in_bounds_spec(cells: Seq<(u8, u8)>, row: int, col: int) -> bool {
    &&& row >= 0
    &&& col >= 0
    &&& row + shape_height(cells) <= 8
    &&& col + shape_width(cells) <= 8
}

/// The shape lies inside the board at `(row, col)` and every cell it would take is empty.
pub open spec fn fits_spec(g: Seq<Option<u8>>, cells: Seq<(u8, u8)>, row: int, col: int) -> bool {
    &&& in_bounds_spec(cells, row, col)
    &&& forall|k: int| 0 <= k < cells.len()
        ==> (#[trigger] g[cell(row + cells[k].0, col + cells[k].1)]).is_none()
}

/// The shape fits at some position of the board.
pub open spec fn fits_somewhere(g: Seq<Option<u8>>, cells: Seq<(u8, u8)>) -> bool {
    exists|row: int, col: int| fits_spec(g, cells, row, col)
}

/// Whether `shape` lies inside the board with its top-left corner at `(row, col)`.
pub fn in_bounds(shape: &Shape, row: i32, col: i32) -> (b: bool)
    ensures
        b == in_bounds_spec(shape.cells@, row as int, col as int),
{
    let h = shape.height();
    let w = shape.width();
    proof {
        lemma_max_row_at_most(shape.cells@, 255);
        lemma_max_col_at_most(shape.cells@, 255);
    }
    row >= 0 && col >= 0 && row as usize + h <= N && col as usize + w <= N
}

/// A cell of a shape placed in bounds lies on the board.
proof fn lemma_cell_on_board(cells: Seq<(u8, u8)>, row: int, col: int, k: int)
    requires
        in_bounds_spec(cells, row, col),
        0 <= k < cells.len(),
    ensures
        0 <= row + cells[k].0 < 8,
        0 <= col + cells[k].1 < 8,
        0 <= cell(row + cells[k].0, col + cells[k].1) < 64,
{
    lemma_max_row_bounds(cells);
    lemma_max_col_bounds(cells);
}

/// Whether `shape` fits at `(row, col)`: inside the board and on empty cells only.
pub fn fits(grid: &Grid, shape: &Shape, row: i32, col: i32) -> (b: bool)
    ensures
        b == fits_spec(grid@, shape.cells@, row as int, col as int),
{
    if !in_bounds(shape, row, col) {
        return false;
    }
    let r0 = row as usize;
    let c0 = col as usize;
    let mut k: usize = 0;
    while k < shape.cells.len()
        invariant
            in_bounds_spec(shape.cells@, row as int, col as int),
            r0 == row,
            c0 == col,
            k <= shape.cells@.len(),
            forall|j: int| 0 <= j < k ==> (#[trigger] grid@[cell(
                row + shape.cells@[j].0,
                col + shape.cells@[j].1,
            )]).is_none(),
        decreases shape.cells@.len() - k,
    {
        proof {
            lemma_cell_on_board(shape.cells@, row as int, col as int, k as int);
        }
        let (r, c) = shape.cells[k];
        if grid[idx(r0 + r as usize, c0 + c as usize)].is_some() {
            return false;
        }
        k += 1;
    }
    true
}

/// Whether `shape` fits anywhere on the board.
pub fn fits_anywhere(grid: &Grid, shape: &Shape) -> (b: bool)
    requires
        shape_height(shape.cells@) <= 8,
        shape_width(shape.cells@) <= 8,
    ensures
        b == fits_somewhere(grid@, shape.cells@),
{
    let h = shape.height();
    let w = shape.width();
    let mut r: usize = 0;
    while r <= N - h
        invariant
            h == shape_height(shape.cells@),
            w == shape_width(shape.cells@),
            h <= 8,
            w <= 8,
            r <= 9 - h,
            forall|r2: int, c2: int| 0 <= r2 < r ==> !fits_spec(grid@, shape.cells@, r2, c2),
        decreases 9 - h - r,
    {
        let mut c: usize = 0;
        while c <= N - w
            invariant
                h == shape_height(shape.cells@),
                w == shape_width(shape.cells@),
                h <= 8,
                w <= 8,
                r <= 8 - h,
                c <= 9 - w,
                forall|r2: int, c2: int| 0 <= r2 < r ==> !fits_spec(grid@, shape.cells@, r2, c2),
                forall|c2: int| 0 <= c2 < c ==> !fits_spec(grid@, shape.cells@, r as int, c2),
            decreases 9 - w - c,
        {
            if fits(grid, shape, r as i32, c as i32) {
                return true;
            }
            c += 1;
        }
        proof {
            assert forall|c2: int| !fits_spec(grid@, shape.cells@, r as int, c2) by {
                if 0 <= c2 < c {
                } else {
                    assert(!in_bounds_spec(shape.cells@, r as int, c2));
                }
            }
        }
        r += 1;
    }
    proof {
        assert forall|r2: int, c2: int| !fits_spec(grid@, shape.cells@, r2, c2) by {
            if 0 <= r2 < r {
            } else {
                assert(!in_bounds_spec(shape.cells@, r2, c2));
            }
        }
    }
    false
}

/// Some cell of the shape placed at `(row, col)` is cell `i`.
pub open spec fn covers(cells: Seq<(u8, u8)>, row: int, col: int, i: int) -> bool {
    exists|k: int| 0 <= k < cells.len() && cell(row + cells[k].0, col + cells[k].1) == i
}

/// The board with the shape placed at `(row, col)` in `color`.
pub open spec fn stamp_spec(
    g: Seq<Option<u8>>,
    cells: Seq<(u8, u8)>,
    row: int,
    col: int,
    color: u8,
) -> Seq<Option<u8>> {
    Seq::new(g.len(), |i: int| if covers(cells, row, col, i) { Some(color) } else { g[i] })
}

fn stamp(grid: &mut Grid, shape: &Shape, row: usize, col: usize, color: u8)
    requires
        in_bounds_spec(shape.cells@, row as int, col as int),
    ensures
        final(grid)@ == stamp_spec(old(grid)@, shape.cells@, row as int, col as int, color),
{
    let ghost g0 = grid@;
    let mut k: usize = 0;
    while k < shape.cells.len()
        invariant
            in_bounds_spec(shape.cells@, row as int, col as int),
            k <= shape.cells@.len(),
            g0.len() == 64,
            grid@ == stamp_spec(g0, shape.cells@.take(k as int), row as int, col as int, color),
        decreases shape.cells@.len() - k,
    {
        proof {
            lemma_cell_on_board(shape.cells@, row as int, col as int, k as int);
        }
        let (r, c) = shape.cells[k];
        let i = idx(row + r as usize, col + c as usize);
        grid[i] = Some(color);
        proof {
            let t0 = shape.cells@.take(k as int);
            let t1 = shape.cells@.take(k as int + 1);
            assert forall|j: int| 0 <= j < 64 implies
                covers(t1, row as int, col as int, j)
                == (covers(t0, row as int, col as int, j) || j == i as int) by {
                if covers(t1, row as int, col as int, j) {
                    let m = choose|m: int| 0 <= m < t1.len()
                        && cell(row + t1[m].0, col + t1[m].1) == j;
                    if m < k {
                        assert(t0[m] == t1[m]);
                    }
                }
                if covers(t0, row as int, col as int, j) {
                    let m = choose|m: int| 0 <= m < t0.len()
                        && cell(row + t0[m].0, col + t0[m].1) == j;
                    assert(t0[m] == t1[m]);
                }
                if j == i as int {
                    assert(t1[k as int] == shape.cells@[k as int]);
                }
            }
            assert(grid@ =~= stamp_spec(g0, t1, row as int, col as int, color));
        }
        k += 1;
    }
    proof {
        assert(shape.cells@.take(k as int) =~= shape.cells@);
    }
}

/// Every cell of row `r` is filled.
pub open spec fn row_full(g: Seq<Option<u8>>, r: int) -> bool {
    forall|c: int| 0 <= c < 8 ==> (#[trigger] g[cell(r, c)]).is_some()
}

/// Every cell of column `c` is filled.
pub open spec fn col_full(g: Seq<Option<u8>>, c: int) -> bool {
    forall|r: int| 0 <= r < 8 ==> (#[trigger] g[cell(r, c)]).is_some()
}

/// `s` lists, in ascending order and once each, exactly the full rows of `g`.
pub open spec fn lists_rows(s: Seq<usize>, g: Seq<Option<u8>>) -> bool {
    &&& forall|i: int, j: int| 0 <= i < j < s.len() ==> s[i] < s[j]
    &&& forall|i: int| 0 <= i < s.len() ==> s[i] < 8 && row_full(g, s[i] as int)
    &&& forall|r: int| 0 <= r < 8 && #[trigger] row_full(g, r) ==> s.contains(r as usize)
}

/// `s` lists, in ascending order and once each, exactly the full columns of `g`.
pub open spec fn lists_cols(s: Seq<usize>, g: Seq<Option<u8>>) -> bool {
    &&& forall|i: int, j: int| 0 <= i < j < s.len() ==> s[i] < s[j]
    &&& forall|i: int| 0 <= i < s.len() ==> s[i] < 8 && col_full(g, s[i] as int)
    &&& forall|c: int| 0 <= c < 8 && #[trigger] col_full(g, c) ==> s.contains(c as usize)
}

/// The full rows and full columns, each in ascending order.
pub fn full_lines(grid: &Grid) -> (res: (Vec<usize>, Vec<usize>))
    ensures
        lists_rows(res.0@, grid@),
        lists_cols(res.1@, grid@),
{
    let mut rows: Vec<usize> = Vec::new();
    let mut cols: Vec<usize> = Vec::new();
    let mut a: usize = 0;
    while a < N
        invariant
            a <= 8,
            forall|i: int, j: int| 0 <= i < j < rows@.len() ==> rows@[i] < rows@[j],
            forall|i: int| 0 <= i < rows@.len() ==> rows@[i] < a && row_full(grid@, rows@[i] as int),
            forall|r: int| 0 <= r < a && row_full(grid@, r) ==> rows@.contains(r as usize),
            forall|i: int, j: int| 0 <= i < j < cols@.len() ==> cols@[i] < cols@[j],
            forall|i: int| 0 <= i < cols@.len() ==> cols@[i] < a && col_full(grid@, cols@[i] as int),
            forall|c: int| 0 <= c < a && col_full(grid@, c) ==> cols@.contains(c as usize),
        decreases 8 - a,
    {
        let mut row_ok = true;
        let mut col_ok = true;
        let mut b: usize = 0;
        while b < N
            invariant
                a < 8,
                b <= 8,
                row_ok == (forall|c: int| 0 <= c < b ==> (#[trigger] grid@[cell(a as int, c)]).is_some()),
                col_ok == (forall|r: int| 0 <= r < b ==> (#[trigger] grid@[cell(r, a as int)]).is_some()),
            decreases 8 - b,
        {
            if grid[idx(a, b)].is_none() {
                row_ok = false;
            }
            if grid[idx(b, a)].is_none() {
                col_ok = false;
            }
            b += 1;
        }
        let ghost rows0 = rows@;
        let ghost cols0 = cols@;
        if row_ok {
            rows.push(a);
            proof {
                assert forall|r: int| 0 <= r < a + 1 && row_full(grid@, r) implies rows@.contains(r as usize) by {
                    if r < a {
                        let m = choose|m: int| 0 <= m < rows0.len() && rows0[m] == r as usize;
                        assert(rows@[m] == rows0[m]);
                    } else {
                        assert(rows@[rows@.len() - 1] == a);
                    }
                }
            }
        }
        if col_ok {
            cols.push(a);
            proof {
                assert forall|c: int| 0 <= c < a + 1 && col_full(grid@, c) implies cols@.contains(c as usize) by {
                    if c < a {
                        let m = choose|m: int| 0 <= m < cols0.len() && cols0[m] == c as usize;
                        assert(cols@[m] == cols0[m]);
                    } else {
                        assert(cols@[cols@.len() - 1] == a);
                    }
                }
            }
        }
        a += 1;
    }
    (rows, cols)
}

/// Cell `i` lies on one of the listed rows or columns.
pub open spec fn on_lines(rows: Seq<usize>, cols: Seq<usize>, i: int) -> bool {
    rows.contains((i / 8) as usize) || cols.contains((i % 8) as usize)
}

/// The board with every cell on the listed rows and columns emptied.
pub open spec fn clear_spec(g: Seq<Option<u8>>, rows: Seq<usize>, cols: Seq<usize>) -> Seq<Option<u8>> {
    Seq::new(g.len(), |i: int| if on_lines(rows, cols, i) { None } else { g[i] })
}

/// The filled cells among the first `n` that lie on the listed lines, with their colors, in
/// board order.
pub open spec fn cleared_upto(g: Seq<Option<u8>>, rows: Seq<usize>, cols: Seq<usize>, n: int) -> Seq<(usize, u8)>
    decreases n,
{
    if n <= 0 {
        seq![]
    } else {
        let before = cleared_upto(g, rows, cols, n - 1);
        if on_lines(rows, cols, n - 1) && g[n - 1].is_some() {
            before.push(((n - 1) as usize, g[n - 1].unwrap()))
        } else {
            before
        }
    }
}

fn slice_contains(s: &[usize], x: usize) -> (b: bool)
    ensures
        b == s@.contains(x),
{
    let mut k: usize = 0;
    while k < s.len()
        invariant
            k <= s@.len(),
            forall|j: int| 0 <= j < k ==> s@[j] != x,
        decreases s@.len() - k,
    {
        if s[k] == x {
            return true;
        }
        k += 1;
    }
    false
}

/// Empty every cell in `rows` and `cols` at once, so a cell where a full row crosses a full
/// column is cleared once. Returns the emptied cells with their colors, row-major.
fn clear_lines(grid: &mut Grid, rows: &[usize], cols: &[usize]) -> (cleared: Vec<(usize, u8)>)
    ensures
        final(grid)@ == clear_spec(old(grid)@, rows@, cols@),
        cleared@ == cleared_upto(old(grid)@, rows@, cols@, 64),
{
    let ghost g0 = grid@;
    let mut cleared: Vec<(usize, u8)> = Vec::new();
    let mut i: usize = 0;
    while i < CELLS
        invariant
            i <= 64,
            g0.len() == 64,
            grid@.len() == 64,
            forall|j: int| 0 <= j < 64 ==> #[trigger] grid@[j] == if j < i && on_lines(rows@, cols@, j) { None } else { g0[j] },
            cleared@ == cleared_upto(g0, rows@, cols@, i as int),
        decreases 64 - i,
    {
        if slice_contains(rows, i / N) || slice_contains(cols, i % N) {
            if let Some(color) = grid[i] {
                grid[i] = None;
                cleared.push((i, color));
            }
        }
        i += 1;
    }
    proof {
        assert(grid@ =~= clear_spec(g0, rows@, cols@));
    }
    cleared
}

/// Emptying the listed lines, when they are exactly the full ones, empties every cell on a full
/// row or column.
pub open spec fn clear_full(g: Seq<Option<u8>>) -> Seq<Option<u8>> {
    Seq::new(g.len(), |i: int| if row_full(g, i / 8) || col_full(g, i % 8) { None } else { g[i] })
}

proof fn lemma_clear_is_clear_full(g: Seq<Option<u8>>, rows: Seq<usize>, cols: Seq<usize>)
    requires
        g.len() == 64,
        lists_rows(rows, g),
        lists_cols(cols, g),
    ensures
        clear_spec(g, rows, cols) == clear_full(g),
{
    assert forall|i: int| 0 <= i < 64 implies on_lines(rows, cols, i) == (row_full(g, i / 8) || col_full(g, i % 8)) by {
        if rows.contains((i / 8) as usize) {
            let m = choose|m: int| 0 <= m < rows.len() && rows[m] == (i / 8) as usize;
            assert(row_full(g, rows[m] as int));
        }
        if cols.contains((i % 8) as usize) {
            let m = choose|m: int| 0 <= m < cols.len() && cols[m] == (i % 8) as usize;
            assert(col_full(g, cols[m] as int));
        }
    }
    assert(clear_spec(g, rows, cols) =~= clear_full(g));
}

/// The score multiplier of a combo streak, in halves: x1 through x4 in half steps.
pub open spec fn combo_halves(combo: u32) -> int {
    if combo <= 1 {
        2
    } else if combo <= 6 {
        combo as int + 1
    } else {
        8
    }
}

/// The points one placement earns: 10 a cell, 100 x lines squared, the whole multiplied by the
/// combo streak's multiplier, plus the perfect-clear bonus.
pub open spec fn move_score_spec(cells: int, lines: int, combo: u32, perfect: bool) -> int {
    (cells * 10 + lines * lines * 100) * combo_halves(combo) / 2 + if perfect { 5000int } else { 0int }
}

/// The points one placement earns: 10 a cell, 100 x lines squared, the whole multiplied by the
/// combo streak's multiplier (x1 through x4 in half steps), plus the perfect-clear bonus.
pub fn move_score(cells: usize, lines: usize, combo: u32, perfect: bool) -> (score: i64)
    requires
        lines * lines <= usize::MAX,
        (cells * 10 + lines * lines * 100) * 8 + 5000 <= i64::MAX,
    ensures
        score == move_score_spec(cells as int, lines as int, combo, perfect),
{
    proof {
        assert(lines * lines <= (cells * 10 + lines * lines * 100)) by (nonlinear_arith)
            requires cells >= 0, lines >= 0;
    }
    let base = cells as i64 * POINTS_PER_CELL + (lines * lines) as i64 * POINTS_PER_LINE;
    let halves: i64 = match combo {
        0 | 1 => 2,
        2 => 3,
        3 => 4,
        4 => 5,
        5 => 6,
        6 => 7,
        _ => 8,
    };
    proof {
        assert(base * halves <= base * 8) by (nonlinear_arith)
            requires base >= 0, halves <= 8;
        assert(base * halves >= 0) by (nonlinear_arith)
            requires base >= 0, halves >= 0;
    }
    base * halves / 2 + if perfect { PERFECT_BONUS } else { 0 }
}

/// The three rule sets: how hard the generator works to hand out a tray that fits.
#[derive(Clone, Copy, PartialEq, Eq, Debug, Default, Structural)]
pub enum Difficulty {
    /// Every tray can be placed in full; a set that fails the check is rebuilt piece by piece.
    Easy,
    /// Up to ten tries for a set that fits, then whatever came up.
    #[default]
    Normal,
    /// Pure chance.
    Hard,
}

impl Difficulty {
    pub open spec fn attempts_spec(self) -> int {
        match self {
            Difficulty::Easy => 20,
            Difficulty::Normal => 10,
            Difficulty::Hard => 0,
        }
    }

    /// Random sets the generator tries before its fallback.
    fn attempts(self) -> (n: usize)
        ensures
            n == self.attempts_spec(),
    {
        match self {
            Difficulty::Easy => 20,
            Difficulty::Normal => 10,
            Difficulty::Hard => 0,
        }
    }
}

/// Everything one placement did: what the page needs to animate it, score it on screen, and
/// pick the haptics.
#[derive(Clone, Debug)]
pub struct Placement {
    /// The cells the piece filled.
    pub cells: Vec<usize>,
    pub rows: Vec<usize>,
    pub cols: Vec<usize>,
    /// The cells the clears emptied, with the color each had (the piece's own included).
    pub cleared: Vec<(usize, u8)>,
    pub gain: i64,
    /// The combo streak after this placement (0 when it has no combo running).
    pub combo: u32,
    pub perfect: bool,
    /// A fresh tray was dealt because this placement used the last piece.
    pub refilled: bool,
    pub game_over: bool,
}

/// How big a placement's moment is, from the lines it cleared, its combo and whether it
/// emptied the board.
pub open spec fn tier_spec(lines: int, combo: u32, perfect: bool) -> u8 {
    if lines == 0 {
        0
    } else if perfect {
        6
    } else if combo >= 7 || lines >= 5 {
        5
    } else if combo >= 5 || lines >= 4 {
        4
    } else if combo >= 3 || lines >= 3 {
        3
    } else if combo >= 2 || lines >= 2 {
        2
    } else {
        1
    }
}

impl Placement {
    pub fn lines(&self) -> (n: usize)
        requires
            self.rows@.len() + self.cols@.len() <= usize::MAX,
        ensures
            n == self.rows@.len() + self.cols@.len(),
    {
        self.rows.len() + self.cols.len()
    }

    /// How big the moment is, 0 (no clear) to 6 (the board emptied): the banner, shake,
    /// confetti and haptics all scale from it.
    pub fn tier(&self) -> (t: u8)
        requires
            self.rows@.len() + self.cols@.len() <= usize::MAX,
        ensures
            t == tier_spec((self.rows@.len() + self.cols@.len()) as int, self.combo, self.perfect),
    {
        let lines = self.lines();
        let combo = self.combo;
        if lines == 0 {
            0
        } else if self.perfect {
            6
        } else if combo >= 7 || lines >= 5 {
            5
        } else if combo >= 5 || lines >= 4 {
            4
        } else if combo >= 3 || lines >= 3 {
            3
        } else if combo >= 2 || lines >= 2 {
            2
        } else {
            1
        }
    }
}

/// The generator's xorshift state.
pub struct Rng(pub u64);

/// Three pieces drawn from generator state `st`, and the state after: for each, a color
/// picked from those of `colors` not used yet, then a shape.
pub open spec fn draw(st: u64, colors: Seq<u8>, n: nat) -> (Seq<Piece>, u64)
    decreases n,
{
    if n == 0 || colors.len() == 0 {
        (Seq::empty(), st)
    } else {
        let s1 = xorshift(st);
        let at = (s1 % (colors.len() as u64)) as int;
        let s2 = xorshift(s1);
        let piece = Piece { shape: (s2 % (SHAPE_COUNT as u64)) as usize, color: colors[at] };
        let rest = draw(s2, colors.remove(at), (n - 1) as nat);
        (seq![piece] + rest.0, rest.1)
    }
}

/// The palette, in order.
pub open spec fn palette() -> Seq<u8> {
    Seq::new(COLORS as nat, |j: int| j as u8)
}

/// The random set the generator deals from state `st`, and the state after.
pub open spec fn draw_set(st: u64) -> (Seq<Piece>, u64) {
    draw(st, palette(), TRAY as nat)
}

/// The generator's state after `i` random sets from `st`.
pub open spec fn after_draws(st: u64, i: nat) -> u64
    decreases i,
{
    if i == 0 { st } else { draw_set(after_draws(st, (i - 1) as nat)).1 }
}

/// The shapes of a set, in dealing order.
pub open spec fn set_shapes(set: Seq<Piece>) -> Seq<usize> {
    seq![set[0].shape, set[1].shape, set[2].shape]
}

/// A set the generator keeps on board `g`: the bounded search did not find it impossible.
pub open spec fn keeps(g: Seq<Option<u8>>, set: Seq<Piece>) -> bool {
    orders_spec(g, set_shapes(set), 0, SEARCH_BUDGET as int) != Some(false)
}

/// The first of the random sets `i` up to `n` (counted from state `st`) that board `g` keeps.
pub open spec fn first_kept(g: Seq<Option<u8>>, st: u64, i: int, n: int) -> Option<int>
    decreases n - i,
{
    if i >= n {
        None
    } else if keeps(g, draw_set(after_draws(st, i as nat)).0) {
        Some(i)
    } else {
        first_kept(g, st, i + 1, n)
    }
}

/// The tray holds the three pieces of `set`.
pub open spec fn holds_set(tray: [Option<Piece>; TRAY], set: Seq<Piece>) -> bool {
    tray@ == seq![Some(set[0]), Some(set[1]), Some(set[2])]
}

impl Rng {
    pub fn next(&mut self) -> (x: u64)
        ensures
            x == xorshift(old(self).0),
            final(self).0 == x,
    {
        let x = xorshift_next(self.0);
        self.0 = x;
        x
    }

    pub fn below(&mut self, n: usize) -> (r: usize)
        requires
            n > 0,
        ensures
            final(self).0 == xorshift(old(self).0),
            r == xorshift(old(self).0) % (n as u64),
            r < n,
    {
        (self.next() % n as u64) as usize
    }
}

/// The board after a shape is placed at `(row, col)` and every full line it completes is
/// cleared.
pub open spec fn after_placing(g: Seq<Option<u8>>, cells: Seq<(u8, u8)>, row: int, col: int, color: u8) -> Seq<Option<u8>> {
    clear_full(stamp_spec(g, cells, row, col, color))
}

/// Board `g` can come from `g0` by placing the shapes of `order` one after another, each
/// where it fits and in any color, with the lines each completes cleared.
pub open spec fn reached(g0: Seq<Option<u8>>, order: Seq<usize>, g: Seq<Option<u8>>) -> bool
    decreases order.len(),
{
    if order.len() == 0 {
        g == g0
    } else {
        exists|gp: Seq<Option<u8>>, row: int, col: int, color: u8|
            #![trigger after_placing(gp, shape_cells(order.last() as int), row, col, color)]
            reached(g0, order.drop_last(), gp) && fits_spec(gp, shape_cells(order.last() as int), row, col)
            && g == after_placing(gp, shape_cells(order.last() as int), row, col, color)
    }
}

/// One more shape placed where it fits extends a sequence of placements.
proof fn lemma_reached_step(g0: Seq<Option<u8>>, order: Seq<usize>, gp: Seq<Option<u8>>, g: Seq<Option<u8>>, row: int, col: int, color: u8)
    requires
        order.len() > 0,
        reached(g0, order.drop_last(), gp),
        fits_spec(gp, shape_cells(order.last() as int), row, col),
        g == after_placing(gp, shape_cells(order.last() as int), row, col, color),
    ensures
        reached(g0, order, g),
{
}


/// The shapes of `order` can be placed one after another in that order, each clearing the
/// lines it completes before the next goes down.
pub open spec fn placeable(g: Seq<Option<u8>>, order: Seq<usize>) -> bool
    decreases order.len(),
{
    if order.len() == 0 {
        true
    } else {
        exists|row: int, col: int|
            #![trigger fits_spec(g, shape_cells(order[0] as int), row, col)]
            fits_spec(g, shape_cells(order[0] as int), row, col)
            && placeable(after_placing(g, shape_cells(order[0] as int), row, col, 0), order.drop_first())
    }
}

/// The order of the three shapes that permutation `p` (of the six) plays them in.
pub open spec fn permuted(shapes: Seq<usize>, p: int) -> Seq<usize> {
    if p == 0 {
        seq![shapes[0], shapes[1], shapes[2]]
    } else if p == 1 {
        seq![shapes[0], shapes[2], shapes[1]]
    } else if p == 2 {
        seq![shapes[1], shapes[0], shapes[2]]
    } else if p == 3 {
        seq![shapes[1], shapes[2], shapes[0]]
    } else if p == 4 {
        seq![shapes[2], shapes[0], shapes[1]]
    } else {
        seq![shapes[2], shapes[1], shapes[0]]
    }
}

/// The search for placing `order` in turn on `g` with `budget` placements to spend: its answer
/// (`None` once the budget ran out) and what is left of the budget. The first shape is tried at
/// each position in turn, rows first; the last shape only needs room.
pub open spec fn search_spec(g: Seq<Option<u8>>, order: Seq<usize>, budget: int) -> (Option<bool>, int)
    decreases order.len(), 1int, 0int,
{
    if order.len() == 0 {
        (Some(true), budget)
    } else if order.len() == 1 {
        (Some(fits_somewhere(g, shape_cells(order[0] as int))), budget)
    } else {
        scan_spec(g, order, 0, budget)
    }
}

/// The search from position `p` on: position `p` is row `p / across`, column `p % across`,
/// where `across` is how many columns the first shape can start at.
pub open spec fn scan_spec(g: Seq<Option<u8>>, order: Seq<usize>, p: int, budget: int) -> (Option<bool>, int)
    decreases order.len(), 0int, 100 - p,
{
    let cells = shape_cells(order[0] as int);
    let across = 9 - shape_width(cells);
    let down = 9 - shape_height(cells);
    if order.len() < 2 || p < 0 || p >= down * across || across <= 0 || down * across > 100 {
        (Some(false), budget)
    } else if !fits_spec(g, cells, p / across, p % across) {
        scan_spec(g, order, p + 1, budget)
    } else if budget <= 0 {
        (None, budget)
    } else {
        let (a, left) = search_spec(after_placing(g, cells, p / across, p % across, 0), order.drop_first(), budget - 1);
        if a == Some(false) { scan_spec(g, order, p + 1, left) } else { (a, left) }
    }
}

/// Trying the orders of the three shapes in turn with one shared budget.
pub open spec fn orders_spec(g: Seq<Option<u8>>, shapes: Seq<usize>, q: int, budget: int) -> Option<bool>
    decreases 6 - q,
{
    if q >= 6 || q < 0 {
        Some(false)
    } else {
        let (a, left) = search_spec(g, permuted(shapes, q), budget);
        if a == Some(false) { orders_spec(g, shapes, q + 1, left) } else { a }
    }
}

/// Some order of the three shapes can be placed in full.
pub open spec fn solvable_spec(g: Seq<Option<u8>>, shapes: Seq<usize>) -> bool {
    exists|p: int| 0 <= p < 6 && #[trigger] placeable(g, permuted(shapes, p))
}

fn perm(p: usize) -> (o: [usize; 3])
    requires
        p < 6,
    ensures
        forall|s: Seq<usize>| s.len() == 3 ==> #[trigger] permuted(s, p as int)
            == seq![s[o[0] as int], s[o[1] as int], s[o[2] as int]],
        o[0] < 3 && o[1] < 3 && o[2] < 3,
{
    match p {
        0 => [0, 1, 2],
        1 => [0, 2, 1],
        2 => [1, 0, 2],
        3 => [1, 2, 0],
        4 => [2, 0, 1],
        _ => [2, 1, 0],
    }
}

/// Whether the three shapes can all be placed on `grid`, in some order, with the clears in
/// between. `None` when the search budget ran out before an answer.
pub fn solvable(grid: &Grid, shapes: [usize; 3]) -> (r: Option<bool>)
    requires
        shapes[0] < SHAPE_COUNT,
        shapes[1] < SHAPE_COUNT,
        shapes[2] < SHAPE_COUNT,
    ensures
        r matches Some(b) ==> b == solvable_spec(grid@, shapes@),
        r == orders_spec(grid@, shapes@, 0, SEARCH_BUDGET as int),
{
    let mut budget = SEARCH_BUDGET;
    let mut p: usize = 0;
    while p < 6
        invariant
            p <= 6,
            orders_spec(grid@, shapes@, p as int, budget as int) == orders_spec(grid@, shapes@, 0, SEARCH_BUDGET as int),
            shapes[0] < SHAPE_COUNT,
            shapes[1] < SHAPE_COUNT,
            shapes[2] < SHAPE_COUNT,
            forall|q: int| 0 <= q < p ==> !placeable(grid@, #[trigger] permuted(shapes@, q)),
        decreases 6 - p,
    {
        let o = perm(p);
        let order = [shapes[o[0]], shapes[o[1]], shapes[o[2]]];
        proof {
            assert(permuted(shapes@, p as int) == seq![shapes@[o[0] as int], shapes@[o[1] as int], shapes@[o[2] as int]]);
            assert(order@ =~= permuted(shapes@, p as int));
        }
        let ghost b0 = budget as int;
        let answer = search(grid, &order, 0, &mut budget);
        proof {
            assert(order@.subrange(0, 3) =~= order@);
            assert(search_spec(grid@, permuted(shapes@, p as int), b0) == (answer, budget as int));
        }
        match answer {
            Some(false) => {},
            _ => {
                proof {
                    if answer == Some(true) {
                        assert(placeable(grid@, permuted(shapes@, p as int)));
                    }
                }
                return answer;
            },
        }
        p += 1;
    }
    Some(false)
}

proof fn lemma_placeable_empty(g: Seq<Option<u8>>, order: Seq<usize>)
    requires
        order.len() == 0,
    ensures
        placeable(g, order),
{
}

/// Position `r * across + c` is row `r`, column `c`.
proof fn lemma_position(r: int, c: int, across: int, down: int)
    requires
        0 <= r < down,
        0 <= c < across,
    ensures
        (r * across + c) / across == r,
        (r * across + c) % across == c,
        r * across + c < down * across,
        r * across + across == (r + 1) * across,
{
    assert((r * across + c) / across == r && (r * across + c) % across == c) by (nonlinear_arith)
        requires 0 <= r, 0 <= c < across;
    assert(r * across + c < down * across) by (nonlinear_arith)
        requires 0 <= r < down, 0 <= c < across;
    assert(r * across + across == (r + 1) * across) by (nonlinear_arith);
}

/// Whether `order[from..]` can be placed in order on `grid`; `None` once the shared `budget`
/// of tried placements is spent.
fn search(grid: &Grid, order: &[usize], from: usize, budget: &mut u32) -> (r: Option<bool>)
    requires
        from <= order@.len(),
        forall|k: int| 0 <= k < order@.len() ==> order@[k] < SHAPE_COUNT,
    ensures
        r matches Some(b) ==> b == placeable(grid@, order@.subrange(from as int, order@.len() as int)),
        *final(budget) <= *old(budget),
        (r, *final(budget) as int) == search_spec(grid@, order@.subrange(from as int, order@.len() as int), *old(budget) as int),
    decreases order@.len() - from,
{
    let ghost rest = order@.subrange(from as int, order@.len() as int);
    if from == order.len() {
        return Some(true);
    }
    let first = order[from];
    let shape = shape_at(first);
    proof {
        lemma_shape_small(first as int);
        assert(rest[0] == first);
        assert(rest.drop_first() =~= order@.subrange(from as int + 1, order@.len() as int));
    }
    if from + 1 == order.len() {
        let b = fits_anywhere(grid, &shape);
        proof {
            if b {
                let (r0, c0) = choose|r0: int, c0: int| fits_spec(grid@, shape.cells@, r0, c0);
                lemma_placeable_empty(after_placing(grid@, shape.cells@, r0, c0, 0), rest.drop_first());
            }
        }
        return Some(b);
    }
    let h = shape.height();
    let w = shape.width();
    let next = from + 1;
    let ghost across = 9 - w as int;
    let ghost down = 9 - h as int;
    proof {
        assert(down * across <= 64) by (nonlinear_arith)
            requires 1 <= down <= 8, 1 <= across <= 8;
        assert(search_spec(grid@, rest, *old(budget) as int) == scan_spec(grid@, rest, 0, *old(budget) as int));
        assert(0 * across + 0 == 0);
    }
    let mut r: usize = 0;
    while r <= N - h
        invariant
            next == from + 1,
            h == shape_height(shape.cells@),
            w == shape_width(shape.cells@),
            1 <= h <= 5,
            1 <= w <= 5,
            r <= 9 - h,
            from + 1 < order@.len(),
            shape.cells@ == shape_cells(first as int),
            rest == order@.subrange(from as int, order@.len() as int),
            rest[0] == first,
            rest.drop_first() =~= order@.subrange(from as int + 1, order@.len() as int),
            forall|k: int| 0 <= k < order@.len() ==> order@[k] < SHAPE_COUNT,
            *budget <= *old(budget),
            forall|r2: int, c2: int| 0 <= r2 < r ==> !(fits_spec(grid@, shape.cells@, r2, c2)
                && placeable(after_placing(grid@, shape.cells@, r2, c2, 0), rest.drop_first())),
            across == 9 - w,
            down == 9 - h,
            down * across <= 64,
            scan_spec(grid@, rest, r * across, *budget as int) == scan_spec(grid@, rest, 0, *old(budget) as int),
        decreases 9 - h - r,
    {
        let mut c: usize = 0;
        while c <= N - w
            invariant
                next == from + 1,
                h == shape_height(shape.cells@),
                w == shape_width(shape.cells@),
                1 <= h <= 5,
                1 <= w <= 5,
                r <= 8 - h,
                c <= 9 - w,
                from + 1 < order@.len(),
                shape.cells@ == shape_cells(first as int),
                rest == order@.subrange(from as int, order@.len() as int),
                rest[0] == first,
                rest.drop_first() =~= order@.subrange(from as int + 1, order@.len() as int),
                forall|k: int| 0 <= k < order@.len() ==> order@[k] < SHAPE_COUNT,
                *budget <= *old(budget),
                forall|r2: int, c2: int| 0 <= r2 < r ==> !(fits_spec(grid@, shape.cells@, r2, c2)
                    && placeable(after_placing(grid@, shape.cells@, r2, c2, 0), rest.drop_first())),
                forall|c2: int| 0 <= c2 < c ==> !(fits_spec(grid@, shape.cells@, r as int, c2)
                    && placeable(after_placing(grid@, shape.cells@, r as int, c2, 0), rest.drop_first())),
                across == 9 - w,
                down == 9 - h,
                down * across <= 64,
                scan_spec(grid@, rest, r * across + c, *budget as int) == scan_spec(grid@, rest, 0, *old(budget) as int),
            decreases 9 - w - c,
        {
            proof {
                lemma_position(r as int, c as int, across, down);
            }
            if fits(grid, &shape, r as i32, c as i32) {
                if *budget == 0 {
                    return None;
                }
                *budget -= 1;
                let mut g = *grid;
                stamp(&mut g, &shape, r, c, 0);
                let ghost stamped = g@;
                let (rows, cols) = full_lines(&g);
                clear_lines(&mut g, rows.as_slice(), cols.as_slice());
                proof {
                    lemma_clear_is_clear_full(stamped, rows@, cols@);
                    assert(g@ == after_placing(grid@, shape.cells@, r as int, c as int, 0));
                }
                let ghost b1 = *budget as int;
                let sub = search(&g, order, next, budget);
                proof {
                    assert(order@.subrange(next as int, order@.len() as int) == rest.drop_first());
                    assert(search_spec(after_placing(grid@, shape.cells@, r as int, c as int, 0), rest.drop_first(), b1)
                        == (sub, *budget as int));
                }
                match sub {
                    Some(false) => {},
                    answer => {
                        return answer;
                    },
                }
            }
            c += 1;
        }
        proof {
            lemma_position(r as int, 0, across, down);
            assert forall|c2: int| !(fits_spec(grid@, shape.cells@, r as int, c2)
                && placeable(after_placing(grid@, shape.cells@, r as int, c2, 0), rest.drop_first())) by {
                if !(0 <= c2 < c) {
                    assert(!in_bounds_spec(shape.cells@, r as int, c2));
                }
            }
        }
        r += 1;
    }
    proof {
        assert forall|r2: int, c2: int| !(fits_spec(grid@, shape.cells@, r2, c2)
            && placeable(after_placing(grid@, shape.cells@, r2, c2, 0), rest.drop_first())) by {
            if !(0 <= r2 < r) {
                assert(!in_bounds_spec(shape.cells@, r2, c2));
            }
        }
    }
    Some(false)
}

/// Two boards with the same cells filled, whatever their colors.
pub open spec fn same_occupancy(a: Seq<Option<u8>>, b: Seq<Option<u8>>) -> bool {
    &&& a.len() == b.len()
    &&& forall|i: int| 0 <= i < a.len() ==> a[i].is_some() == b[i].is_some()
}

proof fn lemma_after_same_occupancy(
    a: Seq<Option<u8>>,
    b: Seq<Option<u8>>,
    cells: Seq<(u8, u8)>,
    row: int,
    col: int,
    x: u8,
    y: u8,
)
    requires
        same_occupancy(a, b),
        a.len() == 64,
    ensures
        fits_spec(a, cells, row, col) == fits_spec(b, cells, row, col),
        same_occupancy(after_placing(a, cells, row, col, x), after_placing(b, cells, row, col, y)),
{
    let sa = stamp_spec(a, cells, row, col, x);
    let sb = stamp_spec(b, cells, row, col, y);
    assert forall|r: int| 0 <= r < 8 implies row_full(sa, r) == row_full(sb, r) by {
        if row_full(sa, r) {
            assert forall|c: int| 0 <= c < 8 implies (#[trigger] sb[cell(r, c)]).is_some() by {
                assert(sa[cell(r, c)].is_some());
            }
        }
        if row_full(sb, r) {
            assert forall|c: int| 0 <= c < 8 implies (#[trigger] sa[cell(r, c)]).is_some() by {
                assert(sb[cell(r, c)].is_some());
            }
        }
    }
    assert forall|c: int| 0 <= c < 8 implies col_full(sa, c) == col_full(sb, c) by {
        if col_full(sa, c) {
            assert forall|r: int| 0 <= r < 8 implies (#[trigger] sb[cell(r, c)]).is_some() by {
                assert(sa[cell(r, c)].is_some());
            }
        }
        if col_full(sb, c) {
            assert forall|r: int| 0 <= r < 8 implies (#[trigger] sa[cell(r, c)]).is_some() by {
                assert(sb[cell(r, c)].is_some());
            }
        }
    }
    if fits_spec(a, cells, row, col) {
        assert forall|k: int| 0 <= k < cells.len() implies (#[trigger] b[cell(row + cells[k].0, col + cells[k].1)]).is_none() by {
            lemma_cell_on_board(cells, row, col, k);
            assert(a[cell(row + cells[k].0, col + cells[k].1)].is_none());
        }
    }
    if fits_spec(b, cells, row, col) {
        assert forall|k: int| 0 <= k < cells.len() implies (#[trigger] a[cell(row + cells[k].0, col + cells[k].1)]).is_none() by {
            lemma_cell_on_board(cells, row, col, k);
            assert(b[cell(row + cells[k].0, col + cells[k].1)].is_none());
        }
    }
}

/// Whether a sequence of shapes can be placed depends only on which cells are filled.
proof fn lemma_placeable_same_occupancy(a: Seq<Option<u8>>, b: Seq<Option<u8>>, order: Seq<usize>)
    requires
        same_occupancy(a, b),
        a.len() == 64,
    ensures
        placeable(a, order) == placeable(b, order),
    decreases order.len(),
{
    if order.len() > 0 {
        let cells = shape_cells(order[0] as int);
        assert forall|row: int, col: int|
            (fits_spec(a, cells, row, col) && placeable(after_placing(a, cells, row, col, 0), order.drop_first()))
            == (fits_spec(b, cells, row, col) && placeable(after_placing(b, cells, row, col, 0), order.drop_first())) by {
            lemma_after_same_occupancy(a, b, cells, row, col, 0, 0);
            lemma_placeable_same_occupancy(
                after_placing(a, cells, row, col, 0),
                after_placing(b, cells, row, col, 0),
                order.drop_first(),
            );
        }
        if placeable(a, order) {
            let (row, col) = choose|row: int, col: int| fits_spec(a, cells, row, col)
                && placeable(after_placing(a, cells, row, col, 0), order.drop_first());
            assert(fits_spec(b, cells, row, col));
        }
        if placeable(b, order) {
            let (row, col) = choose|row: int, col: int| fits_spec(b, cells, row, col)
                && placeable(after_placing(b, cells, row, col, 0), order.drop_first());
            assert(fits_spec(a, cells, row, col));
        }
    }
}

/// The first position, in reading order, where `shape` fits.
fn first_fit(grid: &Grid, shape: &Shape) -> (res: Option<(usize, usize)>)
    requires
        shape_height(shape.cells@) <= 8,
        shape_width(shape.cells@) <= 8,
    ensures
        res matches Some((r, c)) ==> fits_spec(grid@, shape.cells@, r as int, c as int),
        res is None ==> !fits_somewhere(grid@, shape.cells@),
{
    let h = shape.height();
    let w = shape.width();
    let mut r: usize = 0;
    while r <= N - h
        invariant
            h == shape_height(shape.cells@),
            w == shape_width(shape.cells@),
            h <= 8,
            w <= 8,
            r <= 9 - h,
            forall|r2: int, c2: int| 0 <= r2 < r ==> !fits_spec(grid@, shape.cells@, r2, c2),
        decreases 9 - h - r,
    {
        let mut c: usize = 0;
        while c <= N - w
            invariant
                h == shape_height(shape.cells@),
                w == shape_width(shape.cells@),
                h <= 8,
                w <= 8,
                r <= 8 - h,
                c <= 9 - w,
                forall|r2: int, c2: int| 0 <= r2 < r ==> !fits_spec(grid@, shape.cells@, r2, c2),
                forall|c2: int| 0 <= c2 < c ==> !fits_spec(grid@, shape.cells@, r as int, c2),
            decreases 9 - w - c,
        {
            if fits(grid, shape, r as i32, c as i32) {
                return Some((r, c));
            }
            c += 1;
        }
        proof {
            assert forall|c2: int| !fits_spec(grid@, shape.cells@, r as int, c2) by {
                if !(0 <= c2 < c) {
                    assert(!in_bounds_spec(shape.cells@, r as int, c2));
                }
            }
        }
        r += 1;
    }
    proof {
        assert forall|r2: int, c2: int| !fits_spec(grid@, shape.cells@, r2, c2) by {
            if !(0 <= r2 < r) {
                assert(!in_bounds_spec(shape.cells@, r2, c2));
            }
        }
    }
    None
}

/// Place `shape` at `(row, col)` and clear every line it completes.
fn place_and_clear(grid: &mut Grid, shape: &Shape, row: usize, col: usize, color: u8)
    requires
        in_bounds_spec(shape.cells@, row as int, col as int),
    ensures
        final(grid)@ == after_placing(old(grid)@, shape.cells@, row as int, col as int, color),
{
    stamp(grid, shape, row, col, color);
    let ghost stamped = grid@;
    let (rows, cols) = full_lines(grid);
    clear_lines(grid, rows.as_slice(), cols.as_slice());
    proof {
        lemma_clear_is_clear_full(stamped, rows@, cols@);
    }
}

/// Every cell holds a palette color or nothing.
pub open spec fn grid_wf(g: Seq<Option<u8>>) -> bool {
    forall|i: int| 0 <= i < g.len() ==> (#[trigger] g[i]).is_none() || g[i].unwrap() < COLORS
}

/// Every slot is empty or holds a piece of the catalogue in a palette color.
pub open spec fn tray_wf(t: [Option<Piece>; 3]) -> bool {
    forall|s: int| 0 <= s < 3 ==> (#[trigger] t@[s]).is_none() || t@[s].unwrap().wf()
}

/// Some piece still in the tray fits somewhere on the board.
pub open spec fn any_fits_spec(g: Seq<Option<u8>>, t: [Option<Piece>; 3]) -> bool {
    exists|s: int| 0 <= s < 3 && (#[trigger] t@[s]).is_some()
        && fits_somewhere(g, shape_cells(t@[s].unwrap().shape as int))
}

pub struct Model {
    pub grid: Grid,
    pub tray: [Option<Piece>; TRAY],
    pub score: i64,
    pub best: i64,
    /// Consecutive clearing placements, allowing for [`COMBO_GRACE`].
    pub combo: u32,
    /// Placements since the last clear.
    pub since_clear: u32,
    pub difficulty: Difficulty,
    pub game_over: bool,
    pub rng: Rng,
}

impl Model {
    /// The board holds palette colors, the tray holds catalogue pieces, and the score is
    /// non-negative and never above the best.
    pub open spec fn wf(&self) -> bool {
        &&& grid_wf(self.grid@)
        &&& tray_wf(self.tray)
        &&& 0 <= self.score <= self.best
    }

    /// Three random shapes in three different colors.
    fn random_set(&mut self) -> (set: [Piece; TRAY])
        ensures
            set@ == draw_set(old(self).rng.0).0,
            final(self).rng.0 == draw_set(old(self).rng.0).1,
            forall|k: int| 0 <= k < 3 ==> (#[trigger] set@[k]).wf(),
            set@[0].color != set@[1].color,
            set@[0].color != set@[2].color,
            set@[1].color != set@[2].color,
            final(self).grid == old(self).grid,
            final(self).tray == old(self).tray,
            final(self).score == old(self).score,
            final(self).best == old(self).best,
            final(self).combo == old(self).combo,
            final(self).since_clear == old(self).since_clear,
            final(self).difficulty == old(self).difficulty,
            final(self).game_over == old(self).game_over,
    {
        let mut colors: Vec<u8> = Vec::new();
        let mut c: u8 = 0;
        while c < COLORS
            invariant
                c <= 8,
                colors@.len() == c,
                forall|j: int| 0 <= j < c ==> colors@[j] == j,
            decreases 8 - c,
        {
            colors.push(c);
            c += 1;
        }
        proof {
            assert(colors@ =~= palette());
        }
        let ghost st0 = self.rng.0;
        let mut set = [Piece { shape: 0, color: 0 };TRAY];
        let mut k: usize = 0;
        while k < TRAY
            invariant
                k <= 3,
                draw_set(st0) == (set@.take(k as int) + draw(self.rng.0, colors@, (3 - k) as nat).0,
                    draw(self.rng.0, colors@, (3 - k) as nat).1),
                colors@.len() == 8 - k,
                forall|j: int| 0 <= j < colors@.len() ==> colors@[j] < COLORS,
                forall|i: int, j: int| 0 <= i < j < colors@.len() ==> colors@[i] != colors@[j],
                forall|j: int| 0 <= j < k ==> (#[trigger] set@[j]).wf(),
                forall|j: int, i: int| 0 <= j < k && 0 <= i < colors@.len() ==> set@[j].color != colors@[i],
                forall|i: int, j: int| 0 <= i < j < k ==> set@[i].color != set@[j].color,
                self.grid == old(self).grid,
                self.tray == old(self).tray,
                self.score == old(self).score,
                self.best == old(self).best,
                self.combo == old(self).combo,
                self.since_clear == old(self).since_clear,
                self.difficulty == old(self).difficulty,
                self.game_over == old(self).game_over,
            decreases 3 - k,
        {
            let ghost before = colors@;
            let ghost setb = set@;
            let ghost stb = self.rng.0;
            let at = self.rng.below(colors.len());
            let color = colors.remove(at);
            let shape = self.rng.below(SHAPE_COUNT);
            set[k] = Piece { shape, color };
            proof {
                let d = draw(stb, before, (3 - k) as nat);
                let rest = draw(self.rng.0, colors@, (3 - k - 1) as nat);
                assert(colors@ == before.remove(at as int));
                assert(d == (seq![Piece { shape, color }] + rest.0, rest.1));
                assert(set@.take(k + 1) =~= setb.take(k as int) + seq![Piece { shape, color }]);
                assert(set@.take(k + 1) + rest.0 =~= setb.take(k as int) + d.0);

                assert forall|j: int, i: int| 0 <= j < k + 1 && 0 <= i < colors@.len() implies set@[j].color != colors@[i] by {
                    if i < at {
                        assert(colors@[i] == before[i]);
                    } else {
                        assert(colors@[i] == before[i + 1]);
                    }
                }
                assert forall|i: int, j: int| 0 <= i < j < colors@.len() implies colors@[i] != colors@[j] by {
                    let bi = if i < at { i } else { i + 1 };
                    let bj = if j < at { j } else { j + 1 };
                    assert(colors@[i] == before[bi]);
                    assert(colors@[j] == before[bj]);
                }
            }
            k += 1;
        }
        set
    }

    /// Easy's guarantee: build a set one piece at a time, each drawn from the shapes that
    /// still fit after the previous ones are placed (first fit, clears applied), so the set
    /// can always be placed in dealing order. `None` only when nothing fits at all.
    fn constructed_set(&mut self) -> (res: Option<[Piece; TRAY]>)
        requires
            old(self).grid@.len() == 64,
        ensures
            res matches Some(set) ==> {
                &&& forall|k: int| 0 <= k < 3 ==> (#[trigger] set@[k]).wf()
                &&& placeable(old(self).grid@, seq![set@[0].shape, set@[1].shape, set@[2].shape])
            },
            res is None ==> exists|order: Seq<usize>, g: Seq<Option<u8>>| #![trigger reached(old(self).grid@, order, g)]
                order.len() < 3 && reached(old(self).grid@, order, g)
                && forall|t: int| 0 <= t < SHAPE_COUNT ==> !fits_somewhere(g, #[trigger] shape_cells(t)),
            (forall|t: int| 0 <= t < SHAPE_COUNT ==> !fits_somewhere(old(self).grid@, #[trigger] shape_cells(t))) ==> res is None,
            final(self).grid == old(self).grid,
            final(self).tray == old(self).tray,
            final(self).score == old(self).score,
            final(self).best == old(self).best,
            final(self).combo == old(self).combo,
            final(self).since_clear == old(self).since_clear,
            final(self).difficulty == old(self).difficulty,
            final(self).game_over == old(self).game_over,
    {
        let mut grid = self.grid;
        let ghost g0 = grid@;
        let mut set = self.random_set();
        let mut k: usize = 0;
        while k < TRAY
            invariant
                k <= 3,
                g0 == old(self).grid@,
                g0.len() == 64,
                grid@.len() == 64,
                forall|j: int| 0 <= j < 3 ==> (#[trigger] set@[j]).wf(),
                forall|rest: Seq<usize>| #[trigger] placeable(grid@, rest) ==> placeable(
                    g0,
                    seq![set@[0].shape, set@[1].shape, set@[2].shape].take(k as int) + rest,
                ),
                k == 0 ==> grid@ == g0,
                reached(g0, seq![set@[0].shape, set@[1].shape, set@[2].shape].take(k as int), grid@),
                k > 0 ==> exists|t: int| 0 <= t < SHAPE_COUNT && fits_somewhere(g0, #[trigger] shape_cells(t)),
                self.grid == old(self).grid,
                self.tray == old(self).tray,
                self.score == old(self).score,
                self.best == old(self).best,
                self.combo == old(self).combo,
                self.since_clear == old(self).since_clear,
                self.difficulty == old(self).difficulty,
                self.game_over == old(self).game_over,
            decreases 3 - k,
        {
            let mut fitting: Vec<usize> = Vec::new();
            let mut s: usize = 0;
            while s < SHAPE_COUNT
                invariant
                    s <= SHAPE_COUNT,
                    forall|j: int| 0 <= j < fitting@.len() ==> fitting@[j] < SHAPE_COUNT
                        && fits_somewhere(grid@, shape_cells(fitting@[j] as int)),
                    forall|t: int| 0 <= t < s && fits_somewhere(grid@, #[trigger] shape_cells(t))
                        ==> fitting@.contains(t as usize),
                decreases SHAPE_COUNT - s,
            {
                let sh = shape_at(s);
                proof {
                    lemma_shape_small(s as int);
                }
                let ghost before = fitting@;
                if fits_anywhere(&grid, &sh) {
                    fitting.push(s);
                }
                proof {
                    assert forall|t: int| 0 <= t < s + 1 && fits_somewhere(grid@, #[trigger] shape_cells(t))
                        implies fitting@.contains(t as usize) by {
                        if t < s {
                            let m = choose|m: int| 0 <= m < before.len() && before[m] == t as usize;
                            assert(fitting@[m] == before[m]);
                        } else {
                            assert(fitting@[fitting@.len() - 1] == s);
                        }
                    }
                }
                s += 1;
            }
            if fitting.len() == 0 {
                proof {
                    let done = seq![set@[0].shape, set@[1].shape, set@[2].shape].take(k as int);
                    assert forall|t: int| 0 <= t < SHAPE_COUNT implies !fits_somewhere(grid@, #[trigger] shape_cells(t)) by {
                        if fits_somewhere(grid@, shape_cells(t)) {
                            assert(fitting@.contains(t as usize));
                        }
                    }
                    assert(reached(g0, done, grid@));
                }
                return None;
            }
            proof {
                assert(fits_somewhere(grid@, shape_cells(fitting@[0] as int)));
            }
            let shape = fitting[self.rng.below(fitting.len())];
            let ghost old_set = set@;
            set[k].shape = shape;
            let sh = shape_at(shape);
            proof {
                lemma_shape_small(shape as int);
            }
            let ghost gk = grid@;
            let color = set[k].color;
            match first_fit(&grid, &sh) {
                Some((r, c)) => {
                    place_and_clear(&mut grid, &sh, r, c, color);
                    proof {
                        let done = seq![set@[0].shape, set@[1].shape, set@[2].shape];
                        let prev = seq![old_set[0].shape, old_set[1].shape, old_set[2].shape];
                        assert(done.take(k as int) =~= prev.take(k as int));
                        assert forall|rest: Seq<usize>| #[trigger] placeable(grid@, rest) implies placeable(
                            g0,
                            done.take(k as int + 1) + rest,
                        ) by {
                            let cells = shape_cells(shape as int);
                            lemma_after_same_occupancy(gk, gk, cells, r as int, c as int, color, 0);
                            lemma_placeable_same_occupancy(
                                after_placing(gk, cells, r as int, c as int, color),
                                after_placing(gk, cells, r as int, c as int, 0),
                                rest,
                            );
                            let longer = seq![shape] + rest;
                            assert(longer.drop_first() =~= rest);
                            assert(longer[0] == shape);
                            assert(fits_spec(gk, shape_cells(longer[0] as int), r as int, c as int));
                            assert(placeable(gk, longer));
                            assert(done.take(k as int) + longer =~= done.take(k as int + 1) + rest);
                        }
                        assert(done.take(k as int + 1).drop_last() =~= prev.take(k as int));
                        assert(done.take(k as int + 1).last() == shape);
                        assert(fits_spec(gk, shape_cells(shape as int), r as int, c as int));
                        assert(reached(g0, prev.take(k as int), gk));
                        let order = done.take(k as int + 1);
                        assert(reached(g0, order.drop_last(), gk) && fits_spec(gk, shape_cells(order.last() as int), r as int, c as int)
                            && grid@ == after_placing(gk, shape_cells(order.last() as int), r as int, c as int, color));
                        lemma_reached_step(g0, order, gk, grid@, r as int, c as int, color);
                    }
                },
                None => {
                    proof {
                        assert(false);
                    }
                },
            }
            k += 1;
        }
        proof {
            let done = seq![set@[0].shape, set@[1].shape, set@[2].shape];
            let empty: Seq<usize> = seq![];
            assert(placeable(grid@, empty));
            assert(done.take(3) + empty =~= done);
        }
        Some(set)
    }

    /// Deal a new tray under the difficulty's rules: the first of the difficulty's random
    /// sets that the bounded search does not find impossible; when none is, on Easy a set
    /// built to be placed in full (unless the board has no room left for a whole set), and
    /// otherwise one more random set.
    pub fn refill(&mut self)
        requires
            old(self).grid@.len() == 64,
        ensures
            forall|s: int| 0 <= s < 3 ==> (#[trigger] final(self).tray@[s]).is_some()
                && final(self).tray@[s].unwrap().wf(),
            final(self).grid == old(self).grid,
            final(self).score == old(self).score,
            final(self).best == old(self).best,
            final(self).combo == old(self).combo,
            final(self).since_clear == old(self).since_clear,
            final(self).difficulty == old(self).difficulty,
            final(self).game_over == old(self).game_over,
            ({
                let st = old(self).rng.0;
                let n = old(self).difficulty.attempts_spec();
                match first_kept(old(self).grid@, st, 0, n) {
                    Some(i) => holds_set(final(self).tray, draw_set(after_draws(st, i as nat)).0)
                        && final(self).rng.0 == after_draws(st, (i + 1) as nat),
                    None => if old(self).difficulty == Difficulty::Easy {
                        placeable(old(self).grid@, seq![final(self).tray@[0].unwrap().shape, final(self).tray@[1].unwrap().shape,
                            final(self).tray@[2].unwrap().shape])
                        || exists|order: Seq<usize>, g: Seq<Option<u8>>| #![trigger reached(old(self).grid@, order, g)]
                            order.len() < 3 && reached(old(self).grid@, order, g)
                            && forall|t: int| 0 <= t < SHAPE_COUNT ==> !fits_somewhere(g, #[trigger] shape_cells(t))
                    } else {
                        holds_set(final(self).tray, draw_set(after_draws(st, n as nat)).0)
                            && final(self).rng.0 == after_draws(st, (n + 1) as nat)
                    },
                }
            }),
    {
        let attempts = self.difficulty.attempts();
        let ghost st = self.rng.0;
        let mut a: usize = 0;
        while a < attempts
            invariant
                self.grid == old(self).grid,
                self.score == old(self).score,
                self.best == old(self).best,
                self.combo == old(self).combo,
                self.since_clear == old(self).since_clear,
                self.difficulty == old(self).difficulty,
                self.game_over == old(self).game_over,
                attempts == old(self).difficulty.attempts_spec(),
                st == old(self).rng.0,
                a <= attempts,
                self.rng.0 == after_draws(st, a as nat),
                first_kept(self.grid@, st, 0, attempts as int) == first_kept(self.grid@, st, a as int, attempts as int),
                self.grid@.len() == 64,
            decreases attempts - a,
        {
            let set = self.random_set();
            let shapes = [set[0].shape, set[1].shape, set[2].shape];
            proof {
                assert(shapes@ =~= set_shapes(set@));
                assert(self.rng.0 == after_draws(st, (a + 1) as nat));
            }
            if solvable(&self.grid, shapes) != Some(false) {
                self.tray = [Some(set[0]), Some(set[1]), Some(set[2])];
                proof {
                    assert(self.tray@ =~= seq![Some(set@[0]), Some(set@[1]), Some(set@[2])]);
                }
                return;
            }
            a += 1;
        }
        if self.difficulty == Difficulty::Easy {
            if let Some(set) = self.constructed_set() {
                self.tray = [Some(set[0]), Some(set[1]), Some(set[2])];
                return;
            }
        }
        let set = self.random_set();
        self.tray = [Some(set[0]), Some(set[1]), Some(set[2])];
        proof {
            assert(self.tray@ =~= seq![Some(set@[0]), Some(set@[1]), Some(set@[2])]);
        }
    }
}

/// A strictly ascending list of line numbers below 8 has at most 8 entries.
proof fn lemma_ascending_below_8(s: Seq<usize>)
    requires
        forall|i: int, j: int| 0 <= i < j < s.len() ==> s[i] < s[j],
        forall|i: int| 0 <= i < s.len() ==> s[i] < 8,
    ensures
        s.len() <= 8,
{
    assert forall|i: int| 0 <= i < s.len() implies s[i] >= i by {
        lemma_ascending_at_least_index(s, i);
    }
    if s.len() > 8 {
        assert(s[8] >= 8);
    }
}

proof fn lemma_ascending_at_least_index(s: Seq<usize>, i: int)
    requires
        forall|a: int, b: int| 0 <= a < b < s.len() ==> s[a] < s[b],
        0 <= i < s.len(),
    ensures
        s[i] >= i,
    decreases i,
{
    if i > 0 {
        lemma_ascending_at_least_index(s, i - 1);
    }
}

/// Every cell of the board is empty.
pub open spec fn all_empty(g: Seq<Option<u8>>) -> bool {
    forall|i: int| 0 <= i < g.len() ==> (#[trigger] g[i]).is_none()
}

fn grid_is_empty(grid: &Grid) -> (b: bool)
    ensures
        b == all_empty(grid@),
{
    let mut i: usize = 0;
    while i < CELLS
        invariant
            i <= 64,
            forall|j: int| 0 <= j < i ==> (#[trigger] grid@[j]).is_none(),
        decreases 64 - i,
    {
        if grid[i].is_some() {
            return false;
        }
        i += 1;
    }
    true
}

/// The board positions a shape placed at `(row, col)` fills, in the shape's cell order.
pub open spec fn placed_cells(cells: Seq<(u8, u8)>, row: int, col: int) -> Seq<usize> {
    Seq::new(cells.len(), |k: int| cell(row + cells[k].0, col + cells[k].1) as usize)
}

/// The squared distance, in quarter cells, from the center of a `h` x `w` shape placed at
/// `(r, c)` to the center of the board.
pub open spec fn center_distance(r: int, c: int, h: int, w: int) -> int {
    (2 * r + h - 8) * (2 * r + h - 8) + (2 * c + w - 8) * (2 * c + w - 8)
}

impl Model {
    /// The piece in `slot` can go down with its top-left cell at `(row, col)`.
    pub open spec fn can_place_spec(&self, slot: int, row: int, col: int) -> bool {
        &&& 0 <= slot < 3
        &&& self.tray@[slot].is_some()
        &&& fits_spec(self.grid@, shape_cells(self.tray@[slot].unwrap().shape as int), row, col)
    }

    /// The piece in `slot` fits somewhere.
    pub open spec fn slot_fits_spec(&self, slot: int) -> bool {
        &&& 0 <= slot < 3
        &&& self.tray@[slot].is_some()
        &&& fits_somewhere(self.grid@, shape_cells(self.tray@[slot].unwrap().shape as int))
    }

    pub fn can_place(&self, slot: usize, row: i32, col: i32) -> (b: bool)
        requires
            self.wf(),
        ensures
            b == self.can_place_spec(slot as int, row as int, col as int),
    {
        if slot >= TRAY {
            return false;
        }
        match self.tray[slot] {
            Some(p) => fits(&self.grid, &p.shape(), row, col),
            None => false,
        }
    }

    /// Whether the piece in `slot` fits anywhere (the tray dims the ones that do not).
    pub fn slot_fits(&self, slot: usize) -> (b: bool)
        requires
            self.wf(),
        ensures
            b == self.slot_fits_spec(slot as int),
    {
        if slot >= TRAY {
            return false;
        }
        match self.tray[slot] {
            Some(p) => {
                proof {
                    lemma_shape_small(p.shape as int);
                }
                fits_anywhere(&self.grid, &p.shape())
            },
            None => false,
        }
    }

    fn any_fits(&self) -> (b: bool)
        requires
            tray_wf(self.tray),
        ensures
            b == any_fits_spec(self.grid@, self.tray),
    {
        let mut s: usize = 0;
        while s < TRAY
            invariant
                s <= 3,
                tray_wf(self.tray),
                forall|t: int| 0 <= t < s ==> !((#[trigger] self.tray@[t]).is_some()
                    && fits_somewhere(self.grid@, shape_cells(self.tray@[t].unwrap().shape as int))),
            decreases 3 - s,
        {
            if let Some(p) = self.tray[s] {
                proof {
                    lemma_shape_small(p.shape as int);
                }
                if fits_anywhere(&self.grid, &p.shape()) {
                    return true;
                }
            }
            s += 1;
        }
        false
    }

    /// The rows and columns placing `slot`'s piece at `(row, col)` would complete (the
    /// preview lights them up before the drop).
    pub fn lines_if_placed(&self, slot: usize, row: i32, col: i32) -> (res: (Vec<usize>, Vec<usize>))
        requires
            self.wf(),
        ensures
            !self.can_place_spec(slot as int, row as int, col as int) ==> res.0@.len() == 0 && res.1@.len() == 0,
            self.can_place_spec(slot as int, row as int, col as int) ==> {
                let p = self.tray@[slot as int].unwrap();
                let stamped = stamp_spec(self.grid@, shape_cells(p.shape as int), row as int, col as int, p.color);
                lists_rows(res.0@, stamped) && lists_cols(res.1@, stamped)
            },
    {
        if slot >= TRAY {
            return (Vec::new(), Vec::new());
        }
        let piece = match self.tray[slot] {
            Some(p) => p,
            None => {
                return (Vec::new(), Vec::new());
            },
        };
        let shape = piece.shape();
        if !fits(&self.grid, &shape, row, col) {
            return (Vec::new(), Vec::new());
        }
        let mut g = self.grid;
        stamp(&mut g, &shape, row as usize, col as usize, piece.color);
        full_lines(&g)
    }

    /// Where the keyboard first puts `slot`'s piece: the fitting position whose center is
    /// nearest the middle of the board, the first in reading order on a tie.
    pub fn nearest_fit(&self, slot: usize) -> (res: Option<(i32, i32)>)
        requires
            self.wf(),
        ensures
            res is None <==> !self.slot_fits_spec(slot as int),
            res matches Some((r, c)) ==> {
                let cells = shape_cells(self.tray@[slot as int].unwrap().shape as int);
                let (h, w) = (shape_height(cells), shape_width(cells));
                &&& fits_spec(self.grid@, cells, r as int, c as int)
                &&& forall|r2: int, c2: int| #[trigger] fits_spec(self.grid@, cells, r2, c2) ==> {
                    let d = center_distance(r as int, c as int, h, w);
                    let d2 = center_distance(r2, c2, h, w);
                    d < d2 || (d == d2 && (r < r2 || (r == r2 && c <= c2)))
                }
            },
    {
        if slot >= TRAY {
            return None;
        }
        let piece = match self.tray[slot] {
            Some(p) => p,
            None => {
                return None;
            },
        };
        let shape = piece.shape();
        proof {
            lemma_shape_small(piece.shape as int);
        }
        let ghost cells = shape.cells@;
        let h = shape.height();
        let w = shape.width();
        let mut best: Option<((i32, i32), i64)> = None;
        let mut r: usize = 0;
        while r <= N - h
            invariant
                h == shape_height(cells),
                w == shape_width(cells),
                1 <= h <= 5,
                1 <= w <= 5,
                r <= 9 - h,
                cells == shape.cells@,
                best is None ==> forall|r2: int, c2: int| 0 <= r2 < r ==> !fits_spec(self.grid@, cells, r2, c2),
                best matches Some(((br, bc), bd)) ==> {
                    &&& fits_spec(self.grid@, cells, br as int, bc as int)
                    &&& bd == center_distance(br as int, bc as int, h as int, w as int)
                    &&& br < r
                    &&& forall|r2: int, c2: int| 0 <= r2 < r && #[trigger] fits_spec(self.grid@, cells, r2, c2) ==> {
                        let d2 = center_distance(r2, c2, h as int, w as int);
                        bd < d2 || (bd == d2 && (br < r2 || (br == r2 && bc <= c2)))
                    }
                },
            decreases 9 - h - r,
        {
            let mut c: usize = 0;
            while c <= N - w
                invariant
                    h == shape_height(cells),
                    w == shape_width(cells),
                    1 <= h <= 5,
                    1 <= w <= 5,
                    r <= 8 - h,
                    c <= 9 - w,
                    cells == shape.cells@,
                    best is None ==> forall|r2: int, c2: int| (0 <= r2 < r || (r2 == r && 0 <= c2 < c)) ==> !fits_spec(self.grid@, cells, r2, c2),
                    best matches Some(((br, bc), bd)) ==> {
                        &&& fits_spec(self.grid@, cells, br as int, bc as int)
                        &&& bd == center_distance(br as int, bc as int, h as int, w as int)
                        &&& (br < r || (br == r && bc < c))
                        &&& forall|r2: int, c2: int| (0 <= r2 < r || (r2 == r && 0 <= c2 < c)) && #[trigger] fits_spec(self.grid@, cells, r2, c2) ==> {
                            let d2 = center_distance(r2, c2, h as int, w as int);
                            bd < d2 || (bd == d2 && (br < r2 || (br == r2 && bc <= c2)))
                        }
                    },
                decreases 9 - w - c,
            {
                if fits(&self.grid, &shape, r as i32, c as i32) {
                    let dr = 2 * (r as i64) + h as i64 - 8;
                    let dc = 2 * (c as i64) + w as i64 - 8;
                    proof {
                        assert(dr * dr <= 400) by (nonlinear_arith)
                            requires -20 <= dr <= 20;
                        assert(dc * dc <= 400) by (nonlinear_arith)
                            requires -20 <= dc <= 20;
                        assert(dr * dr >= 0) by (nonlinear_arith);
                        assert(dc * dc >= 0) by (nonlinear_arith);
                    }
                    let d = dr * dr + dc * dc;
                    let better = match best {
                        None => true,
                        Some((_, bd)) => d < bd,
                    };
                    if better {
                        best = Some(((r as i32, c as i32), d));
                    }
                }
                c += 1;
            }
            proof {
                assert forall|c2: int| c2 < 0 || c2 >= c implies !fits_spec(self.grid@, cells, r as int, c2) by {
                    assert(!in_bounds_spec(cells, r as int, c2));
                }
            }
            r += 1;
        }
        proof {
            assert forall|r2: int, c2: int| r2 < 0 || r2 >= r implies !fits_spec(self.grid@, cells, r2, c2) by {
                assert(!in_bounds_spec(cells, r2, c2));
            }
        }
        match best {
            Some((p, _)) => Some(p),
            None => None,
        }
    }
}

/// What a legal placement does to the game, and what it reports.
pub open spec fn placement_spec(old: Model, new: Model, slot: int, row: int, col: int, p: Placement) -> bool {
    let piece = old.tray@[slot].unwrap();
    let cells = shape_cells(piece.shape as int);
    let stamped = stamp_spec(old.grid@, cells, row, col, piece.color);
    let lines = p.rows@.len() + p.cols@.len();
    let emptied = old.tray@.update(slot, None);
    &&& p.cells@ == placed_cells(cells, row, col)
    &&& lists_rows(p.rows@, stamped)
    &&& lists_cols(p.cols@, stamped)
    &&& p.cleared@ == cleared_upto(stamped, p.rows@, p.cols@, 64)
    &&& new.grid@ == clear_full(stamped)
    &&& lines > 0 ==> new.combo == old.combo + 1 && new.since_clear == 0
    &&& lines == 0 ==> new.since_clear == old.since_clear + 1
        && new.combo == (if old.since_clear + 1 >= COMBO_GRACE { 0 } else { old.combo })
    &&& p.perfect == (lines > 0 && all_empty(new.grid@))
    &&& p.gain == move_score_spec(cells.len() as int, lines as int, if lines > 0 { new.combo } else { 0 }, p.perfect)
    &&& new.score == old.score + p.gain
    &&& new.best == (if old.best >= new.score { old.best } else { new.score })
    &&& p.combo == new.combo
    &&& p.refilled == (forall|s: int| 0 <= s < 3 ==> (#[trigger] emptied[s]).is_none())
    &&& !p.refilled ==> new.tray@ == emptied && new.rng == old.rng
    &&& p.refilled ==> forall|s: int| 0 <= s < 3 ==> (#[trigger] new.tray@[s]).is_some()
    &&& new.game_over == !any_fits_spec(new.grid@, new.tray)
    &&& p.game_over == new.game_over
    &&& new.difficulty == old.difficulty
}

/// A placement that completes no line scores exactly 10 a cell of the piece, whatever combo
/// streak is running: no multiplier and no bonus.
pub proof fn law_a_placement_without_a_line_scores_its_cells(old: Model, new: Model, slot: int, row: int, col: int, p: Placement)
    requires
        placement_spec(old, new, slot, row, col, p),
        p.rows@.len() + p.cols@.len() == 0,
    ensures
        p.gain == 10 * shape_cells(old.tray@[slot].unwrap().shape as int).len(),
        new.score == old.score + 10 * shape_cells(old.tray@[slot].unwrap().shape as int).len(),
        !p.perfect,
        new.since_clear == old.since_clear + 1,
        new.combo == (if old.since_clear + 1 >= 3 { 0 } else { old.combo as int }),
{
}

/// A placement that clears `lines` rows and columns extends the combo streak by one and scores
/// 10 a cell plus 100 x lines squared, times the streak's multiplier (x1 up to a streak of one,
/// then x1.5, x2, x2.5, x3, x3.5 up to a streak of six, x4 beyond), plus 5000 when it leaves
/// the board empty.
pub proof fn law_a_clearing_placement_scores_with_the_streak(old: Model, new: Model, slot: int, row: int, col: int,
    p: Placement)
    requires
        placement_spec(old, new, slot, row, col, p),
        p.rows@.len() + p.cols@.len() > 0,
    ensures
        ({
            let n = shape_cells(old.tray@[slot].unwrap().shape as int).len() as int;
            let lines = p.rows@.len() + p.cols@.len();
            let halves: int = if new.combo <= 1 { 2 } else if new.combo <= 6 { new.combo + 1 } else { 8 };
            &&& new.combo == old.combo + 1
            &&& new.since_clear == 0
            &&& p.gain == (n * 10 + lines * lines * 100) * halves / 2 + if p.perfect { 5000int } else { 0int }
            &&& new.score == old.score + p.gain
        }),
{
}

impl Model {
    /// A fresh game with its first tray dealt.
    pub fn new(seed: u64, difficulty: Difficulty) -> (m: Model)
        ensures
            m.wf(),
            all_empty(m.grid@),
            forall|s: int| 0 <= s < 3 ==> (#[trigger] m.tray@[s]).is_some(),
            m.score == 0,
            m.best == 0,
            m.combo == 0,
            m.since_clear == 0,
            m.difficulty == difficulty,
            m.game_over == !any_fits_spec(m.grid@, m.tray),
    {
        let mut m = Model {
            grid: [None;CELLS],
            tray: [None;TRAY],
            score: 0,
            best: 0,
            combo: 0,
            since_clear: 0,
            difficulty,
            game_over: false,
            rng: Rng(seed | 1),
        };
        m.refill();
        m.game_over = !m.any_fits();
        m
    }

    /// Start over at `difficulty`, reseeding the generator. The best score stays.
    pub fn new_game(&mut self, difficulty: Difficulty, seed: u64)
        requires
            old(self).wf(),
        ensures
            final(self).wf(),
            all_empty(final(self).grid@),
            forall|s: int| 0 <= s < 3 ==> (#[trigger] final(self).tray@[s]).is_some(),
            final(self).score == 0,
            final(self).best == old(self).best,
            final(self).combo == 0,
            final(self).since_clear == 0,
            final(self).difficulty == difficulty,
            final(self).game_over == !any_fits_spec(final(self).grid@, final(self).tray),
    {
        let best = self.best;
        *self = Model::new(seed, difficulty);
        self.best = best;
    }

    /// The move [`Model::place`] makes is legal: the game goes on, the slot holds a piece, and
    /// it fits there.
    pub open spec fn placement_allowed(&self, slot: int, row: int, col: int) -> bool {
        !self.game_over && self.can_place_spec(slot, row, col)
    }

    /// Place `slot`'s piece with its top-left cell at `(row, col)`: fill the cells, clear
    /// every full row and column at once, score the move, deal a new tray when this was the
    /// last piece, and decide whether the game is over. `None` (and no change) when the game
    /// has ended, the slot is empty, or the piece does not fit there.
    pub fn place(&mut self, slot: usize, row: i32, col: i32) -> (res: Option<Placement>)
        requires
            old(self).wf(),
            old(self).score <= i64::MAX - 200000,
            old(self).combo < u32::MAX,
            old(self).since_clear < u32::MAX,
        ensures
            final(self).wf(),
            res is None <==> !old(self).placement_allowed(slot as int, row as int, col as int),
            res is None ==> *final(self) == *old(self),
            res matches Some(p) ==> placement_spec(*old(self), *final(self), slot as int, row as int, col as int, p),
    {
        if self.game_over {
            return None;
        }
        if slot >= TRAY {
            return None;
        }
        let piece = match self.tray[slot] {
            Some(p) => p,
            None => {
                return None;
            },
        };
        let shape = piece.shape();
        if !fits(&self.grid, &shape, row, col) {
            return None;
        }
        let ghost old_self = *self;
        let ghost cells_spec = shape.cells@;
        proof {
            lemma_shape_small(piece.shape as int);
        }
        let r0 = row as usize;
        let c0 = col as usize;
        stamp(&mut self.grid, &shape, r0, c0, piece.color);
        let ghost stamped = self.grid@;
        let mut cells: Vec<usize> = Vec::new();
        let mut k: usize = 0;
        while k < shape.cells.len()
            invariant
                in_bounds_spec(cells_spec, row as int, col as int),
                cells_spec == shape.cells@,
                r0 == row,
                c0 == col,
                k <= cells_spec.len(),
                cells@ == placed_cells(cells_spec, row as int, col as int).take(k as int),
            decreases cells_spec.len() - k,
        {
            proof {
                lemma_cell_on_board(cells_spec, row as int, col as int, k as int);
            }
            let (r, c) = shape.cells[k];
            cells.push(idx(r0 + r as usize, c0 + c as usize));
            proof {
                assert(cells@ =~= placed_cells(cells_spec, row as int, col as int).take(k as int + 1));
            }
            k += 1;
        }
        proof {
            assert(cells@ =~= placed_cells(cells_spec, row as int, col as int));
        }
        self.tray[slot] = None;
        let ghost emptied = self.tray@;
        let (rows, cols) = full_lines(&self.grid);
        let cleared = clear_lines(&mut self.grid, rows.as_slice(), cols.as_slice());
        proof {
            lemma_clear_is_clear_full(stamped, rows@, cols@);
            lemma_ascending_below_8(rows@);
            lemma_ascending_below_8(cols@);
            assert forall|i: int| 0 <= i < 64 implies (#[trigger] self.grid@[i]).is_none() || self.grid@[i].unwrap() < COLORS by {
                if self.grid@[i].is_some() {
                    assert(stamped[i].is_some());
                    assert(old_self.grid@[i].is_some() ==> old_self.grid@[i].unwrap() < COLORS);
                }
            }
        }
        let lines = rows.len() + cols.len();
        if lines > 0 {
            self.combo += 1;
            self.since_clear = 0;
        } else {
            self.since_clear += 1;
            if self.since_clear >= COMBO_GRACE {
                self.combo = 0;
            }
        }
        let perfect = lines > 0 && grid_is_empty(&self.grid);
        let combo = if lines > 0 { self.combo } else { 0 };
        proof {
            assert(lines * lines <= 256) by (nonlinear_arith)
                requires 0 <= lines <= 16;
        }
        let gain = move_score(shape.size(), lines, combo, perfect);
        proof {
            assert(gain <= 200000) by (nonlinear_arith)
                requires
                    gain == move_score_spec(cells_spec.len() as int, lines as int, combo, perfect),
                    cells_spec.len() <= 9,
                    lines <= 16;
            assert(gain >= 0) by (nonlinear_arith)
                requires
                    gain == move_score_spec(cells_spec.len() as int, lines as int, combo, perfect),
                    lines >= 0;
        }
        self.score += gain;
        if self.best < self.score {
            self.best = self.score;
        }
        let refilled = self.tray[0].is_none() && self.tray[1].is_none() && self.tray[2].is_none();
        proof {
            assert(refilled == (forall|s: int| 0 <= s < 3 ==> (#[trigger] emptied[s]).is_none()));
        }
        if refilled {
            self.refill();
        }
        self.game_over = !self.any_fits();
        Some(Placement {
            cells,
            rows,
            cols,
            cleared,
            gain,
            combo: self.combo,
            perfect,
            refilled,
            game_over: self.game_over,
        })
    }
}

/// The durable game: a plain-value snapshot a host serializes. Effects are session-only.
pub struct SaveState {
    /// Row-major colors, -1 where empty.
    pub grid: Vec<i8>,
    /// Each slot's shape id and color, `None` once placed.
    pub tray: Vec<Option<(String, u8)>>,
    pub score: i64,
    pub best: i64,
    pub combo: u32,
    pub since_clear: u32,
    pub difficulty: Difficulty,
    pub game_over: bool,
}

/// A board cell as the save writes it: its color, or -1 when empty.
pub open spec fn encode_cell(c: Option<u8>) -> i8 {
    match c {
        Some(v) => v as i8,
        None => -1i8,
    }
}

/// A saved cell as the board holds it.
pub open spec fn decode_cell(v: i8) -> Option<u8> {
    if v == -1 { None } else { Some(v as u8) }
}

/// Some shape of the catalogue goes by `name`.
pub open spec fn known_shape(name: Seq<char>) -> bool {
    exists|i: int| 0 <= i < SHAPE_COUNT && shape_name(i) == name
}

/// The first shape of the catalogue that goes by `name`.
pub open spec fn shape_named(name: Seq<char>) -> int {
    choose|i: int| 0 <= i < SHAPE_COUNT && shape_name(i) == name
        && forall|j: int| 0 <= j < i ==> shape_name(j) != name
}

/// A save describes a legal position: a full board of palette colors or holes, and a tray of
/// three slots holding known shapes in palette colors.
pub open spec fn save_valid(s: SaveState) -> bool {
    &&& s.grid@.len() == CELLS
    &&& s.tray@.len() == TRAY
    &&& forall|i: int| 0 <= i < s.grid@.len() ==> #[trigger] s.grid@[i] == -1 || (0 <= s.grid@[i] < COLORS)
    &&& forall|k: int| 0 <= k < s.tray@.len() ==> match #[trigger] s.tray@[k] {
        Some((id, color)) => known_shape(id@) && color < COLORS,
        None => true,
    }
}

/// `s` is the save of game `m`: its cells as numbers, its pieces by shape name and color, and
/// its scores and flags as they are.
pub open spec fn saved_from(s: SaveState, m: Model) -> bool {
    &&& s.grid@ == m.grid@.map_values(|c: Option<u8>| encode_cell(c))
    &&& s.tray@.len() == 3
    &&& forall|k: int| 0 <= k < 3 ==> match #[trigger] s.tray@[k] {
        None => m.tray@[k].is_none(),
        Some((id, color)) => m.tray@[k].is_some() && id@ == shape_name(m.tray@[k].unwrap().shape as int)
            && color == m.tray@[k].unwrap().color,
    }
    &&& s.score == m.score
    &&& s.best == m.best
    &&& s.combo == m.combo
    &&& s.since_clear == m.since_clear
    &&& s.difficulty == m.difficulty
    &&& s.game_over == m.game_over
}

/// A game saved and restored comes back: the save of a game is always accepted, and restoring
/// it gives back the board, each slot's piece (its shape, by name, and its color), the score,
/// the best, the combo and the clearless count.
pub proof fn law_a_saved_game_comes_back(m: Model, s: SaveState)
    requires
        m.wf(),
        saved_from(s, m),
    ensures
        save_valid(s),
        s.grid@.map_values(|v: i8| decode_cell(v)) == m.grid@,
        forall|k: int| 0 <= k < 3 ==> match (decode_slot(#[trigger] s.tray@[k]), m.tray@[k]) {
            (None, None) => true,
            (Some(p), Some(q)) => shape_name(p.shape as int) == shape_name(q.shape as int) && p.color == q.color,
            _ => false,
        },
        (if s.score > 0 { s.score } else { 0 }) == m.score,
        (if s.best > m.score { s.best } else { m.score }) == m.best,
        s.combo == m.combo,
        s.since_clear == m.since_clear,
        s.difficulty == m.difficulty,
{
    assert forall|i: int| 0 <= i < s.grid@.len() implies #[trigger] s.grid@[i] == -1 || (0 <= s.grid@[i] < COLORS) by {
        assert(s.grid@[i] == encode_cell(m.grid@[i]));
        if let Some(v) = m.grid@[i] {
            lemma_color_cast(v);
        }
    }
    assert forall|k: int| 0 <= k < s.tray@.len() implies match #[trigger] s.tray@[k] {
        Some((id, color)) => known_shape(id@) && color < COLORS,
        None => true,
    } by {
        if let Some((id, color)) = s.tray@[k] {
            let q = m.tray@[k].unwrap();
            assert(q.wf());
            assert(0 <= q.shape < SHAPE_COUNT && shape_name(q.shape as int) == id@);
        }
    }
    assert(s.grid@.map_values(|v: i8| decode_cell(v)) =~= m.grid@) by {
        assert forall|i: int| 0 <= i < m.grid@.len() implies decode_cell(s.grid@[i]) == m.grid@[i] by {
            assert(s.grid@[i] == encode_cell(m.grid@[i]));
            if let Some(v) = m.grid@[i] {
                lemma_color_cast(v);
            }
        }
    }
    assert forall|k: int| 0 <= k < 3 implies match (decode_slot(#[trigger] s.tray@[k]), m.tray@[k]) {
        (None, None) => true,
        (Some(p), Some(q)) => shape_name(p.shape as int) == shape_name(q.shape as int) && p.color == q.color,
        _ => false,
    } by {
        if let Some((id, color)) = s.tray@[k] {
            let q = m.tray@[k].unwrap();
            assert(q.wf());
            assert(known_shape(id@));
            let i = shape_named(id@);
            assert(0 <= i < SHAPE_COUNT && shape_name(i) == id@) by {
                let w = choose|w: int| 0 <= w < SHAPE_COUNT && shape_name(w) == id@;
                lemma_first_named(id@, w);
            }
        }
    }
}

/// A palette color survives the trip through a saved cell's number.
proof fn lemma_color_cast(v: u8)
    requires
        v < COLORS,
    ensures
        (v as i8) as u8 == v,
        (v as i8) >= 0,
        (v as i8) < 8,
        (v as i8) != -1,
{
    assert(v < 8 ==> ((v as i8) as u8 == v && (v as i8) >= 0 && (v as i8) < 8)) by (bit_vector);
}

/// A name some shape goes by is the name of the first shape that goes by it.
proof fn lemma_first_named(name: Seq<char>, w: int)
    requires
        0 <= w < SHAPE_COUNT,
        shape_name(w) == name,
    ensures
        0 <= shape_named(name) < SHAPE_COUNT,
        shape_name(shape_named(name)) == name,
    decreases w,
{
    if exists|j: int| 0 <= j < w && shape_name(j) == name {
        let j = choose|j: int| 0 <= j < w && shape_name(j) == name;
        lemma_first_named(name, j);
    } else {
        assert(0 <= w < SHAPE_COUNT && shape_name(w) == name && forall|j: int| 0 <= j < w ==> shape_name(j) != name);
    }
}

/// The tray a valid save describes.
pub open spec fn decode_slot(t: Option<(String, u8)>) -> Option<Piece> {
    match t {
        Some((id, color)) => Some(Piece { shape: shape_named(id@) as usize, color }),
        None => None,
    }
}

/// The index of the first shape named `id`.
fn shape_index(id: &String) -> (res: Option<usize>)
    ensures
        res matches Some(i) ==> i < SHAPE_COUNT && shape_name(i as int) == id@
            && forall|j: int| 0 <= j < i ==> shape_name(j) != id@,
        res is None ==> !known_shape(id@),
{
    let mut i: usize = 0;
    while i < SHAPE_COUNT
        invariant
            i <= SHAPE_COUNT,
            forall|j: int| 0 <= j < i ==> shape_name(j) != id@,
        decreases SHAPE_COUNT - i,
    {
        let name = shape_at(i).id.to_owned();
        if *id == name {
            return Some(i);
        }
        i += 1;
    }
    None
}

impl Model {
    pub fn save_state(&self) -> (s: SaveState)
        requires
            self.wf(),
        ensures
            saved_from(s, *self),
    {
        let mut grid: Vec<i8> = Vec::new();
        let mut i: usize = 0;
        while i < CELLS
            invariant
                i <= 64,
                grid_wf(self.grid@),
                grid@ == self.grid@.map_values(|c: Option<u8>| encode_cell(c)).take(i as int),
            decreases 64 - i,
        {
            let v: i8 = match self.grid[i] {
                Some(c) => c as i8,
                None => -1,
            };
            grid.push(v);
            proof {
                assert(grid@ =~= self.grid@.map_values(|c: Option<u8>| encode_cell(c)).take(i as int + 1));
            }
            i += 1;
        }
        proof {
            assert(grid@ =~= self.grid@.map_values(|c: Option<u8>| encode_cell(c)));
        }
        let mut tray: Vec<Option<(String, u8)>> = Vec::new();
        let mut k: usize = 0;
        while k < TRAY
            invariant
                k <= 3,
                tray_wf(self.tray),
                tray@.len() == k,
                forall|j: int| 0 <= j < k ==> match #[trigger] tray@[j] {
                    None => self.tray@[j].is_none(),
                    Some((id, color)) => self.tray@[j].is_some() && id@ == shape_name(self.tray@[j].unwrap().shape as int)
                        && color == self.tray@[j].unwrap().color,
                },
            decreases 3 - k,
        {
            match self.tray[k] {
                Some(p) => {
                    let id = p.shape().id.to_owned();
                    tray.push(Some((id, p.color)));
                },
                None => {
                    tray.push(None);
                },
            }
            k += 1;
        }
        SaveState {
            grid,
            tray,
            score: self.score,
            best: self.best,
            combo: self.combo,
            since_clear: self.since_clear,
            difficulty: self.difficulty,
            game_over: self.game_over,
        }
    }

    /// Adopt a saved game. A save that does not describe a legal position (wrong size, an
    /// unknown shape, a color out of range) is rejected and leaves the model untouched.
    pub fn apply_save(&mut self, s: SaveState) -> (ok: bool)
        requires
            old(self).wf(),
        ensures
            ok == save_valid(s),
            !ok ==> *final(self) == *old(self),
            ok ==> {
                &&& final(self).wf()
                &&& final(self).grid@ == s.grid@.map_values(|v: i8| decode_cell(v))
                &&& (exists|k: int| 0 <= k < 3 && (#[trigger] s.tray@[k]).is_some())
                    ==> final(self).tray@ == s.tray@.map_values(|t: Option<(String, u8)>| decode_slot(t))
                &&& (forall|k: int| 0 <= k < 3 ==> (#[trigger] s.tray@[k]).is_none())
                    ==> forall|k: int| 0 <= k < 3 ==> (#[trigger] final(self).tray@[k]).is_some()
                &&& final(self).score == (if s.score > 0 { s.score } else { 0 })
                &&& final(self).best == (if s.best > final(self).score { s.best } else { final(self).score })
                &&& final(self).combo == s.combo
                &&& final(self).since_clear == s.since_clear
                &&& final(self).difficulty == s.difficulty
                &&& final(self).game_over == !any_fits_spec(final(self).grid@, final(self).tray)
            },
    {
        if s.grid.len() != CELLS || s.tray.len() != TRAY {
            return false;
        }
        let mut grid: Grid = [None;CELLS];
        let mut i: usize = 0;
        while i < CELLS
            invariant
                i <= 64,
                s.grid@.len() == 64,
                forall|j: int| 0 <= j < i ==> #[trigger] s.grid@[j] == -1 || (0 <= s.grid@[j] < COLORS),
                forall|j: int| 0 <= j < i ==> #[trigger] grid@[j] == decode_cell(s.grid@[j]),
            decreases 64 - i,
        {
            let v = s.grid[i];
            if v == -1 {
                grid[i] = None;
            } else if v >= 0 && (v as u8) < COLORS {
                grid[i] = Some(v as u8);
            } else {
                return false;
            }
            i += 1;
        }
        let mut tray: [Option<Piece>; TRAY] = [None;TRAY];
        let mut k: usize = 0;
        while k < TRAY
            invariant
                k <= 3,
                s.tray@.len() == 3,
                forall|j: int| 0 <= j < k ==> match #[trigger] s.tray@[j] {
                    Some((id, color)) => known_shape(id@) && color < COLORS,
                    None => true,
                },
                forall|j: int| 0 <= j < k ==> #[trigger] tray@[j] == decode_slot(s.tray@[j]),
                forall|j: int| 0 <= j < k ==> (#[trigger] tray@[j]).is_none() || tray@[j].unwrap().wf(),
                forall|j: int| k <= j < 3 ==> (#[trigger] tray@[j]).is_none(),
            decreases 3 - k,
        {
            match &s.tray[k] {
                Some((id, color)) => {
                    match shape_index(id) {
                        Some(shape) => {
                            if *color >= COLORS {
                                return false;
                            }
                            tray[k] = Some(Piece { shape, color: *color });
                            proof {
                                assert(known_shape(id@));
                                let f = shape_named(id@);
                                assert(0 <= f < SHAPE_COUNT && shape_name(f) == id@
                                    && forall|j: int| 0 <= j < f ==> shape_name(j) != id@);
                                if f < shape {
                                    assert(shape_name(f) != id@);
                                }
                                if shape < f {
                                    assert(shape_name(shape as int) != id@);
                                }
                            }
                        },
                        None => {
                            return false;
                        },
                    }
                },
                None => {},
            }
            k += 1;
        }
        proof {
            assert(grid@ =~= s.grid@.map_values(|v: i8| decode_cell(v)));
            assert(tray@ =~= s.tray@.map_values(|t: Option<(String, u8)>| decode_slot(t)));
            assert(save_valid(s));
        }
        self.grid = grid;
        self.tray = tray;
        self.score = if s.score > 0 { s.score } else { 0 };
        self.best = if s.best > self.score { s.best } else { self.score };
        self.combo = s.combo;
        self.since_clear = s.since_clear;
        self.difficulty = s.difficulty;
        // Recomputed rather than trusted, and an empty tray (never saved by this code) deals.
        if self.tray[0].is_none() && self.tray[1].is_none() && self.tray[2].is_none() {
            self.refill();
        }
        self.game_over = !self.any_fits();
        true
    }
}

} // verus!
