//! Mines: a board whose mines are laid only once the first tap has landed (so it can never be
//! the one that ends the game), revealing and the cascade it opens, flags, chording a
//! satisfied number, and the save. (The play clock and the best-time records are kept by the
//! host.)
use vstd::prelude::*;
use std::collections::VecDeque;
use crate::xorshift::{shuffle_seq, xorshift, xorshift_next};

verus! {

/// The three boards on offer.
#[derive(Clone, Copy, PartialEq, Eq, Debug, Default, Structural)]
pub enum Difficulty {
    #[default]
    Easy,
    Medium,
    Hard,
}

/// Every difficulty, easiest first.
pub fn difficulties() -> (d: [Difficulty; 3])
    ensures
        d@ == seq![Difficulty::Easy, Difficulty::Medium, Difficulty::Hard],
{
    [Difficulty::Easy, Difficulty::Medium, Difficulty::Hard]
}

/// The board's short side, long side and mines.
pub open spec fn size_spec(d: Difficulty) -> (usize, usize, usize) {
    match d {
        Difficulty::Easy => (9, 9, 10),
        Difficulty::Medium => (10, 15, 25),
        Difficulty::Hard => (12, 20, 55),
    }
}

impl Difficulty {
    pub fn index(self) -> (i: usize)
        ensures
            i == (match self {
                Difficulty::Easy => 0int,
                Difficulty::Medium => 1int,
                Difficulty::Hard => 2int,
            }),
    {
        match self {
            Difficulty::Easy => 0,
            Difficulty::Medium => 1,
            Difficulty::Hard => 2,
        }
    }

    /// The board's short and long side, and its mines. The counts are the difficulty; which
    /// way round they go is [`Difficulty::shape`]'s job, so a phone and a desktop play the
    /// same game.
    fn size(self) -> (s: (usize, usize, usize))
        ensures
            s == size_spec(self),
    {
        match self {
            Difficulty::Easy => (9, 9, 10),
            Difficulty::Medium => (10, 15, 25),
            Difficulty::Hard => (12, 20, 55),
        }
    }

    /// Columns and rows for a board with this much room: the long side lies along the window's
    /// long side, so the cells stay as big as the screen allows either way up.
    pub fn shape(self, landscape: bool) -> (s: (usize, usize))
        ensures
            s == (if landscape { (size_spec(self).1, size_spec(self).0) } else { (size_spec(self).0, size_spec(self).1) }),
    {
        let (short, long, _) = self.size();
        if landscape { (long, short) } else { (short, long) }
    }

    pub fn mines(self) -> (m: usize)
        ensures
            m == size_spec(self).2,
    {
        self.size().2
    }
}

/// Whichever way the window stands, a difficulty holds the same cells, stands tall in
/// portrait, and has room for its mines.
pub proof fn law_shape_turns_with_the_window(d: Difficulty)
    ensures
        size_spec(d).0 <= size_spec(d).1,
        size_spec(d).0 * size_spec(d).1 > size_spec(d).2,
{
}

/// What a cell is showing.
#[derive(Clone, Copy, PartialEq, Eq, Debug, Structural)]
pub enum Cell {
    Hidden,
    Flagged,
    Revealed,
}

/// What a tap did: everything the page needs for its sounds, haptics and animations.
#[derive(Clone, Debug, Default, PartialEq)]
pub struct Outcome {
    /// Cells uncovered, in the order the cascade reached them.
    pub revealed: Vec<usize>,
    pub flagged: Option<usize>,
    pub unflagged: Option<usize>,
    /// The reveal came from chording a satisfied number.
    pub chorded: bool,
    /// The mine that ended the game.
    pub boom: Option<usize>,
    pub won: bool,
    /// Nothing happened: a tap on an already-revealed blank, or a chord that is not satisfied.
    pub refused: bool,
}

impl Outcome {
    fn none() -> (o: Outcome)
        ensures
            o.revealed@.len() == 0,
            o.flagged is None,
            o.unflagged is None,
            !o.chorded,
            o.boom is None,
            !o.won,
            !o.refused,
    {
        Outcome {
            revealed: Vec::new(),
            flagged: None,
            unflagged: None,
            chorded: false,
            boom: None,
            won: false,
            refused: false,
        }
    }

    fn refused() -> (o: Outcome)
        ensures
            o.revealed@.len() == 0,
            o.flagged is None,
            o.unflagged is None,
            !o.chorded,
            o.boom is None,
            !o.won,
            o.refused,
    {
        let mut o = Outcome::none();
        o.refused = true;
        o
    }

    pub fn did_something(&self) -> (b: bool)
        ensures
            b == !self.refused,
    {
        !self.refused
    }
}

/// The cell `dr` rows and `dc` columns from `(c, r)`, when it is on a `cols` x `rows` board.
pub open spec fn offset_cell(cols: int, rows: int, c: int, r: int, dr: int, dc: int) -> Seq<usize> {
    if 0 <= c + dc < cols && 0 <= r + dr < rows { seq![((r + dr) * cols + c + dc) as usize] } else { Seq::empty() }
}

/// The up-to-eight cells around `i`, row above first, each row left to right.
pub open spec fn nbrs(cols: int, rows: int, i: int) -> Seq<usize> {
    let c = i % cols;
    let r = i / cols;
    offset_cell(cols, rows, c, r, -1, -1) + offset_cell(cols, rows, c, r, -1, 0) + offset_cell(cols, rows, c, r, -1, 1)
        + offset_cell(cols, rows, c, r, 0, -1) + offset_cell(cols, rows, c, r, 0, 1) + offset_cell(cols, rows, c, r, 1, -1)
        + offset_cell(cols, rows, c, r, 1, 0) + offset_cell(cols, rows, c, r, 1, 1)
}

/// How many of `cells` hold a mine.
pub open spec fn mines_among(mine: Seq<bool>, cells: Seq<usize>) -> int
    decreases cells.len(),
{
    if cells.len() == 0 {
        0
    } else {
        mines_among(mine, cells.drop_last()) + if mine[cells.last() as int] { 1int } else { 0 }
    }
}

/// How many cells show `what`.
pub open spec fn count_cells(state: Seq<Cell>, what: Cell) -> int
    decreases state.len(),
{
    if state.len() == 0 {
        0
    } else {
        count_cells(state.drop_last(), what) + if state.last() == what { 1int } else { 0 }
    }
}

/// How many cells are hidden and hold no mine.
pub open spec fn hidden_safe(state: Seq<Cell>, mine: Seq<bool>) -> int
    decreases state.len(),
{
    if state.len() == 0 {
        0
    } else {
        hidden_safe(state.drop_last(), mine.drop_last()) + if state.last() == Cell::Hidden && !mine.last() { 1int } else { 0 }
    }
}

proof fn lemma_count_bounds(state: Seq<Cell>, what: Cell)
    ensures
        0 <= count_cells(state, what) <= state.len(),
    decreases state.len(),
{
    if state.len() > 0 {
        lemma_count_bounds(state.drop_last(), what);
    }
}

proof fn lemma_count_update(state: Seq<Cell>, j: int, v: Cell, what: Cell)
    requires
        0 <= j < state.len(),
    ensures
        count_cells(state.update(j, v), what) == count_cells(state, what) - (if state[j] == what { 1int } else { 0 })
            + (if v == what { 1int } else { 0 }),
    decreases state.len(),
{
    let t = state.update(j, v);
    if j < state.len() - 1 {
        assert(t.drop_last() =~= state.drop_last().update(j, v));
        lemma_count_update(state.drop_last(), j, v, what);
    } else {
        assert(t.drop_last() =~= state.drop_last());
    }
}

proof fn lemma_hidden_safe_update(state: Seq<Cell>, mine: Seq<bool>, j: int, v: Cell)
    requires
        0 <= j < state.len(),
        state.len() == mine.len(),
    ensures
        hidden_safe(state.update(j, v), mine) == hidden_safe(state, mine) - (if state[j] == Cell::Hidden && !mine[j] { 1int } else { 0 })
            + (if v == Cell::Hidden && !mine[j] { 1int } else { 0 }),
        0 <= hidden_safe(state, mine) <= state.len(),
    decreases state.len(),
{
    let t = state.update(j, v);
    if j < state.len() - 1 {
        assert(t.drop_last() =~= state.drop_last().update(j, v));
        lemma_hidden_safe_update(state.drop_last(), mine.drop_last(), j, v);
    } else {
        assert(t.drop_last() =~= state.drop_last());
        lemma_hidden_safe_bounds(state.drop_last(), mine.drop_last());
    }
}

proof fn lemma_hidden_safe_bounds(state: Seq<Cell>, mine: Seq<bool>)
    ensures
        0 <= hidden_safe(state, mine) <= state.len(),
    decreases state.len(),
{
    if state.len() > 0 {
        lemma_hidden_safe_bounds(state.drop_last(), mine.drop_last());
    }
}

/// The board and the game on it.
#[derive(Clone, Debug, PartialEq)]
pub struct Board {
    pub cols: usize,
    pub rows: usize,
    pub mines: usize,
    pub mine: Vec<bool>,
    /// Mines touching each cell, once the mines are laid.
    pub near: Vec<u8>,
    pub state: Vec<Cell>,
    /// The mines are laid; before the first tap there are none, which is what keeps it safe.
    pub laid: bool,
    pub flags: usize,
    pub revealed: usize,
    /// The mine that ended the game.
    pub lost_at: Option<usize>,
    pub won: bool,
    /// Where the mine layout's shuffle starts.
    pub seed: u64,
}

/// How many revealed cells hold no mine.
pub open spec fn revealed_safe(state: Seq<Cell>, mine: Seq<bool>) -> int
    decreases state.len(),
{
    if state.len() == 0 {
        0
    } else {
        revealed_safe(state.drop_last(), mine.drop_last()) + if state.last() == Cell::Revealed && !mine.last() { 1int } else { 0 }
    }
}

/// How many cells hold no mine.
pub open spec fn safe_cells(mine: Seq<bool>) -> int
    decreases mine.len(),
{
    if mine.len() == 0 { 0 } else { safe_cells(mine.drop_last()) + if !mine.last() { 1int } else { 0 } }
}

proof fn lemma_revealed_safe_bounds(state: Seq<Cell>, mine: Seq<bool>)
    requires
        state.len() == mine.len(),
    ensures
        0 <= revealed_safe(state, mine) <= safe_cells(mine),
        revealed_safe(state, mine) <= count_cells(state, Cell::Revealed),
        safe_cells(mine) <= mine.len(),
    decreases state.len(),
{
    if state.len() > 0 {
        lemma_revealed_safe_bounds(state.drop_last(), mine.drop_last());
    }
}

proof fn lemma_revealed_safe_update(state: Seq<Cell>, mine: Seq<bool>, j: int, v: Cell)
    requires
        0 <= j < state.len(),
        state.len() == mine.len(),
    ensures
        revealed_safe(state.update(j, v), mine) == revealed_safe(state, mine) - (if state[j] == Cell::Revealed && !mine[j] { 1int } else { 0 })
            + (if v == Cell::Revealed && !mine[j] { 1int } else { 0 }),
    decreases state.len(),
{
    let t = state.update(j, v);
    if j < state.len() - 1 {
        assert(t.drop_last() =~= state.drop_last().update(j, v));
        lemma_revealed_safe_update(state.drop_last(), mine.drop_last(), j, v);
    } else {
        assert(t.drop_last() =~= state.drop_last());
    }
}

proof fn lemma_safe_cells_update(mine: Seq<bool>, j: int)
    requires
        0 <= j < mine.len(),
        !mine[j],
    ensures
        safe_cells(mine.update(j, true)) == safe_cells(mine) - 1,
    decreases mine.len(),
{
    let t = mine.update(j, true);
    if j < mine.len() - 1 {
        assert(t.drop_last() =~= mine.drop_last().update(j, true));
        lemma_safe_cells_update(mine.drop_last(), j);
    } else {
        assert(t.drop_last() =~= mine.drop_last());
    }
}

/// A cell index on a board `cols` wide and `rows` tall.
proof fn lemma_cell_index(cols: int, rows: int, r: int, c: int)
    requires
        0 <= r < rows,
        0 <= c < cols,
    ensures
        0 <= r * cols + c < cols * rows,
        (r * cols + c) % cols == c,
        (r * cols + c) / cols == r,
{
    assert(0 <= r * cols + c < cols * rows) by (nonlinear_arith)
        requires 0 <= r < rows, 0 <= c < cols;
    vstd::arithmetic::div_mod::lemma_fundamental_div_mod_converse(r * cols + c, cols, r, c);
}

/// The cell `i` splits into its column and row.
proof fn lemma_col_row(cols: int, rows: int, i: int)
    requires
        cols > 0,
        0 <= i < cols * rows,
    ensures
        0 <= i % cols < cols,
        0 <= i / cols < rows,
        i == (i / cols) * cols + i % cols,
{
    vstd::arithmetic::div_mod::lemma_fundamental_div_mod(i, cols);
    let q = i / cols;
    let r = i % cols;
    assert(0 <= r < cols);
    assert(q * cols == cols * q) by (nonlinear_arith);
    assert(0 <= q < rows) by (nonlinear_arith)
        requires i == cols * q + r, 0 <= r < cols, 0 <= i < cols * rows, cols > 0;
}

/// A board's mine layout is one the game can be in: before the first tap there are no mines
/// and nothing is revealed; after it the board holds at least its count of mines.
pub open spec fn mines_placed(laid: bool, mines: int, mine: Seq<bool>, state: Seq<Cell>) -> bool {
    &&& laid ==> mines + safe_cells(mine) == mine.len()
    &&& !laid ==> safe_cells(mine) == mine.len() && count_cells(state, Cell::Revealed) == 0
}

/// Every cell holds no mine.
proof fn lemma_safe_cells_all(mine: Seq<bool>)
    requires
        forall|i: int| 0 <= i < mine.len() ==> !#[trigger] mine[i],
    ensures
        safe_cells(mine) == mine.len(),
    decreases mine.len(),
{
    if mine.len() > 0 {
        lemma_safe_cells_all(mine.drop_last());
    }
}

proof fn lemma_safe_cells_bound(mine: Seq<bool>)
    ensures
        0 <= safe_cells(mine) <= mine.len(),
    decreases mine.len(),
{
    if mine.len() > 0 {
        lemma_safe_cells_bound(mine.drop_last());
    }
}

/// A board with every cell safe has no mine.
proof fn lemma_safe_cells_none(mine: Seq<bool>)
    requires
        safe_cells(mine) == mine.len(),
    ensures
        forall|i: int| 0 <= i < mine.len() ==> !#[trigger] mine[i],
    decreases mine.len(),
{
    if mine.len() > 0 {
        lemma_safe_cells_bound(mine.drop_last());
        lemma_safe_cells_none(mine.drop_last());
        assert forall|i: int| 0 <= i < mine.len() implies !#[trigger] mine[i] by {
            if i < mine.len() - 1 {
                assert(mine.drop_last()[i] == mine[i]);
            }
        }
    }
}

/// No cell shows `what` when none is counted.
proof fn lemma_count_zero(state: Seq<Cell>, what: Cell)
    requires
        count_cells(state, what) == 0,
    ensures
        forall|c: int| 0 <= c < state.len() ==> #[trigger] state[c] != what,
    decreases state.len(),
{
    if state.len() > 0 {
        lemma_count_bounds(state.drop_last(), what);
        lemma_count_zero(state.drop_last(), what);
        assert forall|c: int| 0 <= c < state.len() implies #[trigger] state[c] != what by {
            if c < state.len() - 1 {
                assert(state.drop_last()[c] == state[c]);
            }
        }
    }
}

/// With no mine uncovered, every uncovered cell is a safe one.
proof fn lemma_revealed_when_no_mine_shows(state: Seq<Cell>, mine: Seq<bool>)
    requires
        state.len() == mine.len(),
        forall|c: int| 0 <= c < state.len() ==> !(#[trigger] state[c] == Cell::Revealed && mine[c]),
    ensures
        revealed_safe(state, mine) == count_cells(state, Cell::Revealed),
    decreases state.len(),
{
    if state.len() > 0 {
        let s = state.drop_last();
        let m = mine.drop_last();
        assert forall|c: int| 0 <= c < s.len() implies !(#[trigger] s[c] == Cell::Revealed && m[c]) by {
            assert(s[c] == state[c] && m[c] == mine[c]);
        }
        lemma_revealed_when_no_mine_shows(s, m);
        assert(!(state[state.len() - 1] == Cell::Revealed && mine[mine.len() - 1]));
    }
}

proof fn lemma_count_constant(state: Seq<Cell>, v: Cell, what: Cell)
    requires
        forall|i: int| 0 <= i < state.len() ==> #[trigger] state[i] == v,
    ensures
        count_cells(state, what) == if v == what { state.len() as int } else { 0 },
    decreases state.len(),
{
    if state.len() > 0 {
        lemma_count_constant(state.drop_last(), v, what);
    }
}

/// A neighbor in direction `(dr, dc)` of a cell on the board is on the board.
proof fn lemma_offset_in_range(cols: int, rows: int, c: int, r: int, dr: int, dc: int)
    requires
        0 <= c < cols,
        0 <= r < rows,
        cols * rows <= usize::MAX,
    ensures
        forall|k: int| 0 <= k < offset_cell(cols, rows, c, r, dr, dc).len()
            ==> #[trigger] offset_cell(cols, rows, c, r, dr, dc)[k] < cols * rows,
{
    if 0 <= c + dc < cols && 0 <= r + dr < rows {
        lemma_cell_index(cols, rows, r + dr, c + dc);
    }
}

/// Every neighbor of a cell on the board is on the board.
proof fn lemma_nbrs_in_range(cols: int, rows: int, i: int)
    requires
        cols > 0,
        0 <= i < cols * rows,
        cols * rows <= usize::MAX,
    ensures
        forall|k: int| 0 <= k < nbrs(cols, rows, i).len() ==> #[trigger] nbrs(cols, rows, i)[k] < cols * rows,
{
    lemma_col_row(cols, rows, i);
    let c = i % cols;
    let r = i / cols;
    lemma_offset_in_range(cols, rows, c, r, -1, -1);
    lemma_offset_in_range(cols, rows, c, r, -1, 0);
    lemma_offset_in_range(cols, rows, c, r, -1, 1);
    lemma_offset_in_range(cols, rows, c, r, 0, -1);
    lemma_offset_in_range(cols, rows, c, r, 0, 1);
    lemma_offset_in_range(cols, rows, c, r, 1, -1);
    lemma_offset_in_range(cols, rows, c, r, 1, 0);
    lemma_offset_in_range(cols, rows, c, r, 1, 1);
    let p1 = offset_cell(cols, rows, c, r, -1, -1) + offset_cell(cols, rows, c, r, -1, 0);
    let p2 = p1 + offset_cell(cols, rows, c, r, -1, 1);
    let p3 = p2 + offset_cell(cols, rows, c, r, 0, -1);
    let p4 = p3 + offset_cell(cols, rows, c, r, 0, 1);
    let p5 = p4 + offset_cell(cols, rows, c, r, 1, -1);
    let p6 = p5 + offset_cell(cols, rows, c, r, 1, 0);
    let p7 = p6 + offset_cell(cols, rows, c, r, 1, 1);
    assert(forall|k: int| 0 <= k < p1.len() ==> #[trigger] p1[k] < cols * rows);
    assert(forall|k: int| 0 <= k < p2.len() ==> #[trigger] p2[k] < cols * rows);
    assert(forall|k: int| 0 <= k < p3.len() ==> #[trigger] p3[k] < cols * rows);
    assert(forall|k: int| 0 <= k < p4.len() ==> #[trigger] p4[k] < cols * rows);
    assert(forall|k: int| 0 <= k < p5.len() ==> #[trigger] p5[k] < cols * rows);
    assert(forall|k: int| 0 <= k < p6.len() ==> #[trigger] p6[k] < cols * rows);
    assert(forall|k: int| 0 <= k < p7.len() ==> #[trigger] p7[k] < cols * rows);
}

/// No cell of `cells` holds a mine, so none are counted.
proof fn lemma_mines_among_none(mine: Seq<bool>, cells: Seq<usize>)
    requires
        forall|k: int| 0 <= k < cells.len() ==> !mine[#[trigger] cells[k] as int],
    ensures
        mines_among(mine, cells) == 0,
    decreases cells.len(),
{
    if cells.len() > 0 {
        lemma_mines_among_none(mine, cells.drop_last());
    }
}

/// A count of zero means none of `cells` holds a mine.
proof fn lemma_mines_among_zero(mine: Seq<bool>, cells: Seq<usize>)
    requires
        mines_among(mine, cells) == 0,
    ensures
        forall|k: int| 0 <= k < cells.len() ==> !mine[#[trigger] cells[k] as int],
    decreases cells.len(),
{
    if cells.len() > 0 {
        lemma_mines_among_bound(mine, cells.drop_last());
        lemma_mines_among_zero(mine, cells.drop_last());
        assert forall|k: int| 0 <= k < cells.len() implies !mine[#[trigger] cells[k] as int] by {
            if k < cells.len() - 1 {
                assert(cells.drop_last()[k] == cells[k]);
            }
        }
    }
}

impl Board {
    /// The board's vectors hold one entry a cell, the counters count what they say, and the
    /// mines are laid as the game lays them.
    pub open spec fn wf(&self) -> bool {
        let n = self.cols * self.rows;
        &&& n <= usize::MAX
        &&& self.mine@.len() == n
        &&& self.near@.len() == n
        &&& self.state@.len() == n
        &&& self.mines <= n
        &&& (self.mines + 9 <= n || self.mines == 0)
        &&& self.flags == count_cells(self.state@, Cell::Flagged)
        &&& self.revealed == revealed_safe(self.state@, self.mine@)
        &&& mines_placed(self.laid, self.mines as int, self.mine@, self.state@)
        &&& counted(self.cols as int, self.rows as int, self.mine@, self.near@)
        &&& forall|c: int| 0 <= c < n && #[trigger] self.state@[c] == Cell::Revealed && self.mine@[c] ==> self.lost_at == Some(c as usize)
        &&& (self.lost_at matches Some(i) ==> i < n && self.mine@[i as int] && self.state@[i as int] == Cell::Revealed)
        &&& self.won ==> swept(self.state@, self.mine@)
        &&& self.seed % 2 == 1
    }

    pub open spec fn over_spec(&self) -> bool {
        self.won || self.lost_at is Some
    }

    pub fn new(cols: usize, rows: usize, mines: usize, seed: u64) -> (b: Board)
        requires
            cols * rows <= usize::MAX,
        ensures
            b.wf(),
            b.cols == cols,
            b.rows == rows,
            b.mines == room_for(mines as int, cols * rows),
            b.seed == seed | 1,
            forall|i: int| 0 <= i < cols * rows ==> !#[trigger] b.mine@[i] && b.near@[i] == 0 && b.state@[i] == Cell::Hidden,
            !b.laid,
            b.flags == 0,
            b.revealed == 0,
            b.lost_at is None,
            !b.won,
    {
        let n = cols * rows;
        // Room for the safe opening: the first tap and its neighbors never hold a mine.
        let room = if n >= 9 { n - 9 } else { 0 };
        let mines = if mines < room { mines } else { room };
        let b = Board {
            cols,
            rows,
            mines,
            mine: vec![false; n],
            near: vec![0; n],
            state: vec![Cell::Hidden; n],
            laid: false,
            flags: 0,
            revealed: 0,
            lost_at: None,
            won: false,
            seed: seed | 1,
        };
        proof {
            assert((seed | 1u64) % 2 == 1) by (bit_vector);
            lemma_count_constant(b.state@, Cell::Hidden, Cell::Flagged);
            lemma_count_constant(b.state@, Cell::Hidden, Cell::Revealed);
            lemma_safe_cells_all(b.mine@);
            lemma_revealed_safe_bounds(b.state@, b.mine@);
            assert forall|i: int| 0 <= i < cols * rows implies #[trigger] b.near@[i]
                == mines_among(b.mine@, nbrs(cols as int, rows as int, i)) by {
                lemma_nbrs_in_range(cols as int, rows as int, i);
                lemma_mines_among_none(b.mine@, nbrs(cols as int, rows as int, i));
            }
        }
        b
    }

    /// How many squares the board holds.
    pub fn cells(&self) -> (n: usize)
        requires
            self.cols * self.rows <= usize::MAX,
        ensures
            n == self.cols * self.rows,
    {
        self.cols * self.rows
    }

    pub fn at(&self, col: usize, row: usize) -> (i: usize)
        requires
            row * self.cols + col <= usize::MAX,
        ensures
            i == row * self.cols + col,
    {
        row * self.cols + col
    }

    pub fn col_row(&self, i: usize) -> (cr: (usize, usize))
        requires
            self.cols > 0,
        ensures
            cr == ((i % self.cols) as usize, (i / self.cols) as usize),
    {
        (i % self.cols, i / self.cols)
    }

    /// The up-to-eight cells around `i`, the row above first, each row left to right.
    #[verifier::rlimit(60)]
    pub fn neighbors(&self, i: usize) -> (out: Vec<usize>)
        requires
            self.cols > 0,
            i < self.cols * self.rows,
            self.cols * self.rows <= usize::MAX,
        ensures
            out@ == nbrs(self.cols as int, self.rows as int, i as int),
            forall|k: int| 0 <= k < out@.len() ==> #[trigger] out@[k] < self.cols * self.rows,
    {
        let cols = self.cols;
        let rows = self.rows;
        let c = i % cols;
        let r = i / cols;
        proof {
            lemma_col_row(cols as int, rows as int, i as int);
        }
        let mut out: Vec<usize> = Vec::new();
        let ghost ci = c as int;
        let ghost ri = r as int;
        // Row above.
        if r > 0 {
            proof { lemma_cell_index(cols as int, rows as int, ri - 1, ci); }
            if c > 0 {
                proof { lemma_cell_index(cols as int, rows as int, ri - 1, ci - 1); }
                out.push((r - 1) * cols + c - 1);
            }
            out.push((r - 1) * cols + c);
            if c + 1 < cols {
                proof { lemma_cell_index(cols as int, rows as int, ri - 1, ci + 1); }
                out.push((r - 1) * cols + c + 1);
            }
        }
        let ghost a = out@;
        proof {
            assert(a =~= offset_cell(cols as int, rows as int, ci, ri, -1, -1) + offset_cell(cols as int, rows as int, ci, ri, -1, 0)
                + offset_cell(cols as int, rows as int, ci, ri, -1, 1));
        }
        // This row.
        proof { lemma_cell_index(cols as int, rows as int, ri, ci); }
        if c > 0 {
            proof { lemma_cell_index(cols as int, rows as int, ri, ci - 1); }
            out.push(r * cols + c - 1);
        }
        if c + 1 < cols {
            proof { lemma_cell_index(cols as int, rows as int, ri, ci + 1); }
            out.push(r * cols + c + 1);
        }
        let ghost b = out@;
        proof {
            assert(b =~= a + offset_cell(cols as int, rows as int, ci, ri, 0, -1) + offset_cell(cols as int, rows as int, ci, ri, 0, 1));
        }
        // Row below.
        if r + 1 < rows {
            proof { lemma_cell_index(cols as int, rows as int, ri + 1, ci); }
            if c > 0 {
                proof { lemma_cell_index(cols as int, rows as int, ri + 1, ci - 1); }
                out.push((r + 1) * cols + c - 1);
            }
            out.push((r + 1) * cols + c);
            if c + 1 < cols {
                proof { lemma_cell_index(cols as int, rows as int, ri + 1, ci + 1); }
                out.push((r + 1) * cols + c + 1);
            }
        }
        proof {
            assert(out@ =~= b + offset_cell(cols as int, rows as int, ci, ri, 1, -1) + offset_cell(cols as int, rows as int, ci, ri, 1, 0)
                + offset_cell(cols as int, rows as int, ci, ri, 1, 1));
            assert(out@ =~= nbrs(cols as int, rows as int, i as int));
        }
        out
    }

    /// Whether the game has started (the first tap landed) and has not finished.
    pub fn live(&self) -> (b: bool)
        ensures
            b == (self.laid && !self.over_spec()),
    {
        self.laid && !self.over()
    }

    pub fn over(&self) -> (b: bool)
        ensures
            b == self.over_spec(),
    {
        self.won || self.lost_at.is_some()
    }

    /// Mines less flags: what the counter shows, which goes negative when over-flagged.
    pub fn mines_left(&self) -> (m: i64)
        requires
            self.mines <= i64::MAX,
            self.flags <= i64::MAX,
        ensures
            m == self.mines - self.flags,
    {
        self.mines as i64 - self.flags as i64
    }

    /// Hidden cells that hold no mine; zero means the board is swept.
    pub fn left_to_find(&self) -> (n: usize)
        requires
            self.wf(),
        ensures
            n == self.cols * self.rows - self.mines - self.revealed,
    {
        proof {
            lemma_revealed_safe_bounds(self.state@, self.mine@);
        }
        self.cells() - self.mines - self.revealed
    }
}

/// Each cell's count is the mines around it.
pub open spec fn counted(cols: int, rows: int, mine: Seq<bool>, near: Seq<u8>) -> bool {
    forall|i: int| 0 <= i < cols * rows ==> #[trigger] near[i] == mines_among(mine, nbrs(cols, rows, i))
}

/// Setting one entry true removes at most one false entry.
proof fn lemma_mark(s: Seq<bool>, j: int)
    requires
        0 <= j < s.len(),
    ensures
        crate::tally::count_false(s.update(j, true)) >= crate::tally::count_false(s) - 1,
{
    if !s[j] {
        crate::tally::lemma_count_false_update(s, j);
    } else {
        assert(s.update(j, true) =~= s);
    }
}

proof fn lemma_mines_among_bound(mine: Seq<bool>, cells: Seq<usize>)
    ensures
        0 <= mines_among(mine, cells) <= cells.len(),
    decreases cells.len(),
{
    if cells.len() > 0 {
        lemma_mines_among_bound(mine, cells.drop_last());
    }
}

proof fn lemma_nbrs_len(cols: int, rows: int, i: int)
    ensures
        nbrs(cols, rows, i).len() <= 8,
{
}

/// A small xorshift, so a board is reproducible from its seed.
struct Rng(u64);

impl Rng {
    fn next(&mut self) -> (x: u64)
        ensures
            x == xorshift(old(self).0),
            final(self).0 == x,
    {
        self.0 = xorshift_next(self.0);
        self.0
    }
}

/// The cells a first tap on `safe` keeps clear of mines: the tapped cell and its neighbors.
pub open spec fn kept_clear(cols: int, rows: int, safe: int) -> Seq<bool> {
    Seq::new((cols * rows) as nat, |c: int| c == safe || nbrs(cols, rows, safe).contains(c as usize))
}

/// The cells among the first `i` not marked in `marks`, in order.
pub open spec fn open_cells(marks: Seq<bool>, i: int) -> Seq<usize>
    decreases i,
{
    if i <= 0 {
        Seq::empty()
    } else {
        open_cells(marks, i - 1) + if !marks[i - 1] { seq![(i - 1) as usize] } else { Seq::empty() }
    }
}

/// Where a first tap on `safe` lays the mines: the cells it does not keep clear, in order,
/// shuffled by the generator from `seed`, the first `mines` of them.
pub open spec fn mine_spots(cols: int, rows: int, mines: int, seed: u64, safe: int) -> Seq<usize> {
    let spots = open_cells(kept_clear(cols, rows, safe), cols * rows);
    shuffle_seq(spots, seed, spots.len() as int).0.take(mines)
}

/// A save's cell byte: 1 a flag, 2 uncovered, anything else hidden.
pub open spec fn decode_cell(b: u8) -> Cell {
    if b == 1 { Cell::Flagged } else if b == 2 { Cell::Revealed } else { Cell::Hidden }
}

/// A cell's byte in a save.
pub open spec fn encode_cell(c: Cell) -> u8 {
    match c {
        Cell::Hidden => 0,
        Cell::Flagged => 1,
        Cell::Revealed => 2,
    }
}

/// The cells as a save writes them.
pub open spec fn encoded(state: Seq<Cell>) -> Seq<u8> {
    Seq::new(state.len(), |c: int| encode_cell(state[c]))
}

/// The cells a save's bytes stand for.
pub open spec fn decoded(bytes: Seq<u8>) -> Seq<Cell> {
    Seq::new(bytes.len(), |c: int| decode_cell(bytes[c]))
}

/// The mines a board of `n` cells takes when asked for `mines`: no more than leave room for the
/// safe opening of nine cells.
pub open spec fn room_for(mines: int, n: int) -> int {
    let room = if n >= 9 { n - 9 } else { 0 };
    if mines < room { mines } else { room }
}

/// A save's parts describe a game in progress: a board of cells, a mine layout the game could
/// have laid, no mine uncovered, and a safe cell still to find.
pub open spec fn save_fits(cols: int, rows: int, mines: int, mine: Seq<bool>, bytes: Seq<u8>, laid: bool) -> bool {
    let n = cols * rows;
    let state = decoded(bytes);
    &&& n <= usize::MAX
    &&& n > 0
    &&& mine.len() == n
    &&& bytes.len() == n
    &&& mines_placed(laid, room_for(mines, n), mine, state)
    &&& forall|c: int| 0 <= c < n ==> !(#[trigger] state[c] == Cell::Revealed && mine[c])
    &&& !swept(state, mine)
}

/// The durable whole-board snapshot. (The play clock is saved by the host beside it.)
#[derive(Clone, Debug)]
pub struct SaveState {
    pub difficulty: Difficulty,
    pub cols: usize,
    pub rows: usize,
    pub mines: usize,
    pub mine: Vec<bool>,
    pub state: Vec<u8>,
    pub laid: bool,
    pub seed: u64,
}

/// From `before` to `after` the cells of `list`, each once, went from hidden and safe to
/// uncovered, and no other cell changed.
pub open spec fn opened(before: Seq<Cell>, after: Seq<Cell>, mine: Seq<bool>, list: Seq<usize>) -> bool {
    &&& after.len() == before.len()
    &&& forall|j: int, k: int| 0 <= j < k < list.len() ==> list[j] != list[k]
    &&& forall|k: int| #![trigger list[k]] 0 <= k < list.len() ==> {
            &&& list[k] < before.len()
            &&& before[list[k] as int] == Cell::Hidden
            &&& !mine[list[k] as int]
            &&& after[list[k] as int] == Cell::Revealed
        }
    &&& forall|c: int| 0 <= c < before.len() && #[trigger] after[c] != before[c] ==> list.contains(c as usize)
}

/// Every blank among `list` has no hidden cell around it.
pub open spec fn blanks_open(cols: int, rows: int, near: Seq<u8>, state: Seq<Cell>, list: Seq<usize>) -> bool {
    forall|k: int, j: int| #![trigger list[k], nbrs(cols, rows, list[k] as int)[j]]
        0 <= k < list.len() && near[list[k] as int] == 0 && 0 <= j < nbrs(cols, rows, list[k] as int).len()
            ==> state[nbrs(cols, rows, list[k] as int)[j] as int] != Cell::Hidden
}

/// Two openings one after the other are one opening.
proof fn lemma_opened_trans(s0: Seq<Cell>, s1: Seq<Cell>, s2: Seq<Cell>, mine: Seq<bool>, l1: Seq<usize>, l2: Seq<usize>)
    requires
        opened(s0, s1, mine, l1),
        opened(s1, s2, mine, l2),
    ensures
        opened(s0, s2, mine, l1 + l2),
{
    let l = l1 + l2;
    assert forall|k: int| #![trigger l[k]] 0 <= k < l.len() implies {
        &&& l[k] < s0.len()
        &&& s0[l[k] as int] == Cell::Hidden
        &&& !mine[l[k] as int]
        &&& s2[l[k] as int] == Cell::Revealed
    } by {
        if k < l1.len() {
            let x = l1[k];
            assert(l[k] == x);
            if s2[x as int] != s1[x as int] {
                let w = choose|w: int| 0 <= w < l2.len() && l2[w] == x;
                assert(s1[l2[w] as int] == Cell::Hidden);
            }
        } else {
            let y = l2[k - l1.len()];
            assert(l[k] == y);
            if s1[y as int] != s0[y as int] {
                let w = choose|w: int| 0 <= w < l1.len() && l1[w] == y;
                assert(s1[l1[w] as int] == Cell::Revealed);
            }
        }
    }
    assert forall|j: int, k: int| 0 <= j < k < l.len() implies l[j] != l[k] by {
        if j < l1.len() && k >= l1.len() {
            assert(l[j] == l1[j]);
            assert(l[k] == l2[k - l1.len()]);
            assert(s1[l1[j] as int] == Cell::Revealed);
            assert(s1[l2[k - l1.len()] as int] == Cell::Hidden);
        } else if j < l1.len() {
            assert(l[j] == l1[j] && l[k] == l1[k]);
        } else {
            assert(l[j] == l2[j - l1.len()] && l[k] == l2[k - l1.len()]);
        }
    }
    assert forall|c: int| 0 <= c < s0.len() && #[trigger] s2[c] != s0[c] implies l.contains(c as usize) by {
        if s1[c] != s0[c] {
            let w = choose|w: int| 0 <= w < l1.len() && l1[w] == c as usize;
            assert(l[w] == l1[w]);
        } else {
            let w = choose|w: int| 0 <= w < l2.len() && l2[w] == c as usize;
            assert(l[l1.len() + w] == l2[w]);
        }
    }
}

/// Blanks with nothing hidden around them stay so while more cells open.
proof fn lemma_blanks_stay_open(cols: int, rows: int, near: Seq<u8>, s1: Seq<Cell>, s2: Seq<Cell>, mine: Seq<bool>,
    l: Seq<usize>, l2: Seq<usize>)
    requires
        cols > 0,
        cols * rows <= usize::MAX,
        s1.len() == cols * rows,
        forall|k: int| 0 <= k < l.len() ==> #[trigger] l[k] < cols * rows,
        blanks_open(cols, rows, near, s1, l),
        opened(s1, s2, mine, l2),
    ensures
        blanks_open(cols, rows, near, s2, l),
{
    assert forall|k: int, j: int| #![trigger l[k], nbrs(cols, rows, l[k] as int)[j]]
        0 <= k < l.len() && near[l[k] as int] == 0 && 0 <= j < nbrs(cols, rows, l[k] as int).len()
        implies s2[nbrs(cols, rows, l[k] as int)[j] as int] != Cell::Hidden by {
        lemma_nbrs_in_range(cols, rows, l[k] as int);
        let m = nbrs(cols, rows, l[k] as int)[j];
        if s2[m as int] != s1[m as int] {
            let w = choose|w: int| 0 <= w < l2.len() && l2[w] == m;
            assert(s2[l2[w] as int] == Cell::Revealed);
        }
    }
}

/// Two lists of open blanks make one.
proof fn lemma_blanks_join(cols: int, rows: int, near: Seq<u8>, state: Seq<Cell>, l1: Seq<usize>, l2: Seq<usize>)
    requires
        blanks_open(cols, rows, near, state, l1),
        blanks_open(cols, rows, near, state, l2),
    ensures
        blanks_open(cols, rows, near, state, l1 + l2),
{
    let l = l1 + l2;
    assert forall|k: int, j: int| #![trigger l[k], nbrs(cols, rows, l[k] as int)[j]]
        0 <= k < l.len() && near[l[k] as int] == 0 && 0 <= j < nbrs(cols, rows, l[k] as int).len()
        implies state[nbrs(cols, rows, l[k] as int)[j] as int] != Cell::Hidden by {
        if k < l1.len() {
            assert(l[k] == l1[k]);
        } else {
            assert(l[k] == l2[k - l1.len()]);
        }
    }
}

/// Every cell without a mine is uncovered.
pub open spec fn swept(state: Seq<Cell>, mine: Seq<bool>) -> bool {
    forall|c: int| 0 <= c < state.len() && !#[trigger] mine[c] ==> state[c] == Cell::Revealed
}

/// The uncovered safe cells are all the safe cells exactly when the board is swept.
proof fn lemma_swept(state: Seq<Cell>, mine: Seq<bool>)
    requires
        state.len() == mine.len(),
    ensures
        (revealed_safe(state, mine) == safe_cells(mine)) == swept(state, mine),
    decreases state.len(),
{
    if state.len() > 0 {
        let s = state.drop_last();
        let m = mine.drop_last();
        lemma_swept(s, m);
        lemma_revealed_safe_bounds(s, m);
        if swept(state, mine) {
            assert forall|c: int| 0 <= c < s.len() && !#[trigger] m[c] implies s[c] == Cell::Revealed by {
                assert(!mine[c]);
            }
        }
        if revealed_safe(state, mine) == safe_cells(mine) {
            assert forall|c: int| 0 <= c < state.len() && !#[trigger] mine[c] implies state[c] == Cell::Revealed by {
                if c < s.len() {
                    assert(!m[c]);
                }
            }
        }
    }
}

/// The board `after`, with each mine's cell as it was `before`.
pub open spec fn mines_as_before(after: Seq<Cell>, before: Seq<Cell>, mine: Seq<bool>) -> Seq<Cell> {
    Seq::new(after.len(), |c: int| if mine[c] { before[c] } else { after[c] })
}

/// The board with every mine flagged.
pub open spec fn mines_flagged(state: Seq<Cell>, mine: Seq<bool>) -> Seq<Cell> {
    Seq::new(state.len(), |c: int| if mine[c] { Cell::Flagged } else { state[c] })
}

/// How many of `cells` show a flag.
pub open spec fn flags_among(state: Seq<Cell>, cells: Seq<usize>) -> int
    decreases cells.len(),
{
    if cells.len() == 0 {
        0
    } else {
        flags_among(state, cells.drop_last()) + if state[cells.last() as int] == Cell::Flagged { 1int } else { 0 }
    }
}

/// The first of `cells` that is hidden and holds a mine.
pub open spec fn first_hidden_mine(state: Seq<Cell>, mine: Seq<bool>, cells: Seq<usize>) -> Option<usize>
    decreases cells.len(),
{
    if cells.len() == 0 {
        None
    } else if state[cells[0] as int] == Cell::Hidden && mine[cells[0] as int] {
        Some(cells[0])
    } else {
        first_hidden_mine(state, mine, cells.drop_first())
    }
}

/// An outcome that did nothing.
pub open spec fn refusal(o: Outcome) -> bool {
    &&& o.revealed@.len() == 0
    &&& o.flagged is None
    &&& o.unflagged is None
    &&& !o.chorded
    &&& o.boom is None
    &&& !o.won
    &&& o.refused
}

/// Two boards hold the same game.
pub open spec fn same_board(a: Board, b: Board) -> bool {
    &&& a.cols == b.cols && a.rows == b.rows && a.mines == b.mines
    &&& a.mine@ == b.mine@ && a.near@ == b.near@ && a.state@ == b.state@
    &&& a.laid == b.laid && a.flags == b.flags && a.revealed == b.revealed
    &&& a.lost_at == b.lost_at && a.won == b.won && a.seed == b.seed
}

/// Nothing that showed was hidden again between `s1` and `s2`, so blanks stay open.
proof fn lemma_blanks_keep(cols: int, rows: int, near: Seq<u8>, s1: Seq<Cell>, s2: Seq<Cell>, l: Seq<usize>)
    requires
        cols > 0,
        cols * rows <= usize::MAX,
        s1.len() == cols * rows,
        s2.len() == s1.len(),
        forall|k: int| 0 <= k < l.len() ==> #[trigger] l[k] < cols * rows,
        forall|c: int| 0 <= c < s1.len() && #[trigger] s1[c] != Cell::Hidden ==> s2[c] != Cell::Hidden,
        blanks_open(cols, rows, near, s1, l),
    ensures
        blanks_open(cols, rows, near, s2, l),
{
    assert forall|k: int, j: int| #![trigger l[k], nbrs(cols, rows, l[k] as int)[j]]
        0 <= k < l.len() && near[l[k] as int] == 0 && 0 <= j < nbrs(cols, rows, l[k] as int).len()
        implies s2[nbrs(cols, rows, l[k] as int)[j] as int] != Cell::Hidden by {
        lemma_nbrs_in_range(cols, rows, l[k] as int);
        let m = nbrs(cols, rows, l[k] as int)[j];
        assert(s1[m as int] != Cell::Hidden);
    }
}

/// Some of `cells` is hidden.
pub open spec fn hidden_among(state: Seq<Cell>, cells: Seq<usize>) -> bool {
    exists|k: int| 0 <= k < cells.len() && #[trigger] state[cells[k] as int] == Cell::Hidden
}

/// A chord on `i` is one the rules take: an uncovered number, in a game still on, with exactly
/// its count of flags around it.
pub open spec fn chord_allowed(b: Board, i: int) -> bool {
    &&& b.state@[i] == Cell::Revealed
    &&& b.near@[i] != 0
    &&& !b.over_spec()
    &&& flags_among(b.state@, nbrs(b.cols as int, b.rows as int, i)) == b.near@[i]
}

/// What an opening that hit no mine did, from the cells `before` to the board `after`: the
/// cells of `out.revealed` uncovered, each once; the blanks among them with nothing hidden
/// around; and the game won, with every mine flagged, exactly when no safe cell is left hidden.
pub open spec fn opening(before: Seq<Cell>, after: Board, out: Outcome) -> bool {
    &&& opened(before, mines_as_before(after.state@, before, after.mine@), after.mine@, out.revealed@)
    &&& blanks_open(after.cols as int, after.rows as int, after.near@, after.state@, out.revealed@)
    &&& after.won == swept(after.state@, after.mine@)
    &&& out.won == after.won
    &&& forall|c: int| 0 <= c < before.len() && #[trigger] after.mine@[c]
        ==> after.state@[c] == (if after.won { Cell::Flagged } else { before[c] })
    &&& after.lost_at is None
    &&& out.boom is None
    &&& !out.refused
}

/// What a chord on `i` did, from board `b` to board `a`.
pub open spec fn chord_result(b: Board, a: Board, i: int, out: Outcome) -> bool {
    let around = nbrs(b.cols as int, b.rows as int, i);
    &&& out.refused == !(chord_allowed(b, i) && hidden_among(b.state@, around))
    &&& out.refused ==> refusal(out) && same_board(a, b)
    &&& !out.refused ==> out.chorded && out.flagged is None && out.unflagged is None
    &&& !out.refused ==> out.boom == first_hidden_mine(b.state@, b.mine@, around)
    &&& !out.refused && out.boom is None ==> opening(b.state@, a, out)
    &&& !out.refused && out.boom is None ==> forall|k: int| 0 <= k < around.len()
        && #[trigger] b.state@[around[k] as int] == Cell::Hidden ==> a.state@[around[k] as int] == Cell::Revealed
    &&& out.boom matches Some(m) ==> {
        &&& a.lost_at == Some(m)
        &&& !a.won && !out.won
        &&& a.state@[m as int] == Cell::Revealed
        &&& opened(b.state@, a.state@.update(m as int, Cell::Hidden), b.mine@, out.revealed@)
        &&& blanks_open(a.cols as int, a.rows as int, a.near@, a.state@, out.revealed@)
    }
}

impl Board {
    /// How many mines are around cell `i`.
    fn count_near(&self, i: usize) -> (k: u8)
        requires
            self.cols > 0,
            i < self.cols * self.rows,
            self.cols * self.rows <= usize::MAX,
            self.mine@.len() == self.cols * self.rows,
        ensures
            k == mines_among(self.mine@, nbrs(self.cols as int, self.rows as int, i as int)),
    {
        let around = self.neighbors(i);
        let mut k: u8 = 0;
        let mut m: usize = 0;
        proof {
            lemma_nbrs_len(self.cols as int, self.rows as int, i as int);
        }
        while m < around.len()
            invariant
                m <= around@.len() <= 8,
                self.mine@.len() == self.cols * self.rows,
                forall|j: int| 0 <= j < around@.len() ==> #[trigger] around@[j] < self.cols * self.rows,
                k == mines_among(self.mine@, around@.take(m as int)),
                k <= m,
            decreases around@.len() - m,
        {
            proof {
                assert(around@.take(m as int + 1).drop_last() =~= around@.take(m as int));
            }
            if self.mine[around[m]] {
                k = k + 1;
            }
            m += 1;
        }
        proof {
            assert(around@.take(m as int) =~= around@);
        }
        k
    }

    /// Lay the mines, keeping `safe` and everything around it clear: a shuffle of the other
    /// cells, then the first `mines` of them.
    fn lay(&mut self, safe: usize)
        requires
            old(self).wf(),
            !old(self).laid,
            !old(self).won,
            old(self).cols > 0,
            safe < old(self).cols * old(self).rows,
        ensures
            final(self).wf(),
            final(self).laid,
            !final(self).mine@[safe as int],
            forall|k: int| 0 <= k < nbrs(old(self).cols as int, old(self).rows as int, safe as int).len()
                ==> !final(self).mine@[#[trigger] nbrs(old(self).cols as int, old(self).rows as int, safe as int)[k] as int],
            counted(final(self).cols as int, final(self).rows as int, final(self).mine@, final(self).near@),
            final(self).state@ == old(self).state@,
            final(self).cols == old(self).cols && final(self).rows == old(self).rows && final(self).mines == old(self).mines,
            final(self).flags == old(self).flags && final(self).revealed == old(self).revealed,
            final(self).lost_at == old(self).lost_at && final(self).won == old(self).won && final(self).seed == old(self).seed,
            forall|c: int| 0 <= c < old(self).cols * old(self).rows ==> #[trigger] final(self).mine@[c]
                == mine_spots(old(self).cols as int, old(self).rows as int, old(self).mines as int, old(self).seed, safe as int).contains(c as usize),
    {
        let n = self.cells();
        let around = self.neighbors(safe);
        let mut marks: Vec<bool> = vec![false; n];
        proof {
            crate::tally::lemma_count_false_all(marks@);
            lemma_nbrs_len(self.cols as int, self.rows as int, safe as int);
            lemma_mark(marks@, safe as int);
        }
        marks.set(safe, true);
        let mut m: usize = 0;
        while m < around.len()
            invariant
                m <= around@.len() <= 8,
                marks@.len() == n,
                forall|j: int| 0 <= j < around@.len() ==> #[trigger] around@[j] < n,
                crate::tally::count_false(marks@) >= n - 1 - m,
                safe < n,
                marks@[safe as int],
                forall|j: int| 0 <= j < m ==> marks@[#[trigger] around@[j] as int],
                forall|c: int| 0 <= c < n ==> #[trigger] marks@[c] == (c == safe || exists|j: int| 0 <= j < m && around@[j] == c),
            decreases around@.len() - m,
        {
            proof {
                lemma_mark(marks@, around@[m as int] as int);
            }
            marks.set(around[m], true);
            m += 1;
        }
        proof {
            assert forall|c: int| 0 <= c < n implies #[trigger] marks@[c] == kept_clear(self.cols as int, self.rows as int, safe as int)[c] by {
                if marks@[c] && c != safe {
                    let j = choose|j: int| 0 <= j < around@.len() && around@[j] == c;
                    assert(around@[j] == c as usize);
                }
                if nbrs(self.cols as int, self.rows as int, safe as int).contains(c as usize) {
                    let j = choose|j: int| 0 <= j < around@.len() && around@[j] == c as usize;
                    assert(around@[j] == c);
                }
            }
            assert(marks@ =~= kept_clear(self.cols as int, self.rows as int, safe as int));
        }
        let mut spots: Vec<usize> = Vec::new();
        let mut i: usize = 0;
        while i < n
            invariant
                i <= n,
                marks@.len() == n,
                spots@ == open_cells(marks@, i as int),
                spots@.len() == crate::tally::count_false(marks@.take(i as int)),
                forall|j: int| 0 <= j < spots@.len() ==> #[trigger] spots@[j] < i && !marks@[spots@[j] as int],
                forall|j: int, k: int| 0 <= j < k < spots@.len() ==> #[trigger] spots@[j] < #[trigger] spots@[k],
            decreases n - i,
        {
            proof {
                assert(marks@.take(i as int + 1).drop_last() =~= marks@.take(i as int));
            }
            if !marks[i] {
                spots.push(i);
            }
            i += 1;
        }
        proof {
            assert(marks@.take(n as int) =~= marks@);
            assert(spots@.len() >= n - 9);
        }
        let mut rng = Rng(self.seed);
        // Fisher-Yates over the eligible cells, then take the first `mines` of them.
        let ghost distinct = forall|j: int, k: int| 0 <= j < k < spots@.len() ==> spots@[j] != spots@[k];
        let mut i = spots.len();
        let ghost spots0 = spots@;
        let ghost goal = shuffle_seq(spots0, self.seed, spots0.len() as int).0;
        while i > 1
            invariant
                shuffle_seq(spots@, rng.0, i as int).0 == goal,
                spots@.len() == spots0.len(),
                i <= spots@.len(),
                spots@.len() >= n - 9,
                marks@.len() == n,
                forall|j: int| 0 <= j < spots@.len() ==> #[trigger] spots@[j] < n && !marks@[spots@[j] as int],
                forall|j: int, k: int| 0 <= j < spots@.len() && 0 <= k < spots@.len() && j != k ==> #[trigger] spots@[j] != #[trigger] spots@[k],
            decreases i,
        {
            i -= 1;
            let ghost s0 = spots@;
            let j = (rng.next() % (i as u64 + 1)) as usize;
            let a = spots[i];
            let b = spots[j];
            spots.set(i, b);
            spots.set(j, a);
            proof {
                assert(spots@ =~= s0.update(i as int, s0[j as int]).update(j as int, s0[i as int]));
            }
        }
        proof {
            assert(spots@ == goal);
            lemma_safe_cells_none(self.mine@);
            lemma_revealed_safe_bounds(self.state@, self.mine@);
        }
        let mut k: usize = 0;
        while k < self.mines
            invariant
                k <= self.mines,
                self.mines <= spots@.len(),
                !self.laid,
                self.mine@.len() == n,
                self.near@.len() == n,
                self.state@.len() == n,
                marks@.len() == n,
                n == self.cols * self.rows,
                safe < n,
                marks@[safe as int],
                forall|j: int| 0 <= j < around@.len() ==> marks@[#[trigger] around@[j] as int],
                safe_cells(self.mine@) == n - k,
                forall|j: int| 0 <= j < spots@.len() ==> #[trigger] spots@[j] < n && !marks@[spots@[j] as int],
                forall|j: int, m2: int| 0 <= j < spots@.len() && 0 <= m2 < spots@.len() && j != m2 ==> #[trigger] spots@[j] != #[trigger] spots@[m2],
                forall|c: int| 0 <= c < n && #[trigger] self.mine@[c] ==> exists|j: int| 0 <= j < k && spots@[j] == c,
                forall|c: int| 0 <= c < n ==> #[trigger] self.mine@[c] == spots@.take(k as int).contains(c as usize),
                spots@ == goal,
                self.state@ == old(self).state@,
                self.cols == old(self).cols && self.rows == old(self).rows && self.mines == old(self).mines,
                self.flags == old(self).flags && self.revealed == old(self).revealed,
                self.lost_at == old(self).lost_at && self.won == old(self).won && self.seed == old(self).seed,
            decreases self.mines - k,
        {
            let c = spots[k];
            proof {
                if self.mine@[c as int] {
                    let j = choose|j: int| 0 <= j < k && spots@[j] == c;
                    assert(spots@[j] != spots@[k as int]);
                }
                lemma_safe_cells_update(self.mine@, c as int);
            }
            let ghost m0 = self.mine@;
            self.mine.set(c, true);
            k += 1;
            proof {
                assert(spots@.take(k as int) =~= spots@.take(k as int - 1).push(c));
                assert forall|c2: int| 0 <= c2 < n implies #[trigger] self.mine@[c2] == spots@.take(k as int).contains(c2 as usize) by {
                    if c2 != c as int {
                        assert(self.mine@[c2] == m0[c2]);
                        if spots@.take(k as int).contains(c2 as usize) {
                            let w = choose|w: int| 0 <= w < k && spots@.take(k as int)[w] == c2 as usize;
                            assert(w < k - 1);
                            assert(spots@.take(k as int - 1)[w] == c2 as usize);
                        }
                    } else {
                        assert(spots@.take(k as int)[k - 1] == c);
                    }
                }
            }
            proof {
                assert forall|c2: int| 0 <= c2 < n && #[trigger] self.mine@[c2] implies exists|j: int| 0 <= j < k && spots@[j] == c2 by {
                    if c2 == c as int {
                        assert(spots@[k - 1] == c2);
                    } else {
                        let j = choose|j: int| 0 <= j < k - 1 && spots@[j] == c2;
                        assert(0 <= j < k && spots@[j] == c2);
                    }
                }
            }
        }
        proof {
            assert forall|j: int| 0 <= j < around@.len() implies !self.mine@[#[trigger] around@[j] as int] by {
                if self.mine@[around@[j] as int] {
                    let w = choose|w: int| 0 <= w < k && spots@[w] == around@[j];
                    assert(!marks@[spots@[w] as int]);
                }
            }
            if self.mine@[safe as int] {
                let w = choose|w: int| 0 <= w < k && spots@[w] == safe;
                assert(!marks@[spots@[w] as int]);
            }
        }
        let mut i: usize = 0;
        while i < n
            invariant
                i <= n,
                n == self.cols * self.rows,
                n <= usize::MAX,
                self.cols > 0,
                self.mine@.len() == n,
                self.near@.len() == n,
                self.state@.len() == n,
                forall|j: int| 0 <= j < i ==> #[trigger] self.near@[j] == mines_among(self.mine@, nbrs(self.cols as int, self.rows as int, j)),
                safe_cells(self.mine@) == n - self.mines,
                safe < n,
                !self.mine@[safe as int],
                around@ == nbrs(self.cols as int, self.rows as int, safe as int),
                forall|j: int| 0 <= j < around@.len() ==> !self.mine@[#[trigger] around@[j] as int],
                forall|c: int| 0 <= c < n ==> #[trigger] self.mine@[c] == goal.take(self.mines as int).contains(c as usize),
                !self.laid,
                self.state@ == old(self).state@,
                self.cols == old(self).cols && self.rows == old(self).rows && self.mines == old(self).mines,
                self.flags == old(self).flags && self.revealed == old(self).revealed,
                self.lost_at == old(self).lost_at && self.won == old(self).won && self.seed == old(self).seed,
            decreases n - i,
        {
            let c = self.count_near(i);
            self.near.set(i, c);
            i += 1;
        }
        self.laid = true;
        proof {
            lemma_revealed_safe_bounds(self.state@, self.mine@);
            lemma_count_zero(self.state@, Cell::Revealed);
        }
    }

    /// Every cell that is not a mine is uncovered: the game is won, and the mines it never had
    /// to touch are flagged for it.
    fn check_won(&mut self, out: &mut Outcome)
        requires
            old(self).wf(),
            old(self).laid,
            !old(self).over_spec(),
        ensures
            final(self).wf(),
            final(self).cols == old(self).cols && final(self).rows == old(self).rows,
            final(self).mines == old(self).mines && final(self).laid == old(self).laid,
            final(self).mine@ == old(self).mine@ && final(self).near@ == old(self).near@,
            final(self).revealed == old(self).revealed && final(self).seed == old(self).seed,
            final(self).lost_at == old(self).lost_at,
            final(self).won == swept(old(self).state@, old(self).mine@),
            final(self).state@ == (if final(self).won { mines_flagged(old(self).state@, old(self).mine@) } else { old(self).state@ }),
            final(out).won == (old(out).won || final(self).won),
            final(out).revealed@ == old(out).revealed@,
            final(out).flagged == old(out).flagged && final(out).unflagged == old(out).unflagged,
            final(out).chorded == old(out).chorded && final(out).boom == old(out).boom,
            final(out).refused == old(out).refused,
    {
        proof {
            lemma_swept(self.state@, self.mine@);
            lemma_revealed_safe_bounds(self.state@, self.mine@);
        }
        if self.left_to_find() > 0 {
            return;
        }
        self.won = true;
        out.won = true;
        let n = self.cells();
        let ghost first = self.state@;
        let mut i: usize = 0;
        while i < n
            invariant
                i <= n,
                n == self.cols * self.rows,
                n <= usize::MAX,
                self.state@.len() == n,
                self.mine@.len() == n,
                first.len() == n,
                self.mine@ == old(self).mine@,
                first == old(self).state@,
                self.cols == old(self).cols && self.rows == old(self).rows,
                self.mines == old(self).mines && self.laid == old(self).laid,
                self.near@ == old(self).near@ && self.seed == old(self).seed,
                self.lost_at == old(self).lost_at && self.lost_at is None,
                self.won,
                old(self).wf(),
                forall|c: int| 0 <= c < n && #[trigger] first[c] == Cell::Revealed ==> !self.mine@[c],
                forall|c: int| 0 <= c < i ==> #[trigger] self.state@[c] == (if self.mine@[c] { Cell::Flagged } else { first[c] }),
                forall|c: int| i <= c < n ==> #[trigger] self.state@[c] == first[c],
                self.flags == count_cells(self.state@, Cell::Flagged),
                self.revealed == revealed_safe(self.state@, self.mine@),
                self.revealed == old(self).revealed,
            decreases n - i,
        {
            if self.mine[i] && self.state[i] != Cell::Flagged {
                proof {
                    lemma_count_update(self.state@, i as int, Cell::Flagged, Cell::Flagged);
                    lemma_revealed_safe_update(self.state@, self.mine@, i as int, Cell::Flagged);
                    lemma_count_bounds(self.state@.update(i as int, Cell::Flagged), Cell::Flagged);
                }
                self.state.set(i, Cell::Flagged);
                self.flags += 1;
            }
            i += 1;
        }
        proof {
            assert(self.state@ =~= mines_flagged(first, self.mine@));
            assert forall|c: int| 0 <= c < n && #[trigger] self.state@[c] == Cell::Revealed && self.mine@[c]
                implies self.lost_at == Some(c as usize) by {
            }
        }
    }

    /// Plant or lift a flag. Flagging before the first tap is allowed; it lays nothing.
    pub fn flag(&mut self, i: usize) -> (out: Outcome)
        requires
            old(self).wf(),
        ensures
            final(self).wf(),
            final(self).cols == old(self).cols && final(self).rows == old(self).rows,
            final(self).mines == old(self).mines && final(self).laid == old(self).laid,
            final(self).mine@ == old(self).mine@ && final(self).near@ == old(self).near@,
            final(self).revealed == old(self).revealed && final(self).seed == old(self).seed,
            final(self).lost_at == old(self).lost_at && final(self).won == old(self).won,
            i >= old(self).cols * old(self).rows || old(self).over_spec() || old(self).state@[i as int] == Cell::Revealed
                ==> refusal(out) && same_board(*final(self), *old(self)),
            i < old(self).cols * old(self).rows && !old(self).over_spec() && old(self).state@[i as int] == Cell::Hidden ==> {
                &&& final(self).state@ == old(self).state@.update(i as int, Cell::Flagged)
                &&& final(self).flags == old(self).flags + 1
                &&& out.flagged == Some(i) && out.unflagged is None && out.revealed@.len() == 0
                &&& !out.chorded && out.boom is None && !out.won && !out.refused
            },
            i < old(self).cols * old(self).rows && !old(self).over_spec() && old(self).state@[i as int] == Cell::Flagged ==> {
                &&& final(self).state@ == old(self).state@.update(i as int, Cell::Hidden)
                &&& final(self).flags == old(self).flags - 1
                &&& out.unflagged == Some(i) && out.flagged is None && out.revealed@.len() == 0
                &&& !out.chorded && out.boom is None && !out.won && !out.refused
            },
    {
        if i >= self.cells() || self.over() {
            return Outcome::refused();
        }
        match self.state[i] {
            Cell::Hidden => {
                proof {
                    lemma_count_update(self.state@, i as int, Cell::Flagged, Cell::Flagged);
                    lemma_count_update(self.state@, i as int, Cell::Flagged, Cell::Revealed);
                    lemma_revealed_safe_update(self.state@, self.mine@, i as int, Cell::Flagged);
                    lemma_count_bounds(self.state@.update(i as int, Cell::Flagged), Cell::Flagged);
                }
                self.state.set(i, Cell::Flagged);
                self.flags += 1;
                let mut out = Outcome::none();
                out.flagged = Some(i);
                out
            },
            Cell::Flagged => {
                proof {
                    lemma_count_update(self.state@, i as int, Cell::Hidden, Cell::Flagged);
                    lemma_count_update(self.state@, i as int, Cell::Hidden, Cell::Revealed);
                    lemma_revealed_safe_update(self.state@, self.mine@, i as int, Cell::Hidden);
                    lemma_count_bounds(self.state@.update(i as int, Cell::Hidden), Cell::Flagged);
                }
                self.state.set(i, Cell::Hidden);
                self.flags -= 1;
                let mut out = Outcome::none();
                out.unflagged = Some(i);
                out
            },
            Cell::Revealed => Outcome::refused(),
        }
    }

    /// How many flags are around cell `i`.
    fn flags_around(&self, i: usize) -> (f: usize)
        requires
            self.cols > 0,
            i < self.cols * self.rows,
            self.cols * self.rows <= usize::MAX,
            self.state@.len() == self.cols * self.rows,
        ensures
            f == flags_among(self.state@, nbrs(self.cols as int, self.rows as int, i as int)),
    {
        let around = self.neighbors(i);
        let mut f: usize = 0;
        let mut k: usize = 0;
        while k < around.len()
            invariant
                k <= around@.len(),
                forall|j: int| 0 <= j < around@.len() ==> #[trigger] around@[j] < self.cols * self.rows,
                self.state@.len() == self.cols * self.rows,
                f == flags_among(self.state@, around@.take(k as int)),
                f <= k,
            decreases around@.len() - k,
        {
            proof {
                assert(around@.take(k as int + 1).drop_last() =~= around@.take(k as int));
            }
            if self.state[around[k]] == Cell::Flagged {
                f += 1;
            }
            k += 1;
        }
        proof {
            assert(around@.take(k as int) =~= around@);
        }
        f
    }

    /// A revealed number with exactly its flags around it opens the rest of its neighbors: the
    /// move that makes a big board quick, and the one that ends a game on a misplaced flag.
    #[verifier::rlimit(80)]
    pub fn chord(&mut self, i: usize) -> (out: Outcome)
        requires
            old(self).wf(),
            i < old(self).cols * old(self).rows,
        ensures
            final(self).wf(),
            final(self).cols == old(self).cols && final(self).rows == old(self).rows,
            final(self).mines == old(self).mines && final(self).laid == old(self).laid,
            final(self).mine@ == old(self).mine@ && final(self).near@ == old(self).near@,
            final(self).seed == old(self).seed,
            chord_result(*old(self), *final(self), i as int, out),
    {
        let ghost b0 = *self;
        if self.state[i] != Cell::Revealed || self.near[i] == 0 || self.over() {
            return Outcome::refused();
        }
        if self.flags_around(i) != self.near[i] as usize {
            return Outcome::refused();
        }
        proof {
            if !self.laid {
                lemma_count_zero(self.state@, Cell::Revealed);
            }
        }
        let n = self.cells();
        let around = self.neighbors(i);
        let mut out = Outcome::none();
        out.chorded = true;
        let mut k: usize = 0;
        proof {
            assert(around@.skip(0) =~= around@);
        }
        while k < around.len()
            invariant
                self.wf(),
                self.laid && b0.laid,
                b0 == *old(self),
                chord_allowed(b0, i as int),
                n == self.cols * self.rows,
                self.cols == b0.cols && self.rows == b0.rows && self.mines == b0.mines,
                self.mine@ == b0.mine@ && self.near@ == b0.near@ && self.seed == b0.seed,
                self.lost_at is None && !self.won,
                b0.state@.len() == n,
                k <= around@.len(),
                around@ == nbrs(self.cols as int, self.rows as int, i as int),
                forall|j: int| 0 <= j < around@.len() ==> #[trigger] around@[j] < n,
                out.chorded && !out.refused && out.boom is None && !out.won,
                out.flagged is None && out.unflagged is None,
                opened(b0.state@, self.state@, self.mine@, out.revealed@),
                blanks_open(self.cols as int, self.rows as int, self.near@, self.state@, out.revealed@),
                forall|c: int| 0 <= c < n && #[trigger] self.mine@[c] ==> self.state@[c] == b0.state@[c],
                first_hidden_mine(b0.state@, self.mine@, around@.skip(k as int)) == first_hidden_mine(b0.state@, self.mine@, around@),
                forall|j: int| 0 <= j < k && #[trigger] b0.state@[around@[j] as int] == Cell::Hidden
                    ==> self.state@[around@[j] as int] == Cell::Revealed && out.revealed@.len() > 0,
                out.revealed@.len() > 0 ==> hidden_among(b0.state@, around@),
            decreases around@.len() - k,
        {
            let c = around[k];
            proof {
                assert(around@.skip(k as int)[0] == c);
                assert(around@.skip(k as int).drop_first() =~= around@.skip(k as int + 1));
                if self.state@[c as int] != b0.state@[c as int] {
                    let w = choose|w: int| 0 <= w < out.revealed@.len() && out.revealed@[w] == c;
                }
            }
            if self.state[c] == Cell::Hidden {
                if self.mine[c] {
                    let ghost sb = self.state@;
                    proof {
                        lemma_count_update(self.state@, c as int, Cell::Revealed, Cell::Flagged);
                        lemma_revealed_safe_update(self.state@, self.mine@, c as int, Cell::Revealed);
                    }
                    self.lost_at = Some(c);
                    self.state.set(c, Cell::Revealed);
                    out.boom = Some(c);
                    proof {
                        assert(b0.state@[around@[k as int] as int] == Cell::Hidden);
                        assert(self.state@.update(c as int, Cell::Hidden) =~= sb);
                        lemma_blanks_keep(self.cols as int, self.rows as int, self.near@, sb, self.state@, out.revealed@);
                        assert forall|d: int| 0 <= d < n && #[trigger] self.state@[d] == Cell::Revealed && self.mine@[d]
                            implies self.lost_at == Some(d as usize) by {
                            if d != c as int {
                                assert(sb[d] == Cell::Revealed);
                            }
                        }
                    }
                    return out;
                }
                let ghost sb = self.state@;
                let ghost lb = out.revealed@;
                self.cascade(c, &mut out);
                proof {
                    let added = out.revealed@.skip(lb.len() as int);
                    assert(out.revealed@ =~= lb + added);
                    lemma_opened_trans(b0.state@, sb, self.state@, self.mine@, lb, added);
                    lemma_blanks_stay_open(self.cols as int, self.rows as int, self.near@, sb, self.state@, self.mine@, lb, added);
                    lemma_blanks_join(self.cols as int, self.rows as int, self.near@, self.state@, lb, added);
                    assert(added[0] == c);
                    if b0.state@[c as int] != sb[c as int] {
                        let w = choose|w: int| 0 <= w < lb.len() && lb[w] == c;
                        assert(sb[lb[w] as int] == Cell::Revealed);
                    }
                    assert(b0.state@[around@[k as int] as int] == Cell::Hidden);
                    assert forall|j: int| 0 <= j <= k && #[trigger] b0.state@[around@[j] as int] == Cell::Hidden
                        implies self.state@[around@[j] as int] == Cell::Revealed && out.revealed@.len() > 0 by {
                        if j < k {
                            assert(sb[around@[j] as int] == Cell::Revealed);
                        }
                    }
                }
            }
            k += 1;
        }
        proof {
            assert(around@.skip(k as int) =~= Seq::<usize>::empty());
        }
        if out.revealed.len() == 0 {
            proof {
                assert(self.state@ =~= b0.state@);
                assert(!hidden_among(b0.state@, around@));
            }
            return Outcome::refused();
        }
        let ghost mid = self.state@;
        proof {
            assert(!self.over_spec());
        }
        self.check_won(&mut out);
        proof {
            assert(mines_as_before(self.state@, b0.state@, self.mine@) =~= mid);
            assert forall|d: int| 0 <= d < n && #[trigger] mid[d] != Cell::Hidden implies self.state@[d] != Cell::Hidden by {
            }
            lemma_blanks_keep(self.cols as int, self.rows as int, self.near@, mid, self.state@, out.revealed@);
            assert(swept(self.state@, self.mine@) == swept(mid, self.mine@));
        }
        out
    }

    /// Uncover `i`: the first tap lays the mines around it, a blank opens everything it touches,
    /// and a tap on a number that has its flags chords instead.
    pub fn uncover(&mut self, i: usize) -> (out: Outcome)
        requires
            old(self).wf(),
        ensures
            final(self).wf(),
            final(self).cols == old(self).cols && final(self).rows == old(self).rows,
            final(self).mines == old(self).mines && final(self).seed == old(self).seed,
            i >= old(self).cols * old(self).rows || old(self).over_spec()
                || old(self).state@[i as int] == Cell::Flagged ==> refusal(out) && same_board(*final(self), *old(self)),
            i < old(self).cols * old(self).rows && !old(self).over_spec() && old(self).state@[i as int] == Cell::Revealed
                ==> chord_result(*old(self), *final(self), i as int, out)
                    && final(self).mine@ == old(self).mine@ && final(self).near@ == old(self).near@
                    && final(self).laid == old(self).laid,
            i < old(self).cols * old(self).rows && !old(self).over_spec() && old(self).state@[i as int] == Cell::Hidden ==> {
                &&& final(self).laid
                &&& old(self).laid ==> final(self).mine@ == old(self).mine@ && final(self).near@ == old(self).near@
                &&& !old(self).laid ==> !final(self).mine@[i as int] && forall|k: int|
                    0 <= k < nbrs(old(self).cols as int, old(self).rows as int, i as int).len()
                    ==> !final(self).mine@[#[trigger] nbrs(old(self).cols as int, old(self).rows as int, i as int)[k] as int]
                &&& !old(self).laid ==> forall|c: int| 0 <= c < old(self).cols * old(self).rows ==> #[trigger] final(self).mine@[c]
                    == mine_spots(old(self).cols as int, old(self).rows as int, old(self).mines as int, old(self).seed, i as int).contains(c as usize)
                &&& !out.chorded && out.flagged is None && out.unflagged is None
                &&& final(self).mine@[i as int] ==> {
                    &&& out.boom == Some(i) && final(self).lost_at == Some(i)
                    &&& final(self).state@ == old(self).state@.update(i as int, Cell::Revealed)
                    &&& out.revealed@.len() == 0 && !out.won && !out.refused && !final(self).won
                }
                &&& !final(self).mine@[i as int] ==> {
                    &&& opening(old(self).state@, *final(self), out)
                    &&& out.revealed@.len() > 0 && out.revealed@[0] == i
                }
            },
    {
        if i >= self.cells() || self.over() {
            return Outcome::refused();
        }
        match self.state[i] {
            Cell::Flagged => Outcome::refused(),
            Cell::Revealed => self.chord(i),
            Cell::Hidden => {
                proof {
                    assert(self.cols > 0) by (nonlinear_arith)
                        requires i < self.cols * self.rows;
                }
                if !self.laid {
                    self.lay(i);
                }
                let ghost s0 = self.state@;
                if self.mine[i] {
                    proof {
                        lemma_count_update(self.state@, i as int, Cell::Revealed, Cell::Flagged);
                        lemma_revealed_safe_update(self.state@, self.mine@, i as int, Cell::Revealed);
                    }
                    self.lost_at = Some(i);
                    self.state.set(i, Cell::Revealed);
                    let mut out = Outcome::none();
                    out.boom = Some(i);
                    proof {
                        assert forall|d: int| 0 <= d < self.cols * self.rows && #[trigger] self.state@[d] == Cell::Revealed && self.mine@[d]
                            implies self.lost_at == Some(d as usize) by {
                            if d != i as int {
                                assert(s0[d] == Cell::Revealed);
                            }
                        }
                    }
                    return out;
                }
                let mut out = Outcome::none();
                self.cascade(i, &mut out);
                let ghost mid = self.state@;
                proof {
                    assert(out.revealed@.skip(0) =~= out.revealed@);
                    assert(out.revealed@.take(0) =~= Seq::<usize>::empty());
                    if !self.laid {
                        lemma_count_zero(s0, Cell::Revealed);
                    }
                }
                self.check_won(&mut out);
                proof {
                    assert(mines_as_before(self.state@, s0, self.mine@) =~= mid);
                    assert forall|d: int| 0 <= d < self.cols * self.rows && #[trigger] mid[d] != Cell::Hidden
                        implies self.state@[d] != Cell::Hidden by {
                    }
                    assert forall|k: int| 0 <= k < out.revealed@.len() implies #[trigger] out.revealed@[k] < self.cols * self.rows by {
                    }
                    lemma_blanks_keep(self.cols as int, self.rows as int, self.near@, mid, self.state@, out.revealed@);
                    assert(swept(self.state@, self.mine@) == swept(mid, self.mine@));
                }
                out
            },
        }
    }

    pub fn save_state(&self, difficulty: Difficulty) -> (s: SaveState)
        requires
            self.wf(),
        ensures
            s.difficulty == difficulty,
            s.cols == self.cols && s.rows == self.rows && s.mines == self.mines,
            s.mine@ == self.mine@,
            s.state@ == encoded(self.state@),
            s.laid == self.laid,
            s.seed == self.seed,
    {
        let mut state: Vec<u8> = Vec::new();
        let mut i: usize = 0;
        while i < self.state.len()
            invariant
                i <= self.state@.len(),
                state@ == encoded(self.state@.take(i as int)),
            decreases self.state@.len() - i,
        {
            let b: u8 = match self.state[i] {
                Cell::Hidden => 0,
                Cell::Flagged => 1,
                Cell::Revealed => 2,
            };
            state.push(b);
            i += 1;
            proof {
                assert(state@ =~= encoded(self.state@.take(i as int)));
            }
        }
        proof {
            assert(self.state@.take(i as int) =~= self.state@);
        }
        let mut mine: Vec<bool> = Vec::new();
        let mut i: usize = 0;
        while i < self.mine.len()
            invariant
                i <= self.mine@.len(),
                mine@ == self.mine@.take(i as int),
            decreases self.mine@.len() - i,
        {
            mine.push(self.mine[i]);
            i += 1;
            proof {
                assert(mine@ =~= self.mine@.take(i as int));
            }
        }
        proof {
            assert(self.mine@.take(i as int) =~= self.mine@);
        }
        SaveState {
            difficulty,
            cols: self.cols,
            rows: self.rows,
            mines: self.mines,
            mine,
            state,
            laid: self.laid,
            seed: self.seed,
        }
    }

    /// Rebuild a saved game, or `None` when the save does not describe a board: sizes that do
    /// not match, a mine layout the game could not have laid, or a finished game that should
    /// not come back.
    #[verifier::rlimit(40)]
    pub fn from_save(s: SaveState) -> (r: Option<(Board, Difficulty)>)
        ensures
            r is Some <==> save_fits(s.cols as int, s.rows as int, s.mines as int, s.mine@, s.state@, s.laid),
            r matches Some((b, d)) ==> {
                &&& b.wf()
                &&& d == s.difficulty
                &&& b.cols == s.cols && b.rows == s.rows
                &&& b.mines == room_for(s.mines as int, s.cols * s.rows)
                &&& b.mine@ == s.mine@
                &&& b.state@ == decoded(s.state@)
                &&& b.laid == s.laid
                &&& b.lost_at is None && !b.won
                &&& b.seed == s.seed | 1
            },
    {
        let n = match s.cols.checked_mul(s.rows) {
            Some(n) => n,
            None => return None,
        };
        if n == 0 || s.mine.len() != n || s.state.len() != n {
            return None;
        }
        let mut b = Board::new(s.cols, s.rows, s.mines, s.seed);
        proof {
            assert(b.cols > 0) by (nonlinear_arith)
                requires n == b.cols * b.rows, n > 0;
        }
        let ghost bytes = s.state@;
        let mut state: Vec<Cell> = Vec::new();
        let mut i: usize = 0;
        while i < n
            invariant
                i <= n,
                bytes.len() == n,
                bytes == s.state@,
                state@ == decoded(bytes.take(i as int)),
            decreases n - i,
        {
            let c = match s.state[i] {
                1 => Cell::Flagged,
                2 => Cell::Revealed,
                _ => Cell::Hidden,
            };
            state.push(c);
            i += 1;
            proof {
                assert(state@ =~= decoded(bytes.take(i as int)));
            }
        }
        proof {
            assert(bytes.take(n as int) =~= bytes);
        }
        let laid = s.laid;
        let difficulty = s.difficulty;
        b.mine = s.mine;
        b.laid = laid;
        b.state = state;
        // The counts around each cell, and the tallies, from the layout and the cells.
        let mut i: usize = 0;
        while i < n
            invariant
                i <= n,
                n == b.cols * b.rows,
                n <= usize::MAX,
                b.cols > 0,
                b.mine@.len() == n && b.near@.len() == n && b.state@.len() == n,
                forall|j: int| 0 <= j < i ==> #[trigger] b.near@[j] == mines_among(b.mine@, nbrs(b.cols as int, b.rows as int, j)),
                b.cols == s.cols && b.rows == s.rows && b.mines == room_for(s.mines as int, n as int),
                b.mine@ == s.mine@ && b.state@ == decoded(s.state@) && b.laid == s.laid,
                b.lost_at is None && !b.won && b.seed == s.seed | 1 && b.seed % 2 == 1,
                b.mines <= n && (b.mines + 9 <= n || b.mines == 0),
            decreases n - i,
        {
            let c = b.count_near(i);
            b.near.set(i, c);
            i += 1;
        }
        let mut flags: usize = 0;
        let mut shown: usize = 0;
        let mut safe: usize = 0;
        let mut boom = false;
        let mut i: usize = 0;
        while i < n
            invariant
                i <= n,
                b.mine@.len() == n && b.state@.len() == n,
                flags == count_cells(b.state@.take(i as int), Cell::Flagged),
                shown == count_cells(b.state@.take(i as int), Cell::Revealed),
                safe == safe_cells(b.mine@.take(i as int)),
                boom == exists|c: int| 0 <= c < i && #[trigger] b.state@[c] == Cell::Revealed && b.mine@[c],
                flags <= i && shown <= i && safe <= i,
            decreases n - i,
        {
            proof {
                assert(b.state@.take(i as int + 1).drop_last() =~= b.state@.take(i as int));
                assert(b.mine@.take(i as int + 1).drop_last() =~= b.mine@.take(i as int));
            }
            if b.state[i] == Cell::Flagged {
                flags += 1;
            }
            if b.state[i] == Cell::Revealed {
                shown += 1;
                if b.mine[i] {
                    boom = true;
                }
            }
            if !b.mine[i] {
                safe += 1;
            }
            i += 1;
        }
        proof {
            assert(b.state@.take(n as int) =~= b.state@);
            assert(b.mine@.take(n as int) =~= b.mine@);
            lemma_safe_cells_bound(b.mine@);
            lemma_revealed_safe_bounds(b.state@, b.mine@);
            lemma_swept(b.state@, b.mine@);
        }
        b.flags = flags;
        // A layout the game could not have laid describes no board.
        if laid {
            if safe != n - b.mines {
                return None;
            }
        } else if safe != n || shown != 0 {
            return None;
        }
        // A saved game is one in progress: a board already won or lost starts over instead.
        if boom {
            return None;
        }
        proof {
            lemma_revealed_when_no_mine_shows(b.state@, b.mine@);
        }
        b.revealed = shown;
        if n - b.mines - b.revealed == 0 {
            return None;
        }
        proof {
            if !laid {
                lemma_count_zero(b.state@, Cell::Revealed);
            }
            assert forall|c: int| 0 <= c < n && #[trigger] b.state@[c] == Cell::Revealed && b.mine@[c]
                implies b.lost_at == Some(c as usize) by {
            }
        }
        Some((b, difficulty))
    }

    /// Queue every hidden cell around `i`.
    fn queue_hidden_around(&self, i: usize, queue: &mut VecDeque<usize>)
        requires
            self.cols > 0,
            i < self.cols * self.rows,
            self.cols * self.rows <= usize::MAX,
            self.state@.len() == self.cols * self.rows,
            forall|j: int| 0 <= j < old(queue)@.len() ==> #[trigger] old(queue)@[j] < self.cols * self.rows,
        ensures
            final(queue)@.len() >= old(queue)@.len(),
            final(queue)@.take(old(queue)@.len() as int) == old(queue)@,
            forall|j: int| 0 <= j < final(queue)@.len() ==> #[trigger] final(queue)@[j] < self.cols * self.rows,
            forall|j: int| 0 <= j < nbrs(self.cols as int, self.rows as int, i as int).len()
                && self.state@[nbrs(self.cols as int, self.rows as int, i as int)[j] as int] == Cell::Hidden
                ==> final(queue)@.contains(#[trigger] nbrs(self.cols as int, self.rows as int, i as int)[j]),
    {
        let around = self.neighbors(i);
        let ghost start = queue@;
        let mut k: usize = 0;
        while k < around.len()
            invariant
                k <= around@.len(),
                around@ == nbrs(self.cols as int, self.rows as int, i as int),
                forall|j: int| 0 <= j < around@.len() ==> #[trigger] around@[j] < self.cols * self.rows,
                queue@.len() >= start.len(),
                queue@.take(start.len() as int) == start,
                self.state@.len() == self.cols * self.rows,
                forall|j: int| 0 <= j < queue@.len() ==> #[trigger] queue@[j] < self.cols * self.rows,
                forall|j: int| 0 <= j < k && self.state@[around@[j] as int] == Cell::Hidden ==> queue@.contains(#[trigger] around@[j]),
            decreases around@.len() - k,
        {
            let c = around[k];
            if self.state[c] == Cell::Hidden {
                let ghost q0 = queue@;
                queue.push_back(c);
                proof {
                    assert(queue@.take(start.len() as int) =~= q0.take(start.len() as int));
                    assert(queue@[q0.len() as int] == c);
                    assert forall|j: int| 0 <= j < k && self.state@[around@[j] as int] == Cell::Hidden
                        implies queue@.contains(#[trigger] around@[j]) by {
                        let w = choose|w: int| 0 <= w < q0.len() && q0[w] == around@[j];
                        assert(queue@[w] == q0[w]);
                    }
                }
            }
            k += 1;
        }
    }

    /// Uncover `from`, and everything a blank opens up, in rings out from it.
    #[verifier::rlimit(60)]
    fn cascade(&mut self, from: usize, out: &mut Outcome)
        requires
            old(self).wf(),
            old(self).laid,
            !old(self).won,
            from < old(self).cols * old(self).rows,
        ensures
            final(self).wf(),
            final(self).cols == old(self).cols && final(self).rows == old(self).rows,
            final(self).mines == old(self).mines && final(self).laid == old(self).laid,
            final(self).mine@ == old(self).mine@ && final(self).near@ == old(self).near@,
            final(self).flags == old(self).flags && final(self).seed == old(self).seed,
            final(self).lost_at == old(self).lost_at && final(self).won == old(self).won,
            final(out).revealed@.len() >= old(out).revealed@.len(),
            final(out).revealed@.take(old(out).revealed@.len() as int) == old(out).revealed@,
            final(out).flagged == old(out).flagged && final(out).unflagged == old(out).unflagged,
            final(out).chorded == old(out).chorded && final(out).boom == old(out).boom,
            final(out).won == old(out).won && final(out).refused == old(out).refused,
            opened(old(self).state@, final(self).state@, old(self).mine@,
                final(out).revealed@.skip(old(out).revealed@.len() as int)),
            blanks_open(old(self).cols as int, old(self).rows as int, old(self).near@, final(self).state@,
                final(out).revealed@.skip(old(out).revealed@.len() as int)),
            old(self).state@[from as int] == Cell::Hidden && !old(self).mine@[from as int]
                ==> final(out).revealed@.len() > old(out).revealed@.len()
                    && final(out).revealed@[old(out).revealed@.len() as int] == from,
            !(old(self).state@[from as int] == Cell::Hidden && !old(self).mine@[from as int])
                ==> final(out).revealed@.len() == old(out).revealed@.len(),
    {
        let n = self.cells();
        let ghost start = out.revealed@;
        let ghost first = self.state@;
        let ghost fresh = self.state@[from as int] == Cell::Hidden && !self.mine@[from as int];
        let mut queue: VecDeque<usize> = VecDeque::new();
        queue.push_back(from);
        proof {
            assert(out.revealed@.skip(start.len() as int) =~= Seq::<usize>::empty());
        }
        while queue.len() > 0
            invariant
                self.wf(),
                n == self.cols * self.rows,
                self.cols == old(self).cols && self.rows == old(self).rows,
                self.mines == old(self).mines && self.laid == old(self).laid,
                self.mine@ == old(self).mine@ && self.near@ == old(self).near@,
                self.flags == old(self).flags && self.seed == old(self).seed,
                self.lost_at == old(self).lost_at && self.won == old(self).won,
                first == old(self).state@,
                self.laid,
                from < n,
                fresh == (first[from as int] == Cell::Hidden && !self.mine@[from as int]),
                out.revealed@.len() >= start.len(),
                out.revealed@.take(start.len() as int) == start,
                start == old(out).revealed@,
                out.flagged == old(out).flagged && out.unflagged == old(out).unflagged,
                out.chorded == old(out).chorded && out.boom == old(out).boom,
                out.won == old(out).won && out.refused == old(out).refused,
                forall|j: int| 0 <= j < queue@.len() ==> #[trigger] queue@[j] < n,
                opened(first, self.state@, self.mine@, out.revealed@.skip(start.len() as int)),
                forall|k: int, j: int| #![trigger out.revealed@[k], nbrs(self.cols as int, self.rows as int, out.revealed@[k] as int)[j]]
                    start.len() <= k < out.revealed@.len() && self.near@[out.revealed@[k] as int] == 0
                    && 0 <= j < nbrs(self.cols as int, self.rows as int, out.revealed@[k] as int).len()
                    ==> self.state@[nbrs(self.cols as int, self.rows as int, out.revealed@[k] as int)[j] as int] != Cell::Hidden
                        || queue@.contains(nbrs(self.cols as int, self.rows as int, out.revealed@[k] as int)[j]),
                out.revealed@.len() == start.len() ==> (queue@ == seq![from] || (!fresh && queue@.len() == 0)),
                out.revealed@.len() > start.len() ==> fresh && out.revealed@[start.len() as int] == from,
            decreases hidden_safe(self.state@, self.mine@), queue@.len(),
        {
            let ghost q0 = queue@;
            let ghost s0 = self.state@;
            let ghost r0 = out.revealed@;
            let i = match queue.pop_front() {
                Some(i) => i,
                None => from,
            };
            let ghost qp = queue@;
            proof {
                assert(q0.len() > 0 && i == q0[0]);
                assert(qp =~= q0.subrange(1, q0.len() as int));
            }
            if self.state[i] == Cell::Hidden && !self.mine[i] {
                proof {
                    lemma_hidden_safe_update(self.state@, self.mine@, i as int, Cell::Revealed);
                    lemma_revealed_safe_update(self.state@, self.mine@, i as int, Cell::Revealed);
                    lemma_count_update(self.state@, i as int, Cell::Revealed, Cell::Flagged);
                    lemma_count_update(self.state@, i as int, Cell::Revealed, Cell::Revealed);
                    lemma_revealed_safe_bounds(self.state@.update(i as int, Cell::Revealed), self.mine@);
                    lemma_safe_cells_bound(self.mine@);
                }
                self.state.set(i, Cell::Revealed);
                self.revealed += 1;
                out.revealed.push(i);
                proof {
                    lemma_hidden_safe_bounds(self.state@, self.mine@);
                    assert forall|c: int| 0 <= c < n && #[trigger] self.state@[c] == Cell::Revealed && self.mine@[c]
                        implies self.lost_at == Some(c as usize) by {
                        assert(c != i as int);
                        assert(s0[c] == Cell::Revealed);
                    }
                    assert(self.wf());
                    let added = out.revealed@.skip(start.len() as int);
                    let added0 = r0.skip(start.len() as int);
                    assert(added =~= added0.push(i));
                    assert(out.revealed@.take(start.len() as int) =~= r0.take(start.len() as int));
                    // The cell was hidden, so it is not among those already uncovered.
                    assert forall|k: int| 0 <= k < added0.len() implies added0[k] != i by {
                        assert(s0[added0[k] as int] == Cell::Revealed);
                    }
                    assert forall|c: int| 0 <= c < n && #[trigger] self.state@[c] != first[c]
                        implies added.contains(c as usize) by {
                        if c != i as int {
                            assert(s0[c] != first[c]);
                            let w = choose|w: int| 0 <= w < added0.len() && added0[w] == c as usize;
                            assert(added[w] == added0[w]);
                        } else {
                            assert(added[added.len() - 1] == i);
                        }
                    }
                    assert(opened(first, self.state@, self.mine@, added));
                }
                if self.near[i] == 0 {
                    self.queue_hidden_around(i, &mut queue);
                }
            }
            proof {
                assert(queue@.len() >= qp.len() && queue@.take(qp.len() as int) == qp);
                // Closure: each cell beside an uncovered blank is shown, or still queued.
                assert forall|k: int, j: int| #![trigger out.revealed@[k], nbrs(self.cols as int, self.rows as int, out.revealed@[k] as int)[j]]
                    start.len() <= k < out.revealed@.len() && self.near@[out.revealed@[k] as int] == 0
                    && 0 <= j < nbrs(self.cols as int, self.rows as int, out.revealed@[k] as int).len()
                    implies self.state@[nbrs(self.cols as int, self.rows as int, out.revealed@[k] as int)[j] as int] != Cell::Hidden
                        || queue@.contains(nbrs(self.cols as int, self.rows as int, out.revealed@[k] as int)[j]) by {
                    let x = out.revealed@[k];
                    let m = nbrs(self.cols as int, self.rows as int, x as int)[j];
                    if k < r0.len() {
                        assert(r0[k] == x);
                        assert(r0.skip(start.len() as int)[k - start.len()] == x);
                        lemma_nbrs_in_range(self.cols as int, self.rows as int, x as int);
                        assert(s0[m as int] != Cell::Hidden || q0.contains(m));
                        if s0[m as int] != Cell::Hidden {
                            assert(self.state@[m as int] != Cell::Hidden);
                        } else {
                            let w = choose|w: int| 0 <= w < q0.len() && q0[w] == m;
                            if w > 0 {
                                assert(qp[w - 1] == m);
                                assert(queue@.take(qp.len() as int)[w - 1] == m);
                                assert(queue@[w - 1] == m);
                                assert(queue@.contains(m));
                            } else {
                                // `m` was just taken off the queue: beside a blank, it is no mine,
                                // so it is uncovered now.
                                assert(self.near@[x as int] == mines_among(self.mine@, nbrs(self.cols as int, self.rows as int, x as int)));
                                lemma_mines_among_zero(self.mine@, nbrs(self.cols as int, self.rows as int, x as int));
                                assert(!self.mine@[m as int]);
                                assert(self.state@[m as int] == Cell::Revealed);
                            }
                        }
                    } else {
                        assert(x == i);
                        assert(self.near@[i as int] == 0);
                        assert(m == nbrs(self.cols as int, self.rows as int, i as int)[j]);
                        assert(self.state@[m as int] != Cell::Hidden || queue@.contains(m));
                    }
                }
            }
        }
        proof {
            let added = out.revealed@.skip(start.len() as int);
            assert forall|k: int, j: int| #![trigger added[k], nbrs(self.cols as int, self.rows as int, added[k] as int)[j]]
                0 <= k < added.len() && self.near@[added[k] as int] == 0 && 0 <= j < nbrs(self.cols as int, self.rows as int, added[k] as int).len()
                implies self.state@[nbrs(self.cols as int, self.rows as int, added[k] as int)[j] as int] != Cell::Hidden by {
                assert(added[k] == out.revealed@[start.len() + k]);
            }
        }
    }
}

/// A game in progress, saved and read back, is the same game: the save fits, its cells decode
/// to the board's, and the mine count and seed come back unchanged.
pub proof fn law_a_game_in_progress_comes_back(b: Board)
    requires
        b.wf(),
        !b.over_spec(),
        !swept(b.state@, b.mine@),
    ensures
        save_fits(b.cols as int, b.rows as int, b.mines as int, b.mine@, encoded(b.state@), b.laid),
        decoded(encoded(b.state@)) == b.state@,
        room_for(b.mines as int, b.cols * b.rows) == b.mines,
        b.seed | 1 == b.seed,
{
    assert(decoded(encoded(b.state@)) =~= b.state@);
    let seed = b.seed;
    assert(seed % 2 == 1 ==> seed | 1u64 == seed) by (bit_vector);
}

/// A finished game, won or lost, does not come back from its save.
pub proof fn law_a_finished_game_does_not_come_back(b: Board)
    requires
        b.wf(),
        b.over_spec(),
    ensures
        !save_fits(b.cols as int, b.rows as int, b.mines as int, b.mine@, encoded(b.state@), b.laid),
{
    assert(decoded(encoded(b.state@)) =~= b.state@);
    if let Some(i) = b.lost_at {
        assert(b.state@[i as int] == Cell::Revealed && b.mine@[i as int]);
    }
}

/// This game's settings: the shared switches, the difficulty a new board takes, and whether a
/// tap plants a flag instead of uncovering.
#[derive(Clone, Debug, PartialEq, Eq, Structural)]
pub struct Settings {
    pub sounds: bool,
    pub vibrations: bool,
    pub instructions_shown: bool,
    pub difficulty: Difficulty,
}

impl Default for Settings {
    fn default() -> (s: Settings)
        ensures
            s.sounds && s.vibrations && !s.instructions_shown && s.difficulty == Difficulty::Easy,
    {
        Settings { sounds: true, vibrations: true, instructions_shown: false, difficulty: Difficulty::Easy }
    }
}

} // verus!
