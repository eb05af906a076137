//! Sudoku: the board, pencil notes, cursor-based undo and redo, checkpoints, hints, give-up,
//! the records a solve leaves, and the generator of puzzles. (The play clock itself runs on the
//! host, which hands the model its whole seconds.)
use vstd::prelude::*;
use crate::text::{decimal, push_char, push_decimal};
use crate::xorshift::{shuffle_seq, xorshift, xorshift_next};

verus! {

/// Cell index = row * 9 + col.
pub const CELLS: usize = 81;

pub fn idx(row: usize, col: usize) -> (i: usize)
    requires
        row * 9 + col <= usize::MAX,
    ensures
        i == row * 9 + col,
{
    row * 9 + col
}

/// A tiny xorshift generator, deterministic per seed.
pub struct Rng(pub u64);

impl Rng {
    fn next(&mut self) -> (x: u64)
        ensures
            x == xorshift(old(self).0),
            final(self).0 == x,
    {
        self.0 = xorshift_next(self.0);
        self.0
    }

    fn below(&mut self, n: usize) -> (r: usize)
        requires
            n > 0,
        ensures
            final(self).0 == xorshift(old(self).0),
            r == xorshift(old(self).0) % (n as u64),
            r < n,
    {
        (self.next() % n as u64) as usize
    }

    /// A random index in `0..3` other than `not`.
    fn other(&mut self, not: usize) -> (r: usize)
        requires
            not < 3,
        ensures
            final(self).0 == xorshift(old(self).0),
            r == (not + 1 + xorshift(old(self).0) % 2) % 3,
            r < 3,
            r != not,
    {
        (not + 1 + self.below(2)) % 3
    }
}

#[derive(Clone, Copy, PartialEq, Eq, Debug, Structural)]
pub enum Difficulty {
    Easy,
    Medium,
    Hard,
    Expert,
}

/// Every difficulty, easiest first.
pub fn difficulties() -> (d: [Difficulty; 4])
    ensures
        d@ == seq![Difficulty::Easy, Difficulty::Medium, Difficulty::Hard, Difficulty::Expert],
{
    [Difficulty::Easy, Difficulty::Medium, Difficulty::Hard, Difficulty::Expert]
}

pub open spec fn clues_spec(d: Difficulty) -> int {
    match d {
        Difficulty::Easy => 46,
        Difficulty::Medium => 36,
        Difficulty::Hard => 30,
        Difficulty::Expert => 26,
    }
}

pub open spec fn hints_spec(d: Difficulty) -> Option<i32> {
    match d {
        Difficulty::Easy => None,
        Difficulty::Medium => Some(3i32),
        Difficulty::Hard | Difficulty::Expert => Some(0i32),
    }
}

pub open spec fn index_spec(d: Difficulty) -> int {
    match d {
        Difficulty::Easy => 0,
        Difficulty::Medium => 1,
        Difficulty::Hard => 2,
        Difficulty::Expert => 3,
    }
}

impl Difficulty {
    /// Number of clues (filled cells) the puzzle keeps.
    pub fn clues(self) -> (n: usize)
        ensures
            n == clues_spec(self),
    {
        match self {
            Difficulty::Easy => 46,
            Difficulty::Medium => 36,
            Difficulty::Hard => 30,
            Difficulty::Expert => 26,
        }
    }

    /// Starting hint budget; `None` = unlimited (Easy). Hard and Expert grant none.
    pub fn hints(self) -> (h: Option<i32>)
        ensures
            h == hints_spec(self),
    {
        match self {
            Difficulty::Easy => None,
            Difficulty::Medium => Some(3),
            Difficulty::Hard | Difficulty::Expert => Some(0),
        }
    }

    pub fn unlimited_hints(self) -> (b: bool)
        ensures
            b == (hints_spec(self) is None),
    {
        self.hints().is_none()
    }

    pub fn hints_enabled(self) -> (b: bool)
        ensures
            b == (hints_spec(self) != Some(0i32)),
    {
        match self.hints() {
            Some(h) => h != 0,
            None => true,
        }
    }

    /// Expert hides the same-number highlight.
    pub fn highlights_same_digit(self) -> (b: bool)
        ensures
            b == (self != Difficulty::Expert),
    {
        !matches!(self, Difficulty::Expert)
    }

    /// Easy flags a placed digit that duplicates a peer, and locks a digit's key once all
    /// nine are placed; the other difficulties leave the player to spot both.
    pub fn flags_mistakes(self) -> (b: bool)
        ensures
            b == (self == Difficulty::Easy),
    {
        matches!(self, Difficulty::Easy)
    }

    pub fn index(self) -> (i: usize)
        ensures
            i == index_spec(self),
    {
        match self {
            Difficulty::Easy => 0,
            Difficulty::Medium => 1,
            Difficulty::Hard => 2,
            Difficulty::Expert => 3,
        }
    }

    /// The difficulty at `i` in the list, Medium past its end.
    pub fn from_index(i: usize) -> (d: Difficulty)
        ensures
            i < 4 ==> index_spec(d) == i,
            i >= 4 ==> d == Difficulty::Medium,
    {
        match i {
            0 => Difficulty::Easy,
            1 => Difficulty::Medium,
            2 => Difficulty::Hard,
            3 => Difficulty::Expert,
            _ => Difficulty::Medium,
        }
    }
}

/// The `k`-th cell of group `g`, where kind 0 is the rows, 1 the columns and 2 the boxes.
pub open spec fn group_cell(kind: int, g: int, k: int) -> int {
    if kind == 0 {
        g * 9 + k
    } else if kind == 1 {
        k * 9 + g
    } else {
        ((g / 3) * 3 + k / 3) * 9 + (g % 3) * 3 + k % 3
    }
}

/// No digit above nine, and no non-zero digit twice, in the group.
pub open spec fn group_ok(grid: Seq<u8>, kind: int, g: int) -> bool {
    &&& forall|k: int| 0 <= k < 9 ==> #[trigger] grid[group_cell(kind, g, k)] <= 9
    &&& forall|j: int, k: int| 0 <= j < k < 9 && grid[group_cell(kind, g, j)] != 0
        ==> #[trigger] grid[group_cell(kind, g, j)] != #[trigger] grid[group_cell(kind, g, k)]
}

/// A grid of 81 cells in which no row, column or box holds the same non-zero digit twice (empty
/// cells, 0, are skipped), and no cell a digit above nine.
pub open spec fn consistent(grid: Seq<u8>) -> bool {
    &&& grid.len() == 81
    &&& forall|kind: int, g: int| 0 <= kind < 3 && 0 <= g < 9 ==> #[trigger] group_ok(grid, kind, g)
}

/// Each group's cells are on the board.
proof fn lemma_group_cell(kind: int, g: int, k: int)
    requires
        0 <= kind < 3,
        0 <= g < 9,
        0 <= k < 9,
    ensures
        0 <= group_cell(kind, g, k) < 81,
{
}

/// Setting bit `v` of a set of digits adds exactly `v`.
proof fn lemma_bit_add(s: u16, v: u16, d: u16)
    requires
        v < 16,
        d < 16,
    ensures
        ((s | (1u16 << v)) & (1u16 << d) != 0) == ((s & (1u16 << d) != 0) || d == v),
{
    assert(((s | (1u16 << v)) & (1u16 << d) != 0) == ((s & (1u16 << d) != 0) || d == v)) by (bit_vector)
        requires v < 16, d < 16;
}

proof fn lemma_bit_empty(d: u16)
    requires
        d < 16,
    ensures
        0u16 & (1u16 << d) == 0,
{
    assert(0u16 & (1u16 << d) == 0) by (bit_vector);
}

/// The cell index of the `k`-th cell of group `g` of `kind`.
fn group_index(kind: usize, g: usize, k: usize) -> (i: usize)
    requires
        kind < 3,
        g < 9,
        k < 9,
    ensures
        i == group_cell(kind as int, g as int, k as int),
        i < 81,
{
    if kind == 0 {
        g * 9 + k
    } else if kind == 1 {
        k * 9 + g
    } else {
        ((g / 3) * 3 + k / 3) * 9 + (g % 3) * 3 + k % 3
    }
}

/// Whether group `g` of `kind` holds no digit above nine and no non-zero digit twice.
fn group_is_ok(grid: &[u8], kind: usize, g: usize) -> (ok: bool)
    requires
        grid@.len() == 81,
        kind < 3,
        g < 9,
    ensures
        ok == group_ok(grid@, kind as int, g as int),
{
    let mut seen: u16 = 0;
    let mut k: usize = 0;
    proof {
        assert forall|d: u16| 1 <= d <= 9 implies (seen & (1u16 << d) == 0) by {
            lemma_bit_empty(d);
        }
    }
    while k < 9
        invariant
            k <= 9,
            grid@.len() == 81,
            kind < 3 && g < 9,
            forall|j: int| 0 <= j < k ==> #[trigger] grid@[group_cell(kind as int, g as int, j)] <= 9,
            forall|j: int, m: int| 0 <= j < m < k && grid@[group_cell(kind as int, g as int, j)] != 0
                ==> #[trigger] grid@[group_cell(kind as int, g as int, j)] != #[trigger] grid@[group_cell(kind as int, g as int, m)],
            forall|d: u16| 1 <= d <= 9 ==> ((seen & (1u16 << d) != 0) <==> exists|j: int|
                0 <= j < k && #[trigger] grid@[group_cell(kind as int, g as int, j)] == d),
        decreases 9 - k,
    {
        let i = group_index(kind, g, k);
        let v = grid[i];
        if v != 0 {
            if v > 9 {
                return false;
            }
            let bit: u16 = 1u16 << (v as u16);
            if seen & bit != 0 {
                proof {
                    let w = choose|j: int| 0 <= j < k && grid@[group_cell(kind as int, g as int, j)] == v as u16;
                    assert(grid@[group_cell(kind as int, g as int, w)] == grid@[group_cell(kind as int, g as int, k as int)]);
                }
                return false;
            }
            proof {
                assert forall|d: u16| 1 <= d <= 9 implies (((seen | bit) & (1u16 << d) != 0) <==> exists|j: int|
                    0 <= j < k + 1 && #[trigger] grid@[group_cell(kind as int, g as int, j)] == d) by {
                    lemma_bit_add(seen, v as u16, d);
                    if d == v as u16 {
                        assert(grid@[group_cell(kind as int, g as int, k as int)] == d);
                    }
                    if exists|j: int| 0 <= j < k + 1 && #[trigger] grid@[group_cell(kind as int, g as int, j)] == d {
                        let w = choose|j: int| 0 <= j < k + 1 && #[trigger] grid@[group_cell(kind as int, g as int, j)] == d;
                        if w < k {
                            assert(exists|j: int| 0 <= j < k && #[trigger] grid@[group_cell(kind as int, g as int, j)] == d);
                        }
                    }
                }
                assert forall|j: int, m: int| 0 <= j < m < k + 1 && grid@[group_cell(kind as int, g as int, j)] != 0
                    implies #[trigger] grid@[group_cell(kind as int, g as int, j)] != #[trigger] grid@[group_cell(kind as int, g as int, m)] by {
                    if m == k {
                        let dj = grid@[group_cell(kind as int, g as int, j)];
                        if dj == v {
                            assert(exists|jj: int| 0 <= jj < k && #[trigger] grid@[group_cell(kind as int, g as int, jj)] == v as u16);
                        }
                    }
                }
            }
            seen = seen | bit;
        }
        k += 1;
    }
    true
}

/// No row, column, or box holds the same non-zero digit twice (empty cells skipped).
pub fn is_consistent(grid: &[u8]) -> (ok: bool)
    ensures
        ok == consistent(grid@),
{
    if grid.len() != CELLS {
        return false;
    }
    let mut g: usize = 0;
    while g < 9
        invariant
            g <= 9,
            grid@.len() == 81,
            forall|kind: int, h: int| 0 <= kind < 3 && 0 <= h < g ==> #[trigger] group_ok(grid@, kind, h),
        decreases 9 - g,
    {
        if !group_is_ok(grid, 0, g) || !group_is_ok(grid, 1, g) || !group_is_ok(grid, 2, g) {
            return false;
        }
        proof {
            assert forall|kind: int, h: int| 0 <= kind < 3 && 0 <= h < g + 1 implies #[trigger] group_ok(grid@, kind, h) by {
                if h == g {
                    assert(kind == 0 || kind == 1 || kind == 2);
                }
            }
        }
        g += 1;
    }
    true
}

/// Two digits, zero first below ten.
pub open spec fn two_digits(n: nat) -> Seq<char> {
    seq![(48 + n / 10) as char, (48 + n % 10) as char]
}

/// mm:ss, or h:mm:ss past an hour.
pub open spec fn time_text(secs: nat) -> Seq<char> {
    if secs >= 3600 {
        decimal(secs / 3600) + seq![':'] + two_digits((secs / 60) % 60) + seq![':'] + two_digits(secs % 60)
    } else {
        two_digits(secs / 60) + seq![':'] + two_digits(secs % 60)
    }
}

fn push_two_digits(s: &mut String, n: u64)
    requires
        n < 100,
    ensures
        final(s)@ == old(s)@ + two_digits(n as nat),
{
    push_char(s, ((48 + n / 10) as u8) as char);
    push_char(s, ((48 + n % 10) as u8) as char);
    proof {
        assert(final(s)@ =~= old(s)@ + two_digits(n as nat));
    }
}

/// mm:ss (or h:mm:ss past an hour) for the HUD and records.
pub fn fmt_time(secs: u64) -> (t: String)
    ensures
        t@ == time_text(secs as nat),
{
    let mut t = String::new();
    if secs >= 3600 {
        push_decimal(&mut t, secs / 3600);
        push_char(&mut t, ':');
        push_two_digits(&mut t, (secs / 60) % 60);
        push_char(&mut t, ':');
        push_two_digits(&mut t, secs % 60);
    } else {
        push_two_digits(&mut t, secs / 60);
        push_char(&mut t, ':');
        push_two_digits(&mut t, secs % 60);
    }
    proof {
        assert(t@ =~= time_text(secs as nat));
    }
    t
}

/// One cell's editable state, as captured in history entries.
#[derive(Clone, Copy, PartialEq, Eq, Debug, Structural)]
pub struct CellSnap {
    pub value: u8,
    pub notes: u16,
    pub provisional: bool,
}

/// One undoable edit: the edited cell's before/after, plus the peer cells whose pencil
/// marks the edit stripped as a side effect (index, old notes, new notes).
#[derive(Clone, Debug)]
pub struct Edit {
    pub i: usize,
    pub old: CellSnap,
    pub new: CellSnap,
    pub peers: Vec<(usize, u16, u16)>,
}

/// The edit names cells on the board.
pub open spec fn edit_fits(e: Edit) -> bool {
    &&& e.i < 81
    &&& forall|p: int| 0 <= p < e.peers@.len() ==> (#[trigger] e.peers@[p]).0 < 81
}

/// Two edits record the same change.
pub open spec fn same_edit(a: Edit, b: Edit) -> bool {
    a.i == b.i && a.old == b.old && a.new == b.new && a.peers@ == b.peers@
}

/// Per-difficulty best times (seconds; 0 = none yet) and the total solved count. Persisted
/// on their own so they outlive any one puzzle and a records reset touches nothing else.
#[derive(Clone, Debug, PartialEq)]
pub struct Records {
    pub best: [u64; 4],
    pub solved: u64,
}

impl Default for Records {
    fn default() -> (r: Records)
        ensures
            r.best@ == seq![0u64, 0, 0, 0],
            r.solved == 0,
    {
        Records { best: [0, 0, 0, 0], solved: 0 }
    }
}

/// The player's Sudoku settings (persisted on their own).
#[derive(Clone, Debug, PartialEq, Eq, Structural)]
pub struct Settings {
    /// On by default, and on for a record saved before sounds existed.
    pub sounds: bool,
    pub vibrations: bool,
    /// The difficulty a fresh puzzle takes; the picker updates it.
    pub default_difficulty: Difficulty,
    /// The instructions sheet opens by itself the first time the game is played.
    pub instructions_shown: bool,
}

impl Default for Settings {
    fn default() -> (s: Settings)
        ensures
            s.sounds && s.vibrations && s.default_difficulty == Difficulty::Medium && !s.instructions_shown,
    {
        Settings { sounds: true, vibrations: true, default_difficulty: Difficulty::Medium, instructions_shown: false }
    }
}

/// The durable whole-puzzle snapshot.
#[derive(Debug)]
pub struct SaveState {
    pub values: Vec<u8>,
    pub original: Vec<bool>,
    pub solution: Vec<u8>,
    pub notes: Vec<u16>,
    pub provisional: Vec<bool>,
    pub given_up_fill: Vec<bool>,
    pub notes_mode: bool,
    pub checkpoint_active: bool,
    pub checkpoint_values: Vec<u8>,
    pub checkpoint_notes: Vec<u16>,
    pub checkpoint_cursor: usize,
    pub difficulty: Difficulty,
    /// -1 = unlimited
    pub hints_remaining: i32,
    pub elapsed_secs: u64,
    pub complete: bool,
    pub given_up: bool,
    pub history: Vec<Edit>,
    pub cursor: usize,
}

pub struct Model {
    pub values: Vec<u8>,
    pub original: Vec<bool>,
    pub solution: Vec<u8>,
    /// Pencil marks per cell: bit d (1–9) set = candidate d noted.
    pub notes: Vec<u16>,
    /// Placed during the current checkpoint session (rendered distinctly).
    pub provisional: Vec<bool>,
    /// Auto-filled by Give Up (rendered distinctly from user entries).
    pub given_up_fill: Vec<bool>,
    pub selected: Option<usize>,
    pub notes_mode: bool,
    /// The clock is stopped and input ignored while the pause menu is up.
    pub paused: bool,
    pub checkpoint_active: bool,
    /// The board as the checkpoint found it.
    pub checkpoint_values: Vec<u8>,
    pub checkpoint_notes: Vec<u16>,
    pub checkpoint_cursor: usize,
    pub difficulty: Difficulty,
    /// Hints left; -1 = unlimited (Easy).
    pub hints_remaining: i32,
    /// Whole seconds on the play clock, which the host runs while the game is live.
    pub elapsed_secs: u64,
    pub complete: bool,
    pub given_up: bool,
    /// The just-finished solve set a new best time (for the solved overlay).
    pub new_best: bool,
    /// Cursor-based history: `history[..cursor]` undoable, `history[cursor..]` redoable.
    pub history: Vec<Edit>,
    pub cursor: usize,
    pub records: Records,
    /// The generator the next puzzle is drawn from.
    pub rng: Rng,
}

/// Same row, column, or 3×3 box, and not the same cell.
pub open spec fn is_peer_spec(a: int, b: int) -> bool {
    &&& a != b
    &&& (a / 9 == b / 9 || a % 9 == b % 9 || (a / 9 / 3 == b / 9 / 3 && a % 9 / 3 == b % 9 / 3))
}

/// Every cell holds a digit 1–9.
pub open spec fn full(grid: Seq<u8>) -> bool {
    forall|i: int| 0 <= i < grid.len() ==> 1 <= #[trigger] grid[i] <= 9
}

/// How many cells hold `d`.
pub open spec fn count_digit(grid: Seq<u8>, d: u8) -> int
    decreases grid.len(),
{
    if grid.len() == 0 {
        0
    } else {
        count_digit(grid.drop_last(), d) + if grid.last() == d { 1int } else { 0 }
    }
}

/// A sequence cut to its first `n` entries, or left whole when shorter.
pub open spec fn trunc<T>(s: Seq<T>, n: int) -> Seq<T> {
    if n <= s.len() { s.take(n) } else { s }
}

/// Notes with each listed peer's marks set back to what they were before, first to last.
pub open spec fn notes_before(notes: Seq<u16>, peers: Seq<(usize, u16, u16)>) -> Seq<u16>
    decreases peers.len(),
{
    if peers.len() == 0 {
        notes
    } else {
        notes_before(notes, peers.drop_last()).update(peers.last().0 as int, peers.last().1)
    }
}

/// Notes with each listed peer's marks set to what they became, first to last.
pub open spec fn notes_after(notes: Seq<u16>, peers: Seq<(usize, u16, u16)>) -> Seq<u16>
    decreases peers.len(),
{
    if peers.len() == 0 {
        notes
    } else {
        notes_after(notes, peers.drop_last()).update(peers.last().0 as int, peers.last().2)
    }
}

/// The board's values, notes and provisional marks with edit `e` taken back.
pub open spec fn undone(values: Seq<u8>, notes: Seq<u16>, provisional: Seq<bool>, e: Edit) -> (Seq<u8>, Seq<u16>, Seq<bool>) {
    (values.update(e.i as int, e.old.value), notes_before(notes.update(e.i as int, e.old.notes), e.peers@),
        provisional.update(e.i as int, e.old.provisional))
}

/// The board's values, notes and provisional marks with edit `e` made again.
pub open spec fn redone(values: Seq<u8>, notes: Seq<u16>, provisional: Seq<bool>, e: Edit) -> (Seq<u8>, Seq<u16>, Seq<bool>) {
    (values.update(e.i as int, e.new.value), notes_after(notes.update(e.i as int, e.new.notes), e.peers@),
        provisional.update(e.i as int, e.new.provisional))
}

/// The notes with `bit` cleared from every peer of `i` that has it.
pub open spec fn stripped(notes: Seq<u16>, i: int, bit: u16) -> Seq<u16> {
    Seq::new(notes.len(), |j: int| if is_peer_spec(i, j) && notes[j] & bit != 0 { notes[j] & !bit } else { notes[j] })
}

/// The peers of `i` below `upto` that have `bit`, ascending, with their notes before and after.
pub open spec fn stripped_list(notes: Seq<u16>, i: int, bit: u16, upto: int) -> Seq<(usize, u16, u16)>
    decreases upto,
{
    if upto <= 0 {
        Seq::empty()
    } else {
        let j = upto - 1;
        stripped_list(notes, i, bit, j) + if is_peer_spec(i, j) && notes[j] & bit != 0 {
            seq![(j as usize, notes[j], notes[j] & !bit)]
        } else {
            Seq::empty()
        }
    }
}

impl Model {
    /// The board's vectors hold one entry a cell, the history names cells on the board, and the
    /// selection is on the board.
    pub open spec fn wf(&self) -> bool {
        &&& self.values@.len() == 81 && self.original@.len() == 81 && self.solution@.len() == 81
        &&& self.notes@.len() == 81 && self.provisional@.len() == 81 && self.given_up_fill@.len() == 81
        &&& self.checkpoint_values@.len() == 81 && self.checkpoint_notes@.len() == 81
        &&& forall|k: int| 0 <= k < self.history@.len() ==> edit_fits(#[trigger] self.history@[k])
        &&& self.selected matches Some(i) ==> i < 81
        &&& full(self.solution@) && consistent(self.solution@)
    }

    pub open spec fn locked_spec(&self) -> bool {
        self.complete || self.given_up
    }

    pub open spec fn busy_spec(&self) -> bool {
        self.locked_spec() || self.paused
    }

    /// Cell `i` as the history captures it.
    pub open spec fn snap_spec(&self, i: int) -> CellSnap {
        CellSnap { value: self.values@[i], notes: self.notes@[i], provisional: self.provisional@[i] }
    }

    /// The game ended (solved or given up): the board is frozen for good.
    pub fn locked(&self) -> (b: bool)
        ensures
            b == self.locked_spec(),
    {
        self.complete || self.given_up
    }

    /// Input is ignored: the game ended or the pause menu is up.
    pub fn busy(&self) -> (b: bool)
        ensures
            b == self.busy_spec(),
    {
        self.locked() || self.paused
    }

    pub fn can_undo(&self) -> (b: bool)
        ensures
            b == (self.cursor > 0 && !self.busy_spec()),
    {
        self.cursor > 0 && !self.busy()
    }

    pub fn can_redo(&self) -> (b: bool)
        ensures
            b == (self.cursor < self.history@.len() && !self.busy_spec()),
    {
        self.cursor < self.history.len() && !self.busy()
    }

    /// The difficulty grants hints and the budget is not spent.
    pub fn can_hint(&self) -> (b: bool)
        ensures
            b == (!self.busy_spec() && hints_spec(self.difficulty) != Some(0i32) && self.hints_remaining != 0),
    {
        !self.busy() && self.difficulty.hints_enabled() && self.hints_remaining != 0
    }

    /// Same row, column, or 3×3 box (excluding identity).
    pub fn is_peer(a: usize, b: usize) -> (p: bool)
        ensures
            p == is_peer_spec(a as int, b as int),
    {
        if a == b {
            return false;
        }
        let (ar, ac, br, bc) = (a / 9, a % 9, b / 9, b % 9);
        ar == br || ac == bc || (ar / 3 == br / 3 && ac / 3 == bc / 3)
    }

    /// A filled cell conflicts when a peer holds the same digit.
    pub fn has_conflict(&self, i: usize) -> (c: bool)
        requires
            self.wf(),
            i < 81,
        ensures
            c == (self.values@[i as int] != 0 && exists|j: int| 0 <= j < 81 && is_peer_spec(i as int, j)
                && #[trigger] self.values@[j] == self.values@[i as int]),
    {
        let v = self.values[i];
        if v == 0 {
            return false;
        }
        let mut j: usize = 0;
        while j < CELLS
            invariant
                j <= 81,
                self.values@.len() == 81,
                i < 81,
                v == self.values@[i as int],
                v != 0,
                forall|k: int| 0 <= k < j ==> !(is_peer_spec(i as int, k) && #[trigger] self.values@[k] == v),
            decreases 81 - j,
        {
            if Self::is_peer(i, j) && self.values[j] == v {
                proof {
                    assert(is_peer_spec(i as int, j as int) && self.values@[j as int] == self.values@[i as int]);
                }
                return true;
            }
            j += 1;
        }
        false
    }

    /// A user-placed digit Easy mode flags red: it duplicates a peer.
    pub fn is_obvious_mistake(&self, i: usize) -> (b: bool)
        requires
            self.wf(),
            i < 81,
        ensures
            b == (!self.original@[i as int] && self.values@[i as int] != 0 && self.difficulty == Difficulty::Easy
                && exists|j: int| 0 <= j < 81 && is_peer_spec(i as int, j) && #[trigger] self.values@[j] == self.values@[i as int]),
    {
        !self.original[i] && self.values[i] != 0 && self.difficulty.flags_mistakes() && self.has_conflict(i)
    }

    /// After Give Up: a digit the player placed that is not the solution's.
    pub fn is_user_wrong(&self, i: usize) -> (b: bool)
        requires
            self.wf(),
            i < 81,
        ensures
            b == (self.given_up && !self.original@[i as int] && !self.given_up_fill@[i as int]
                && self.values@[i as int] != 0 && self.values@[i as int] != self.solution@[i as int]),
    {
        self.given_up && !self.original[i] && !self.given_up_fill[i] && self.values[i] != 0
            && self.values[i] != self.solution[i]
    }

    /// How many of digit `d` are placed (the keypad's remaining count).
    pub fn placed_count(&self, d: u8) -> (n: usize)
        ensures
            n == count_digit(self.values@, d),
    {
        let mut n: usize = 0;
        let mut i: usize = 0;
        while i < self.values.len()
            invariant
                i <= self.values@.len(),
                n == count_digit(self.values@.take(i as int), d),
                n <= i,
            decreases self.values@.len() - i,
        {
            proof {
                assert(self.values@.take(i as int + 1).drop_last() =~= self.values@.take(i as int));
            }
            if self.values[i] == d {
                n += 1;
            }
            i += 1;
        }
        proof {
            assert(self.values@.take(i as int) =~= self.values@);
        }
        n
    }

    /// Easy locks a digit's key once all nine are placed; the others let duplicates through.
    pub fn is_exhausted(&self, d: u8) -> (b: bool)
        ensures
            b == (self.difficulty == Difficulty::Easy && count_digit(self.values@, d) >= 9),
    {
        self.difficulty.flags_mistakes() && self.placed_count(d) >= 9
    }

    /// The selected cell is a clue: every digit key is dead.
    pub fn clue_selected(&self) -> (b: bool)
        requires
            self.wf(),
        ensures
            b == (self.selected matches Some(s) && self.original@[s as int]),
    {
        match self.selected {
            Some(s) => self.original[s],
            None => false,
        }
    }

    /// The selected cell already holds `d`: tapping the key clears it.
    pub fn clears_with(&self, d: u8) -> (b: bool)
        requires
            self.wf(),
        ensures
            b == (self.selected matches Some(s) && !self.original@[s as int] && self.values@[s as int] == d),
    {
        match self.selected {
            Some(s) => !self.original[s] && self.values[s] == d,
            None => false,
        }
    }

    fn snap(&self, i: usize) -> (c: CellSnap)
        requires
            self.wf(),
            i < 81,
        ensures
            c == self.snap_spec(i as int),
    {
        CellSnap { value: self.values[i], notes: self.notes[i], provisional: self.provisional[i] }
    }
}

/// Everything but the board, its history and what a solve sets is as it was.
pub open spec fn keeps_setup(a: Model, b: Model) -> bool {
    &&& a.original@ == b.original@ && a.solution@ == b.solution@ && a.given_up_fill@ == b.given_up_fill@
    &&& a.notes_mode == b.notes_mode && a.paused == b.paused
    &&& a.checkpoint_active == b.checkpoint_active && a.checkpoint_values@ == b.checkpoint_values@
    &&& a.checkpoint_notes@ == b.checkpoint_notes@ && a.checkpoint_cursor == b.checkpoint_cursor
    &&& a.difficulty == b.difficulty && a.hints_remaining == b.hints_remaining
    &&& a.elapsed_secs == b.elapsed_secs && a.given_up == b.given_up && a.rng == b.rng
}

/// The board, its history and what a solve sets are as they were.
pub open spec fn keeps_play(a: Model, b: Model) -> bool {
    &&& a.values@ == b.values@ && a.notes@ == b.notes@ && a.provisional@ == b.provisional@
    &&& a.history@ == b.history@ && a.cursor == b.cursor
    &&& a.complete == b.complete && a.selected == b.selected && a.new_best == b.new_best && a.records == b.records
}

/// What a solve sets is as it was.
pub open spec fn keeps_result(a: Model, b: Model) -> bool {
    a.complete == b.complete && a.selected == b.selected && a.new_best == b.new_best && a.records == b.records
}

/// The board holds every digit 1–9 once in each row, column and box.
pub open spec fn solved(values: Seq<u8>) -> bool {
    full(values) && consistent(values)
}

/// From `b` to `a`, with the board now `values` and the selection `sel`: a board that becomes
/// solved completes the game, clears the selection, counts the solve and keeps the time when
/// it is the difficulty's best; otherwise none of that changes.
pub open spec fn completion(b: Model, a: Model, values: Seq<u8>, sel: Option<usize>) -> bool {
    let done = !b.complete && solved(values);
    let k = index_spec(b.difficulty);
    let best = b.records.best@[k];
    &&& a.complete == (b.complete || done)
    &&& done ==> {
        &&& a.selected is None
        &&& a.new_best == (best == 0 || b.elapsed_secs < best)
        &&& a.records.best@ == (if a.new_best { b.records.best@.update(k, b.elapsed_secs) } else { b.records.best@ })
        &&& a.records.solved == b.records.solved + 1
    }
    &&& !done ==> a.selected == sel && a.new_best == b.new_best && a.records == b.records
}

/// The digit keys act on the selected cell: it is not a clue, the game takes input, and the
/// digit is 1–9; a note goes only into an empty cell, and Easy refuses a tenth of a digit.
pub open spec fn place_allowed(m: Model, digit: u8) -> bool {
    &&& m.selected is Some
    &&& !m.busy_spec()
    &&& !m.original@[m.selected->0 as int]
    &&& 1 <= digit <= 9
    &&& if m.notes_mode {
        m.values@[m.selected->0 as int] == 0
    } else {
        m.values@[m.selected->0 as int] == digit || !(m.difficulty == Difficulty::Easy && count_digit(m.values@, digit) >= 9)
    }
}

/// A cell the hint may fill: not a clue, and not holding the solution's digit.
pub open spec fn wrong_cell(m: Model, i: int) -> bool {
    !m.original@[i] && m.values@[i] != m.solution@[i]
}

/// The cell a hint fills: the selected one when it is wrong, else the first wrong one.
pub open spec fn hint_target(m: Model) -> Option<usize> {
    if m.selected is Some && wrong_cell(m, m.selected->0 as int) {
        m.selected
    } else if exists|j: int| 0 <= j < 81 && wrong_cell(m, j) {
        Some((choose|j: int| 0 <= j < 81 && wrong_cell(m, j) && forall|k: int| 0 <= k < j ==> !wrong_cell(m, k)) as usize)
    } else {
        None
    }
}

/// Some cell below `n` is wrong, so one is the first.
proof fn lemma_some_first_wrong(m: Model, n: int)
    requires
        exists|j: int| 0 <= j < n && wrong_cell(m, j),
    ensures
        exists|j: int| 0 <= j < n && wrong_cell(m, j) && forall|k: int| 0 <= k < j ==> !wrong_cell(m, k),
    decreases n,
{
    if exists|j: int| 0 <= j < n - 1 && wrong_cell(m, j) {
        lemma_some_first_wrong(m, n - 1);
        let j = choose|j: int| 0 <= j < n - 1 && wrong_cell(m, j) && forall|k: int| 0 <= k < j ==> !wrong_cell(m, k);
        assert(0 <= j < n && wrong_cell(m, j) && forall|k: int| 0 <= k < j ==> !wrong_cell(m, k));
    } else {
        assert(wrong_cell(m, n - 1));
        assert(forall|k: int| 0 <= k < n - 1 ==> !wrong_cell(m, k));
    }
}

/// The cell a hint fills (with its solution digit, by [`Model::hint`]): the selected cell when
/// it is neither a clue nor holding its solution digit; otherwise the first such cell; and a
/// hint has a cell to fill exactly when some cell is wrong.
pub proof fn law_a_hint_fills_the_selected_wrong_cell(m: Model)
    requires
        m.wf(),
    ensures
        m.selected is Some && !m.original@[m.selected->0 as int] && m.values@[m.selected->0 as int]
            != m.solution@[m.selected->0 as int] ==> hint_target(m) == m.selected,
        hint_target(m) is Some ==> hint_target(m)->0 < 81 && !m.original@[hint_target(m)->0 as int]
            && m.values@[hint_target(m)->0 as int] != m.solution@[hint_target(m)->0 as int],
        hint_target(m) is Some && !(m.selected is Some && !m.original@[m.selected->0 as int]
            && m.values@[m.selected->0 as int] != m.solution@[m.selected->0 as int]) ==> forall|k: int|
            0 <= k < hint_target(m)->0 ==> m.original@[k] || m.values@[k] == m.solution@[k],
        hint_target(m) is None <==> forall|k: int| 0 <= k < 81 ==> m.original@[k] || m.values@[k] == m.solution@[k],
{
    if exists|j: int| 0 <= j < 81 && wrong_cell(m, j) {
        lemma_some_first_wrong(m, 81);
        if !(m.selected is Some && wrong_cell(m, m.selected->0 as int)) {
            let i = hint_target(m)->0 as int;
            assert(forall|k: int| 0 <= k < i ==> !wrong_cell(m, k));
            assert forall|k: int| 0 <= k < i implies m.original@[k] || m.values@[k] == m.solution@[k] by {
                assert(!wrong_cell(m, k));
            }
        }
    }
    if hint_target(m) is None {
        assert forall|k: int| 0 <= k < 81 implies m.original@[k] || m.values@[k] == m.solution@[k] by {
            assert(!wrong_cell(m, k));
        }
    }
    if forall|k: int| 0 <= k < 81 ==> m.original@[k] || m.values@[k] == m.solution@[k] {
        assert(!(exists|j: int| 0 <= j < 81 && wrong_cell(m, j)));
    }
}

/// The edit the last history entry holds takes the board from `b` to `a`, and back.
pub open spec fn recorded(b: Model, a: Model, i: int) -> bool {
    let e = a.history@.last();
    &&& a.history@.len() > 0
    &&& a.history@.drop_last() == trunc(b.history@, b.cursor as int)
    &&& a.cursor == a.history@.len()
    &&& e.i == i && e.old == b.snap_spec(i) && e.new == a.snap_spec(i)
    &&& undone(a.values@, a.notes@, a.provisional@, e).0 == b.values@
    &&& undone(a.values@, a.notes@, a.provisional@, e).1 == b.notes@
    &&& undone(a.values@, a.notes@, a.provisional@, e).2 == b.provisional@
    &&& redone(b.values@, b.notes@, b.provisional@, e).0 == a.values@
    &&& redone(b.values@, b.notes@, b.provisional@, e).1 == a.notes@
    &&& redone(b.values@, b.notes@, b.provisional@, e).2 == a.provisional@
}

/// Putting back the notes of the stripped peers of `i` gives back the notes as they were.
proof fn lemma_strip_back(n: Seq<u16>, x: Seq<u16>, i: int, bit: u16, upto: int)
    requires
        0 <= upto <= n.len(),
        n.len() == 81,
        x.len() == n.len(),
    ensures
        notes_before(x, stripped_list(n, i, bit, upto)).len() == n.len(),
        notes_after(x, stripped_list(n, i, bit, upto)).len() == n.len(),
        forall|j: int| 0 <= j < n.len() ==> #[trigger] notes_before(x, stripped_list(n, i, bit, upto))[j]
            == if j < upto && is_peer_spec(i, j) && n[j] & bit != 0 { n[j] } else { x[j] },
        forall|j: int| 0 <= j < n.len() ==> #[trigger] notes_after(x, stripped_list(n, i, bit, upto))[j]
            == if j < upto && is_peer_spec(i, j) && n[j] & bit != 0 { n[j] & !bit } else { x[j] },
        forall|p: int| 0 <= p < stripped_list(n, i, bit, upto).len() ==> (#[trigger] stripped_list(n, i, bit, upto)[p]).0 < upto,
    decreases upto,
{
    if upto > 0 {
        let j = upto - 1;
        lemma_strip_back(n, x, i, bit, j);
        let l = stripped_list(n, i, bit, j);
        if is_peer_spec(i, j) && n[j] & bit != 0 {
            let t = seq![(j as usize, n[j], n[j] & !bit)];
            assert(stripped_list(n, i, bit, upto) == l + t);
            assert((l + t).drop_last() =~= l);
            assert((l + t).last() == (j as usize, n[j], n[j] & !bit));
            assert(notes_before(x, l + t) == notes_before(x, l).update(j, n[j]));
            assert(notes_after(x, l + t) == notes_after(x, l).update(j, n[j] & !bit));
            assert forall|p: int| 0 <= p < (l + t).len() implies (#[trigger] (l + t)[p]).0 < upto by {
                if p < l.len() {
                    assert((l + t)[p] == l[p]);
                }
            }
        } else {
            assert(stripped_list(n, i, bit, upto) == l + Seq::<(usize, u16, u16)>::empty());
            assert(l + Seq::<(usize, u16, u16)>::empty() =~= l);
        }
    }
}

impl Model {
    /// Every row, column, and box holds 1–9 exactly once.
    pub fn is_board_valid(&self) -> (b: bool)
        ensures
            b == solved(self.values@),
    {
        let mut i: usize = 0;
        while i < self.values.len()
            invariant
                i <= self.values@.len(),
                forall|k: int| 0 <= k < i ==> 1 <= #[trigger] self.values@[k] <= 9,
            decreases self.values@.len() - i,
        {
            if self.values[i] < 1 || self.values[i] > 9 {
                return false;
            }
            i += 1;
        }
        is_consistent(self.values.as_slice())
    }

    fn push_history(&mut self, i: usize, before: CellSnap, peers: Vec<(usize, u16, u16)>)
        requires
            old(self).wf(),
            i < 81,
            forall|p: int| 0 <= p < peers@.len() ==> (#[trigger] peers@[p]).0 < 81,
        ensures
            final(self).wf(),
            final(self).history@.len() > 0,
            final(self).history@.drop_last() == trunc(old(self).history@, old(self).cursor as int),
            final(self).cursor == final(self).history@.len(),
            final(self).history@.last().i == i,
            final(self).history@.last().old == before,
            final(self).history@.last().new == old(self).snap_spec(i as int),
            final(self).history@.last().peers@ == peers@,
            keeps_setup(*final(self), *old(self)),
            keeps_result(*final(self), *old(self)),
            final(self).values@ == old(self).values@ && final(self).notes@ == old(self).notes@,
            final(self).provisional@ == old(self).provisional@,
    {
        self.history.truncate(self.cursor);
        let new = self.snap(i);
        self.history.push(Edit { i, old: before, new, peers });
        self.cursor = self.history.len();
        proof {
            assert forall|k: int| 0 <= k < self.history@.len() implies edit_fits(#[trigger] self.history@[k]) by {
                if k < self.history@.len() - 1 {
                    assert(self.history@[k] == old(self).history@[k]);
                }
            }
        }
    }

    /// Strip `digit` from every peer's pencil marks, recording each change so undo restores it.
    /// Done whether or not the guess is right, so the side effect reveals nothing.
    fn strip_peer_notes(&mut self, i: usize, digit: u8) -> (peers: Vec<(usize, u16, u16)>)
        requires
            old(self).wf(),
            i < 81,
            1 <= digit <= 9,
        ensures
            final(self).wf(),
            final(self).notes@ == stripped(old(self).notes@, i as int, 1u16 << digit),
            peers@ == stripped_list(old(self).notes@, i as int, 1u16 << digit, 81),
            forall|p: int| 0 <= p < peers@.len() ==> (#[trigger] peers@[p]).0 < 81,
            keeps_setup(*final(self), *old(self)),
            keeps_result(*final(self), *old(self)),
            final(self).values@ == old(self).values@ && final(self).provisional@ == old(self).provisional@,
            final(self).history@ == old(self).history@ && final(self).cursor == old(self).cursor,
    {
        let bit: u16 = 1u16 << digit;
        let ghost n0 = self.notes@;
        let mut peers: Vec<(usize, u16, u16)> = Vec::new();
        let mut j: usize = 0;
        while j < CELLS
            invariant
                j <= 81,
                old(self).wf(),
                i < 81,
                n0 == old(self).notes@,
                self.notes@.len() == 81,
                forall|k: int| 0 <= k < 81 ==> #[trigger] self.notes@[k] == if k < j && is_peer_spec(i as int, k) && n0[k] & bit != 0 {
                    n0[k] & !bit
                } else {
                    n0[k]
                },
                peers@ == stripped_list(n0, i as int, bit, j as int),
                keeps_setup(*self, *old(self)),
                keeps_result(*self, *old(self)),
                self.values@ == old(self).values@ && self.provisional@ == old(self).provisional@,
                self.history@ == old(self).history@ && self.cursor == old(self).cursor,
                self.original@.len() == 81,
            decreases 81 - j,
        {
            if Self::is_peer(i, j) && self.notes[j] & bit != 0 {
                let before = self.notes[j];
                let after = before & !bit;
                self.notes.set(j, after);
                peers.push((j, before, after));
            }
            j += 1;
            proof {
                let l = stripped_list(n0, i as int, bit, j as int - 1);
                if is_peer_spec(i as int, j as int - 1) && n0[j as int - 1] & bit != 0 {
                    assert(peers@ =~= l + seq![((j - 1) as usize, n0[j as int - 1], n0[j as int - 1] & !bit)]);
                } else {
                    assert(peers@ =~= l + Seq::<(usize, u16, u16)>::empty());
                }
            }
        }
        proof {
            assert(self.notes@ =~= stripped(n0, i as int, bit));
            lemma_strip_back(n0, n0, i as int, bit, 81);
        }
        peers
    }

    /// Full and rule-valid = solved (any valid completion wins, not only the canonical
    /// one). Updates the records.
    fn check_completion(&mut self)
        requires
            old(self).wf(),
            old(self).records.solved < u64::MAX,
        ensures
            final(self).wf(),
            completion(*old(self), *final(self), old(self).values@, old(self).selected),
            keeps_setup(*final(self), *old(self)),
            final(self).values@ == old(self).values@ && final(self).notes@ == old(self).notes@,
            final(self).provisional@ == old(self).provisional@,
            final(self).history@ == old(self).history@ && final(self).cursor == old(self).cursor,
    {
        if self.complete || !self.is_board_valid() {
            return;
        }
        self.complete = true;
        self.selected = None;
        let k = self.difficulty.index();
        let secs = self.elapsed_secs;
        let best = self.records.best[k];
        self.new_best = best == 0 || secs < best;
        if self.new_best {
            self.records.best[k] = secs;
        }
        self.records.solved += 1;
    }

    /// Enter a digit (or toggle a note) into the selected cell.
    /// Returns true when something changed.
    #[verifier::rlimit(40)]
    pub fn place(&mut self, digit: u8) -> (changed: bool)
        requires
            old(self).wf(),
            old(self).records.solved < u64::MAX,
        ensures
            final(self).wf(),
            changed == place_allowed(*old(self), digit),
            !changed ==> keeps_setup(*final(self), *old(self)) && keeps_play(*final(self), *old(self)),
            changed ==> keeps_setup(*final(self), *old(self)) && recorded(*old(self), *final(self), old(self).selected->0 as int),
            changed && old(self).notes_mode ==> {
                let i = old(self).selected->0 as int;
                &&& final(self).values@ == old(self).values@
                &&& final(self).notes@ == old(self).notes@.update(i, old(self).notes@[i] ^ (1u16 << digit))
                &&& final(self).provisional@ == old(self).provisional@.update(i, old(self).provisional@[i] || old(self).checkpoint_active)
                &&& keeps_result(*final(self), *old(self))
            },
            changed && !old(self).notes_mode && old(self).values@[old(self).selected->0 as int] == digit ==> {
                let i = old(self).selected->0 as int;
                &&& final(self).values@ == old(self).values@.update(i, 0)
                &&& final(self).notes@ == old(self).notes@
                &&& final(self).provisional@ == old(self).provisional@.update(i, false)
                &&& keeps_result(*final(self), *old(self))
            },
            changed && !old(self).notes_mode && old(self).values@[old(self).selected->0 as int] != digit ==> {
                let i = old(self).selected->0 as int;
                &&& final(self).values@ == old(self).values@.update(i, digit)
                &&& final(self).notes@ == stripped(old(self).notes@.update(i, 0), i, 1u16 << digit)
                &&& final(self).provisional@ == old(self).provisional@.update(i, old(self).checkpoint_active)
                &&& completion(*old(self), *final(self), final(self).values@, old(self).selected)
            },
    {
        let i = match self.selected {
            Some(i) => i,
            None => return false,
        };
        if self.busy() || self.original[i] || digit < 1 || digit > 9 {
            return false;
        }
        let ghost m0 = *self;
        let before = self.snap(i);
        if self.notes_mode {
            if self.values[i] != 0 {
                return false;
            }
            let n = self.notes[i] ^ (1u16 << digit);
            self.notes.set(i, n);
            if self.checkpoint_active {
                self.provisional.set(i, true);
            }
            self.push_history(i, before, Vec::new());
            proof {
                let e = self.history@.last();
                assert(e.peers@ =~= Seq::<(usize, u16, u16)>::empty());
                assert(self.values@.update(i as int, e.old.value) =~= m0.values@);
                assert(m0.values@.update(i as int, e.new.value) =~= self.values@);
                assert(self.notes@.update(i as int, e.old.notes) =~= m0.notes@);
                assert(self.provisional@.update(i as int, e.old.provisional) =~= m0.provisional@);
                assert(m0.notes@.update(i as int, e.new.notes) =~= self.notes@);
                assert(m0.provisional@.update(i as int, e.new.provisional) =~= self.provisional@);
            }
            return true;
        }
        if self.values[i] == digit {
            // Entering the same digit clears it.
            self.values.set(i, 0);
            self.provisional.set(i, false);
            self.push_history(i, before, Vec::new());
            proof {
                let e = self.history@.last();
                assert(e.peers@ =~= Seq::<(usize, u16, u16)>::empty());
                assert(self.values@.update(i as int, e.old.value) =~= m0.values@);
                assert(self.notes@.update(i as int, e.old.notes) =~= m0.notes@);
                assert(self.provisional@.update(i as int, e.old.provisional) =~= m0.provisional@);
                assert(m0.values@.update(i as int, e.new.value) =~= self.values@);
                assert(m0.notes@.update(i as int, e.new.notes) =~= self.notes@);
                assert(m0.provisional@.update(i as int, e.new.provisional) =~= self.provisional@);
            }
            return true;
        }
        if self.is_exhausted(digit) {
            return false;
        }
        self.values.set(i, digit);
        self.notes.set(i, 0);
        let cp = self.checkpoint_active;
        self.provisional.set(i, cp);
        let ghost n1 = self.notes@;
        let peers = self.strip_peer_notes(i, digit);
        self.push_history(i, before, peers);
        proof {
            let e = self.history@.last();
            let bit = 1u16 << digit;
            lemma_strip_back(n1, self.notes@.update(i as int, e.old.notes), i as int, bit, 81);
            lemma_strip_back(n1, m0.notes@.update(i as int, e.new.notes), i as int, bit, 81);
            assert(notes_before(self.notes@.update(i as int, e.old.notes), e.peers@) =~= m0.notes@);
            assert(notes_after(m0.notes@.update(i as int, e.new.notes), e.peers@) =~= self.notes@);
            assert(self.values@.update(i as int, e.old.value) =~= m0.values@);
            assert(self.provisional@.update(i as int, e.old.provisional) =~= m0.provisional@);
            assert(m0.values@.update(i as int, e.new.value) =~= self.values@);
            assert(m0.provisional@.update(i as int, e.new.provisional) =~= self.provisional@);
        }
        let ghost m1 = *self;
        self.check_completion();
        proof {
            assert(recorded(m0, m1, i as int));
        }
        true
    }
}

/// `x` held to 0–8.
pub open spec fn clamp8(x: int) -> int {
    if x < 0 { 0 } else if x > 8 { 8 } else { x }
}

/// The row and column the arrow keys move from: the selected cell's, or the center.
pub open spec fn arrow_origin(selected: Option<usize>) -> (int, int) {
    match selected {
        Some(i) => ((i / 9) as int, (i % 9) as int),
        None => (4, 4),
    }
}

/// Undoing one more of the listed peers sets that peer's notes back.
proof fn lemma_notes_step(n: Seq<u16>, ps: Seq<(usize, u16, u16)>, k: int)
    requires
        0 <= k < ps.len(),
    ensures
        notes_before(n, ps.take(k + 1)) == notes_before(n, ps.take(k)).update(ps[k].0 as int, ps[k].1),
        notes_after(n, ps.take(k + 1)) == notes_after(n, ps.take(k)).update(ps[k].0 as int, ps[k].2),
{
    assert(ps.take(k + 1).drop_last() =~= ps.take(k));
}

/// The list and the hint both name the same first wrong cell.
proof fn lemma_first_wrong(m: Model, j: int)
    requires
        0 <= j < 81,
        wrong_cell(m, j),
        forall|k: int| 0 <= k < j ==> !wrong_cell(m, k),
    ensures
        (choose|x: int| 0 <= x < 81 && wrong_cell(m, x) && forall|k: int| 0 <= k < x ==> !wrong_cell(m, k)) == j,
{
    let x = choose|x: int| 0 <= x < 81 && wrong_cell(m, x) && forall|k: int| 0 <= k < x ==> !wrong_cell(m, k);
    assert(0 <= x < 81 && wrong_cell(m, x) && forall|k: int| 0 <= k < x ==> !wrong_cell(m, k));
    if x < j {
        assert(!wrong_cell(m, x));
    }
    if j < x {
        assert(!wrong_cell(m, j));
    }
}

impl Model {
    /// Clear the selected cell's value and notes (the Delete key on desktop).
    pub fn erase(&mut self) -> (changed: bool)
        requires
            old(self).wf(),
        ensures
            final(self).wf(),
            changed == (old(self).selected is Some && !old(self).busy_spec() && !old(self).original@[old(self).selected->0 as int]
                && !(old(self).values@[old(self).selected->0 as int] == 0 && old(self).notes@[old(self).selected->0 as int] == 0)),
            !changed ==> keeps_setup(*final(self), *old(self)) && keeps_play(*final(self), *old(self)),
            changed ==> {
                let i = old(self).selected->0 as int;
                &&& keeps_setup(*final(self), *old(self)) && keeps_result(*final(self), *old(self))
                &&& recorded(*old(self), *final(self), i)
                &&& final(self).values@ == old(self).values@.update(i, 0)
                &&& final(self).notes@ == old(self).notes@.update(i, 0)
                &&& final(self).provisional@ == old(self).provisional@.update(i, false)
            },
    {
        let i = match self.selected {
            Some(i) => i,
            None => return false,
        };
        if self.busy() || self.original[i] || (self.values[i] == 0 && self.notes[i] == 0) {
            return false;
        }
        let ghost m0 = *self;
        let before = self.snap(i);
        self.values.set(i, 0);
        self.notes.set(i, 0);
        self.provisional.set(i, false);
        self.push_history(i, before, Vec::new());
        proof {
            let e = self.history@.last();
            assert(e.peers@ =~= Seq::<(usize, u16, u16)>::empty());
            assert(self.values@.update(i as int, e.old.value) =~= m0.values@);
            assert(self.notes@.update(i as int, e.old.notes) =~= m0.notes@);
            assert(self.provisional@.update(i as int, e.old.provisional) =~= m0.provisional@);
            assert(m0.values@.update(i as int, e.new.value) =~= self.values@);
            assert(m0.notes@.update(i as int, e.new.notes) =~= self.notes@);
            assert(m0.provisional@.update(i as int, e.new.provisional) =~= self.provisional@);
        }
        true
    }

    /// Move the selection by one cell (the arrow keys), starting at the center when nothing
    /// is selected.
    pub fn move_selection(&mut self, dr: i32, dc: i32)
        requires
            old(self).wf(),
            arrow_origin(old(self).selected).0 + dr <= i32::MAX,
            arrow_origin(old(self).selected).1 + dc <= i32::MAX,
        ensures
            final(self).wf(),
            keeps_setup(*final(self), *old(self)),
            final(self).values@ == old(self).values@ && final(self).notes@ == old(self).notes@,
            final(self).provisional@ == old(self).provisional@,
            final(self).history@ == old(self).history@ && final(self).cursor == old(self).cursor,
            final(self).complete == old(self).complete && final(self).new_best == old(self).new_best,
            final(self).records == old(self).records,
            old(self).busy_spec() ==> final(self).selected == old(self).selected,
            !old(self).busy_spec() ==> final(self).selected == Some((clamp8(arrow_origin(old(self).selected).0 + dr) * 9
                + clamp8(arrow_origin(old(self).selected).1 + dc)) as usize),
    {
        if self.busy() {
            return;
        }
        let (r, c): (i32, i32) = match self.selected {
            Some(i) => ((i / 9) as i32, (i % 9) as i32),
            None => (4, 4),
        };
        let r2: i32 = r + dr;
        let c2: i32 = c + dc;
        let r3: usize = if r2 < 0 { 0 } else if r2 > 8 { 8 } else { r2 as usize };
        let c3: usize = if c2 < 0 { 0 } else if c2 > 8 { 8 } else { c2 as usize };
        self.selected = Some(idx(r3, c3));
    }

    pub fn undo(&mut self)
        requires
            old(self).wf(),
            old(self).cursor <= old(self).history@.len(),
        ensures
            final(self).wf(),
            keeps_setup(*final(self), *old(self)),
            !(old(self).cursor > 0 && !old(self).busy_spec()) ==> keeps_play(*final(self), *old(self)),
            old(self).cursor > 0 && !old(self).busy_spec() ==> {
                let e = old(self).history@[old(self).cursor - 1];
                &&& final(self).cursor == old(self).cursor - 1
                &&& final(self).values@ == undone(old(self).values@, old(self).notes@, old(self).provisional@, e).0
                &&& final(self).notes@ == undone(old(self).values@, old(self).notes@, old(self).provisional@, e).1
                &&& final(self).provisional@ == undone(old(self).values@, old(self).notes@, old(self).provisional@, e).2
                &&& final(self).history@ == old(self).history@
                &&& keeps_result(*final(self), *old(self))
            },
    {
        if !self.can_undo() {
            return;
        }
        self.cursor -= 1;
        let c = self.cursor;
        let i = self.history[c].i;
        let snap = self.history[c].old;
        self.values.set(i, snap.value);
        self.notes.set(i, snap.notes);
        self.provisional.set(i, snap.provisional);
        let ghost n1 = self.notes@;
        let ghost ps = self.history@[c as int].peers@;
        let mut k: usize = 0;
        while k < self.history[c].peers.len()
            invariant
                c < self.history@.len(),
                ps == self.history@[c as int].peers@,
                edit_fits(self.history@[c as int]),
                k <= ps.len(),
                self.notes@.len() == 81,
                n1.len() == 81,
                self.notes@ == notes_before(n1, ps.take(k as int)),
                old(self).wf(),
                self.values@.len() == 81 && self.provisional@.len() == 81,
                keeps_setup(*self, *old(self)),
                keeps_result(*self, *old(self)),
                self.history@ == old(self).history@,
                c == old(self).cursor - 1 && self.cursor == c,
                self.values@ == old(self).values@.update(i as int, snap.value),
                self.provisional@ == old(self).provisional@.update(i as int, snap.provisional),
                n1 == old(self).notes@.update(i as int, snap.notes),
                i == self.history@[c as int].i && snap == self.history@[c as int].old,
            decreases ps.len() - k,
        {
            let (j, before, _) = self.history[c].peers[k];
            proof {
                lemma_notes_step(n1, ps, k as int);
                assert(ps[k as int].0 < 81);
            }
            self.notes.set(j, before);
            k += 1;
        }
        proof {
            assert(ps.take(k as int) =~= ps);
        }
    }

    pub fn redo(&mut self)
        requires
            old(self).wf(),
            old(self).records.solved < u64::MAX,
        ensures
            final(self).wf(),
            keeps_setup(*final(self), *old(self)),
            !(old(self).cursor < old(self).history@.len() && !old(self).busy_spec()) ==> keeps_play(*final(self), *old(self)),
            old(self).cursor < old(self).history@.len() && !old(self).busy_spec() ==> {
                let e = old(self).history@[old(self).cursor as int];
                &&& final(self).cursor == old(self).cursor + 1
                &&& final(self).values@ == redone(old(self).values@, old(self).notes@, old(self).provisional@, e).0
                &&& final(self).notes@ == redone(old(self).values@, old(self).notes@, old(self).provisional@, e).1
                &&& final(self).provisional@ == redone(old(self).values@, old(self).notes@, old(self).provisional@, e).2
                &&& final(self).history@ == old(self).history@
                &&& completion(*old(self), *final(self), final(self).values@, old(self).selected)
            },
    {
        if !self.can_redo() {
            return;
        }
        let c = self.cursor;
        let hl = self.history.len();
        let i = self.history[c].i;
        let snap = self.history[c].new;
        self.values.set(i, snap.value);
        self.notes.set(i, snap.notes);
        self.provisional.set(i, snap.provisional);
        let ghost n1 = self.notes@;
        let ghost ps = self.history@[c as int].peers@;
        let mut k: usize = 0;
        while k < self.history[c].peers.len()
            invariant
                c < self.history@.len(),
                ps == self.history@[c as int].peers@,
                edit_fits(self.history@[c as int]),
                k <= ps.len(),
                self.notes@.len() == 81,
                n1.len() == 81,
                self.notes@ == notes_after(n1, ps.take(k as int)),
                old(self).wf(),
                self.values@.len() == 81 && self.provisional@.len() == 81,
                keeps_setup(*self, *old(self)),
                keeps_result(*self, *old(self)),
                self.history@ == old(self).history@,
                c == old(self).cursor && self.cursor == c && hl == self.history@.len(),
                self.values@ == old(self).values@.update(i as int, snap.value),
                self.provisional@ == old(self).provisional@.update(i as int, snap.provisional),
                n1 == old(self).notes@.update(i as int, snap.notes),
                i == self.history@[c as int].i && snap == self.history@[c as int].new,
            decreases ps.len() - k,
        {
            let (j, _, after) = self.history[c].peers[k];
            proof {
                lemma_notes_step(n1, ps, k as int);
                assert(ps[k as int].0 < 81);
            }
            self.notes.set(j, after);
            k += 1;
        }
        proof {
            assert(ps.take(k as int) =~= ps);
        }
        self.cursor += 1;
        self.check_completion();
    }

    /// Fill the correct digit into the selected cell, or the first empty or wrong one. A hint
    /// is committed even inside a checkpoint; the player asked for the answer.
    #[verifier::spinoff_prover]
    #[verifier::rlimit(60)]
    pub fn hint(&mut self) -> (given: bool)
        requires
            old(self).wf(),
            old(self).records.solved < u64::MAX,
        ensures
            final(self).wf(),
            given == (!old(self).busy_spec() && hints_spec(old(self).difficulty) != Some(0i32)
                && old(self).hints_remaining != 0 && hint_target(*old(self)) is Some),
            !given ==> keeps_setup(*final(self), *old(self)) && keeps_play(*final(self), *old(self)),
            given ==> {
                let i = hint_target(*old(self))->0 as int;
                let sol = old(self).solution@[i];
                &&& final(self).values@ == old(self).values@.update(i, sol)
                &&& final(self).notes@ == stripped(old(self).notes@.update(i, 0), i, 1u16 << sol)
                &&& final(self).provisional@ == old(self).provisional@.update(i, false)
                &&& final(self).hints_remaining == (if old(self).hints_remaining > 0 { old(self).hints_remaining - 1 } else {
                    old(self).hints_remaining as int })
                &&& completion(*old(self), *final(self), final(self).values@, Some(i as usize))
                &&& recorded(*old(self), *final(self), i)
                &&& final(self).original@ == old(self).original@ && final(self).solution@ == old(self).solution@
                &&& final(self).given_up_fill@ == old(self).given_up_fill@ && final(self).given_up == old(self).given_up
                &&& final(self).checkpoint_active == old(self).checkpoint_active && final(self).difficulty == old(self).difficulty
                &&& final(self).checkpoint_values@ == old(self).checkpoint_values@ && final(self).checkpoint_notes@ == old(self).checkpoint_notes@
                &&& final(self).checkpoint_cursor == old(self).checkpoint_cursor && final(self).notes_mode == old(self).notes_mode
                &&& final(self).paused == old(self).paused && final(self).elapsed_secs == old(self).elapsed_secs
                &&& final(self).rng == old(self).rng
            },
    {
        if !self.can_hint() {
            return false;
        }
        let ghost m0 = *self;
        let mut target: Option<usize> = None;
        if let Some(s) = self.selected {
            if !self.original[s] && self.values[s] != self.solution[s] {
                target = Some(s);
            }
        }
        if target.is_none() {
            let mut j: usize = 0;
            while j < CELLS && target.is_none()
                invariant
                    j <= 81,
                    self.wf(),
                    *self == m0,
                    target.is_none() ==> forall|k: int| 0 <= k < j ==> !wrong_cell(*self, k),
                    target matches Some(t) ==> t < 81 && wrong_cell(*self, t as int) && forall|k: int| 0 <= k < t ==> !wrong_cell(*self, k),
                decreases 81 - j, (if target.is_none() { 1int } else { 0int }),
            {
                if !self.original[j] && self.values[j] != self.solution[j] {
                    target = Some(j);
                } else {
                    j += 1;
                }
            }
            proof {
                if let Some(t) = target {
                    lemma_first_wrong(m0, t as int);
                }
            }
        }
        let i = match target {
            Some(i) => i,
            None => return false,
        };
        let before = self.snap(i);
        let sol = self.solution[i];
        self.values.set(i, sol);
        self.notes.set(i, 0);
        self.provisional.set(i, false);
        if self.hints_remaining > 0 {
            self.hints_remaining -= 1;
        }
        self.selected = Some(i);
        let ghost n1 = self.notes@;
        let peers = self.strip_peer_notes(i, sol);
        self.push_history(i, before, peers);
        proof {
            let e = self.history@.last();
            let bit = 1u16 << sol;
            lemma_strip_back(n1, self.notes@.update(i as int, e.old.notes), i as int, bit, 81);
            lemma_strip_back(n1, m0.notes@.update(i as int, e.new.notes), i as int, bit, 81);
            assert(notes_before(self.notes@.update(i as int, e.old.notes), e.peers@) =~= m0.notes@);
            assert(notes_after(m0.notes@.update(i as int, e.new.notes), e.peers@) =~= self.notes@);
            assert(self.values@.update(i as int, e.old.value) =~= m0.values@);
            assert(self.provisional@.update(i as int, e.old.provisional) =~= m0.provisional@);
            assert(m0.values@.update(i as int, e.new.value) =~= self.values@);
            assert(m0.provisional@.update(i as int, e.new.provisional) =~= self.provisional@);
        }
        let ghost m1 = *self;
        self.check_completion();
        proof {
            assert(recorded(m0, m1, i as int));
        }
        true
    }
}

/// A cell Give Up fills: not a clue, and empty.
pub open spec fn gives_up_on(original: Seq<bool>, values: Seq<u8>, i: int) -> bool {
    !original[i] && values[i] == 0
}

/// A snapshot that describes a puzzle: one entry a cell in each board vector, a history that
/// names cells on the board with its cursor inside it, a solution that is a solved Sudoku, and
/// every clue agreeing with it.
pub open spec fn save_ok(s: SaveState) -> bool {
    &&& s.values@.len() == 81 && s.original@.len() == 81 && s.solution@.len() == 81
    &&& s.notes@.len() == 81 && s.provisional@.len() == 81 && s.given_up_fill@.len() == 81
    &&& s.checkpoint_values@.len() == 81 && s.checkpoint_notes@.len() == 81
    &&& s.cursor <= s.history@.len()
    &&& forall|k: int| 0 <= k < s.history@.len() ==> edit_fits(#[trigger] s.history@[k])
    &&& full(s.solution@) && consistent(s.solution@)
    &&& forall|i: int| 0 <= i < 81 ==> !#[trigger] s.original@[i] || s.values@[i] == s.solution@[i]
}

fn copy_u8s(v: &Vec<u8>) -> (c: Vec<u8>)
    ensures
        c@ == v@,
{
    let mut c: Vec<u8> = Vec::new();
    let mut i: usize = 0;
    while i < v.len()
        invariant
            i <= v@.len(),
            c@ == v@.take(i as int),
        decreases v@.len() - i,
    {
        c.push(v[i]);
        i += 1;
        proof {
            assert(c@ =~= v@.take(i as int));
        }
    }
    proof {
        assert(v@.take(i as int) =~= v@);
    }
    c
}

fn copy_u16s(v: &Vec<u16>) -> (c: Vec<u16>)
    ensures
        c@ == v@,
{
    let mut c: Vec<u16> = Vec::new();
    let mut i: usize = 0;
    while i < v.len()
        invariant
            i <= v@.len(),
            c@ == v@.take(i as int),
        decreases v@.len() - i,
    {
        c.push(v[i]);
        i += 1;
        proof {
            assert(c@ =~= v@.take(i as int));
        }
    }
    proof {
        assert(v@.take(i as int) =~= v@);
    }
    c
}

fn copy_bools(v: &Vec<bool>) -> (c: Vec<bool>)
    ensures
        c@ == v@,
{
    let mut c: Vec<bool> = Vec::new();
    let mut i: usize = 0;
    while i < v.len()
        invariant
            i <= v@.len(),
            c@ == v@.take(i as int),
        decreases v@.len() - i,
    {
        c.push(v[i]);
        i += 1;
        proof {
            assert(c@ =~= v@.take(i as int));
        }
    }
    proof {
        assert(v@.take(i as int) =~= v@);
    }
    c
}

fn copy_edit(e: &Edit) -> (c: Edit)
    ensures
        same_edit(c, *e),
{
    let mut peers: Vec<(usize, u16, u16)> = Vec::new();
    let mut k: usize = 0;
    while k < e.peers.len()
        invariant
            k <= e.peers@.len(),
            peers@ == e.peers@.take(k as int),
        decreases e.peers@.len() - k,
    {
        peers.push(e.peers[k]);
        k += 1;
        proof {
            assert(peers@ =~= e.peers@.take(k as int));
        }
    }
    proof {
        assert(e.peers@.take(k as int) =~= e.peers@);
    }
    Edit { i: e.i, old: e.old, new: e.new, peers }
}

fn copy_history(h: &Vec<Edit>) -> (c: Vec<Edit>)
    ensures
        c@.len() == h@.len(),
        forall|k: int| 0 <= k < h@.len() ==> same_edit(#[trigger] c@[k], h@[k]),
{
    let mut c: Vec<Edit> = Vec::new();
    let mut k: usize = 0;
    while k < h.len()
        invariant
            k <= h@.len(),
            c@.len() == k,
            forall|m: int| 0 <= m < k ==> same_edit(#[trigger] c@[m], h@[m]),
        decreases h@.len() - k,
    {
        c.push(copy_edit(&h[k]));
        k += 1;
    }
    c
}

fn all_false() -> (v: Vec<bool>)
    ensures
        v@.len() == 81,
        forall|i: int| 0 <= i < 81 ==> !#[trigger] v@[i],
{
    vec![false; CELLS]
}

impl Model {
    /// Bookmark the current position: later edits render provisional until the checkpoint
    /// is committed (keep them) or reverted (drop them). Entering drops the redo tail.
    pub fn enter_checkpoint(&mut self)
        requires
            old(self).wf(),
        ensures
            final(self).wf(),
            final(self).values@ == old(self).values@ && final(self).notes@ == old(self).notes@,
            final(self).provisional@ == old(self).provisional@,
            final(self).cursor == old(self).cursor,
            keeps_result(*final(self), *old(self)),
            old(self).busy_spec() || old(self).checkpoint_active ==> keeps_setup(*final(self), *old(self)) && final(self).history@ == old(self).history@,
            !(old(self).busy_spec() || old(self).checkpoint_active) ==> {
                &&& final(self).checkpoint_active
                &&& final(self).checkpoint_values@ == old(self).values@ && final(self).checkpoint_notes@ == old(self).notes@
                &&& final(self).checkpoint_cursor == old(self).cursor
                &&& final(self).history@ == trunc(old(self).history@, old(self).cursor as int)
                &&& final(self).original@ == old(self).original@ && final(self).solution@ == old(self).solution@
                &&& final(self).given_up_fill@ == old(self).given_up_fill@ && final(self).given_up == old(self).given_up
                &&& final(self).difficulty == old(self).difficulty && final(self).hints_remaining == old(self).hints_remaining
                &&& final(self).notes_mode == old(self).notes_mode && final(self).paused == old(self).paused
                &&& final(self).elapsed_secs == old(self).elapsed_secs && final(self).rng == old(self).rng
            },
    {
        if self.busy() || self.checkpoint_active {
            return;
        }
        self.history.truncate(self.cursor);
        self.checkpoint_values = copy_u8s(&self.values);
        self.checkpoint_notes = copy_u16s(&self.notes);
        self.checkpoint_cursor = self.cursor;
        self.checkpoint_active = true;
        proof {
            assert forall|k: int| 0 <= k < self.history@.len() implies edit_fits(#[trigger] self.history@[k]) by {
                assert(self.history@[k] == old(self).history@[k]);
            }
        }
    }

    /// Keep everything placed during the checkpoint session.
    pub fn commit_checkpoint(&mut self)
        requires
            old(self).wf(),
        ensures
            final(self).wf(),
            final(self).values@ == old(self).values@ && final(self).notes@ == old(self).notes@,
            keeps_result(*final(self), *old(self)),
            !old(self).checkpoint_active ==> keeps_setup(*final(self), *old(self)) && keeps_play(*final(self), *old(self)),
            old(self).checkpoint_active ==> {
                &&& !final(self).checkpoint_active
                &&& forall|i: int| 0 <= i < 81 ==> !#[trigger] final(self).provisional@[i]
                &&& final(self).provisional@.len() == 81
                &&& final(self).history@.len() == 0 && final(self).cursor == 0
                &&& final(self).checkpoint_values@ == old(self).checkpoint_values@ && final(self).checkpoint_notes@ == old(self).checkpoint_notes@
                &&& final(self).checkpoint_cursor == old(self).checkpoint_cursor
                &&& final(self).original@ == old(self).original@ && final(self).solution@ == old(self).solution@
                &&& final(self).given_up_fill@ == old(self).given_up_fill@ && final(self).given_up == old(self).given_up
                &&& final(self).difficulty == old(self).difficulty && final(self).hints_remaining == old(self).hints_remaining
                &&& final(self).notes_mode == old(self).notes_mode && final(self).paused == old(self).paused
                &&& final(self).elapsed_secs == old(self).elapsed_secs && final(self).rng == old(self).rng
            },
    {
        if !self.checkpoint_active {
            return;
        }
        self.provisional = all_false();
        self.checkpoint_active = false;
        self.history.clear();
        self.cursor = 0;
    }

    /// Drop everything placed during the checkpoint session; pre-checkpoint moves stay
    /// undoable.
    pub fn revert_checkpoint(&mut self)
        requires
            old(self).wf(),
        ensures
            final(self).wf(),
            keeps_result(*final(self), *old(self)),
            !old(self).checkpoint_active ==> keeps_setup(*final(self), *old(self)) && keeps_play(*final(self), *old(self)),
            old(self).checkpoint_active ==> {
                &&& !final(self).checkpoint_active
                &&& final(self).values@ == old(self).checkpoint_values@ && final(self).notes@ == old(self).checkpoint_notes@
                &&& forall|i: int| 0 <= i < 81 ==> !#[trigger] final(self).provisional@[i]
                &&& final(self).provisional@.len() == 81
                &&& final(self).history@ == trunc(old(self).history@, old(self).checkpoint_cursor as int)
                &&& final(self).cursor == old(self).checkpoint_cursor
                &&& final(self).checkpoint_values@ == old(self).checkpoint_values@ && final(self).checkpoint_notes@ == old(self).checkpoint_notes@
                &&& final(self).checkpoint_cursor == old(self).checkpoint_cursor
                &&& final(self).original@ == old(self).original@ && final(self).solution@ == old(self).solution@
                &&& final(self).given_up_fill@ == old(self).given_up_fill@ && final(self).given_up == old(self).given_up
                &&& final(self).difficulty == old(self).difficulty && final(self).hints_remaining == old(self).hints_remaining
                &&& final(self).notes_mode == old(self).notes_mode && final(self).paused == old(self).paused
                &&& final(self).elapsed_secs == old(self).elapsed_secs && final(self).rng == old(self).rng
            },
    {
        if !self.checkpoint_active {
            return;
        }
        self.values = copy_u8s(&self.checkpoint_values);
        self.notes = copy_u16s(&self.checkpoint_notes);
        self.provisional = all_false();
        self.checkpoint_active = false;
        self.history.truncate(self.checkpoint_cursor);
        self.cursor = self.checkpoint_cursor;
        proof {
            assert forall|k: int| 0 <= k < self.history@.len() implies edit_fits(#[trigger] self.history@[k]) by {
                assert(self.history@[k] == old(self).history@[k]);
            }
        }
    }

    /// Reveal the solution in the empty cells and lock the board. The player's wrong
    /// entries stay, so the post-mortem shows them in red next to the green fills. No records.
    pub fn give_up(&mut self)
        requires
            old(self).wf(),
        ensures
            final(self).wf(),
            old(self).locked_spec() ==> keeps_setup(*final(self), *old(self)) && keeps_play(*final(self), *old(self)),
            !old(self).locked_spec() ==> {
                &&& final(self).values@ == Seq::new(81, |i: int| if gives_up_on(old(self).original@, old(self).values@, i) {
                    old(self).solution@[i] } else { old(self).values@[i] })
                &&& final(self).given_up_fill@ == Seq::new(81, |i: int| gives_up_on(old(self).original@, old(self).values@, i)
                    || old(self).given_up_fill@[i])
                &&& !final(self).checkpoint_active
                &&& forall|i: int| 0 <= i < 81 ==> !#[trigger] final(self).provisional@[i]
                &&& final(self).provisional@.len() == 81
                &&& final(self).given_up && !final(self).paused && final(self).selected is None
                &&& final(self).notes@ == old(self).notes@ && final(self).history@ == old(self).history@
                &&& final(self).cursor == old(self).cursor
                &&& final(self).complete == old(self).complete && final(self).new_best == old(self).new_best
                &&& final(self).records == old(self).records
                &&& final(self).original@ == old(self).original@ && final(self).solution@ == old(self).solution@
                &&& final(self).checkpoint_values@ == old(self).checkpoint_values@ && final(self).checkpoint_notes@ == old(self).checkpoint_notes@
                &&& final(self).checkpoint_cursor == old(self).checkpoint_cursor
                &&& final(self).difficulty == old(self).difficulty && final(self).hints_remaining == old(self).hints_remaining
                &&& final(self).notes_mode == old(self).notes_mode
                &&& final(self).elapsed_secs == old(self).elapsed_secs && final(self).rng == old(self).rng
            },
    {
        if self.locked() {
            return;
        }
        let mut i: usize = 0;
        while i < CELLS
            invariant
                i <= 81,
                old(self).wf(),
                self.values@.len() == 81 && self.given_up_fill@.len() == 81,
                forall|k: int| 0 <= k < 81 ==> #[trigger] self.values@[k] == if k < i && gives_up_on(old(self).original@, old(self).values@, k) {
                    old(self).solution@[k] } else { old(self).values@[k] },
                forall|k: int| 0 <= k < 81 ==> #[trigger] self.given_up_fill@[k] == ((k < i && gives_up_on(old(self).original@, old(self).values@, k))
                    || old(self).given_up_fill@[k]),
                self.original@ == old(self).original@ && self.solution@ == old(self).solution@,
                self.notes@ == old(self).notes@ && self.provisional@ == old(self).provisional@,
                self.history@ == old(self).history@ && self.cursor == old(self).cursor,
                keeps_result(*self, *old(self)),
                self.checkpoint_values@ == old(self).checkpoint_values@ && self.checkpoint_notes@ == old(self).checkpoint_notes@,
                self.checkpoint_cursor == old(self).checkpoint_cursor && self.checkpoint_active == old(self).checkpoint_active,
                self.difficulty == old(self).difficulty && self.hints_remaining == old(self).hints_remaining,
                self.notes_mode == old(self).notes_mode && self.paused == old(self).paused && self.given_up == old(self).given_up,
                self.elapsed_secs == old(self).elapsed_secs && self.rng == old(self).rng,
            decreases 81 - i,
        {
            if !self.original[i] && self.values[i] == 0 {
                let v = self.solution[i];
                self.values.set(i, v);
                self.given_up_fill.set(i, true);
            }
            i += 1;
        }
        // Nothing left to revert to.
        self.checkpoint_active = false;
        self.provisional = all_false();
        self.given_up = true;
        self.paused = false;
        self.selected = None;
        proof {
            assert(self.values@ =~= Seq::new(81, |i: int| if gives_up_on(old(self).original@, old(self).values@, i) {
                old(self).solution@[i] } else { old(self).values@[i] }));
            assert(self.given_up_fill@ =~= Seq::new(81, |i: int| gives_up_on(old(self).original@, old(self).values@, i)
                || old(self).given_up_fill@[i]));
        }
    }

    pub fn save_state(&self) -> (s: SaveState)
        requires
            self.wf(),
        ensures
            s.values@ == self.values@ && s.original@ == self.original@ && s.solution@ == self.solution@,
            s.notes@ == self.notes@ && s.provisional@ == self.provisional@ && s.given_up_fill@ == self.given_up_fill@,
            s.notes_mode == self.notes_mode && s.checkpoint_active == self.checkpoint_active,
            s.checkpoint_values@ == self.checkpoint_values@ && s.checkpoint_notes@ == self.checkpoint_notes@,
            s.checkpoint_cursor == self.checkpoint_cursor,
            s.difficulty == self.difficulty && s.hints_remaining == self.hints_remaining,
            s.elapsed_secs == self.elapsed_secs,
            s.complete == self.complete && s.given_up == self.given_up,
            s.history@.len() == self.history@.len(),
            forall|k: int| 0 <= k < self.history@.len() ==> same_edit(#[trigger] s.history@[k], self.history@[k]),
            s.cursor == self.cursor,
    {
        SaveState {
            values: copy_u8s(&self.values),
            original: copy_bools(&self.original),
            solution: copy_u8s(&self.solution),
            notes: copy_u16s(&self.notes),
            provisional: copy_bools(&self.provisional),
            given_up_fill: copy_bools(&self.given_up_fill),
            notes_mode: self.notes_mode,
            checkpoint_active: self.checkpoint_active,
            checkpoint_values: copy_u8s(&self.checkpoint_values),
            checkpoint_notes: copy_u16s(&self.checkpoint_notes),
            checkpoint_cursor: self.checkpoint_cursor,
            difficulty: self.difficulty,
            hints_remaining: self.hints_remaining,
            elapsed_secs: self.elapsed_secs,
            complete: self.complete,
            given_up: self.given_up,
            history: copy_history(&self.history),
            cursor: self.cursor,
        }
    }

    /// Rebuild from a snapshot. A malformed one (wrong lengths, a solution that is not a
    /// Sudoku, a clue that contradicts it) is ignored rather than restoring an unsolvable
    /// board. Returns whether the snapshot was taken.
    #[verifier::rlimit(40)]
    pub fn apply_save(&mut self, s: SaveState) -> (taken: bool)
        requires
            old(self).wf(),
        ensures
            final(self).wf(),
            taken == save_ok(s),
            !taken ==> keeps_setup(*final(self), *old(self)) && keeps_play(*final(self), *old(self)),
            taken ==> {
                &&& final(self).values@ == s.values@ && final(self).original@ == s.original@ && final(self).solution@ == s.solution@
                &&& final(self).notes@ == s.notes@ && final(self).provisional@ == s.provisional@
                &&& final(self).given_up_fill@ == s.given_up_fill@
                &&& final(self).notes_mode == s.notes_mode && final(self).checkpoint_active == s.checkpoint_active
                &&& final(self).checkpoint_values@ == s.checkpoint_values@ && final(self).checkpoint_notes@ == s.checkpoint_notes@
                &&& final(self).checkpoint_cursor == s.checkpoint_cursor
                &&& final(self).difficulty == s.difficulty && final(self).hints_remaining == s.hints_remaining
                &&& final(self).elapsed_secs == s.elapsed_secs
                &&& final(self).complete == s.complete && final(self).given_up == s.given_up
                &&& final(self).history@ == s.history@ && final(self).cursor == s.cursor
                &&& final(self).selected is None && !final(self).paused && !final(self).new_best
                &&& final(self).records == old(self).records && final(self).rng == old(self).rng
            },
    {
        let mut ok = s.values.len() == CELLS && s.original.len() == CELLS && s.solution.len() == CELLS
            && s.notes.len() == CELLS && s.provisional.len() == CELLS && s.given_up_fill.len() == CELLS
            && s.checkpoint_values.len() == CELLS && s.checkpoint_notes.len() == CELLS
            && s.cursor <= s.history.len();
        if ok {
            let mut k: usize = 0;
            while k < s.history.len() && ok
                invariant
                    k <= s.history@.len(),
                    ok ==> forall|m: int| 0 <= m < k ==> edit_fits(#[trigger] s.history@[m]),
                    !ok ==> !edit_fits(s.history@[k as int]) && k < s.history@.len(),
                decreases s.history@.len() - k, (if ok { 1int } else { 0int }),
            {
                if s.history[k].i >= CELLS {
                    ok = false;
                } else {
                    let mut p: usize = 0;
                    while p < s.history[k].peers.len() && ok
                        invariant
                            k < s.history@.len(),
                            p <= s.history@[k as int].peers@.len(),
                            s.history@[k as int].i < 81,
                            ok ==> forall|q: int| 0 <= q < p ==> (#[trigger] s.history@[k as int].peers@[q]).0 < 81,
                            !ok ==> p < s.history@[k as int].peers@.len() && s.history@[k as int].peers@[p as int].0 >= 81,
                        decreases s.history@[k as int].peers@.len() - p, (if ok { 1int } else { 0int }),
                    {
                        if s.history[k].peers[p].0 >= CELLS {
                            ok = false;
                        } else {
                            p += 1;
                        }
                    }
                    if ok {
                        k += 1;
                    }
                }
            }
        }
        if ok {
            let mut i: usize = 0;
            while i < CELLS && ok
                invariant
                    i <= 81,
                    s.solution@.len() == 81,
                    ok ==> forall|m: int| 0 <= m < i ==> 1 <= #[trigger] s.solution@[m] <= 9,
                    !ok ==> i < 81 && !(1 <= s.solution@[i as int] <= 9),
                decreases 81 - i, (if ok { 1int } else { 0int }),
            {
                if s.solution[i] < 1 || s.solution[i] > 9 {
                    ok = false;
                } else {
                    i += 1;
                }
            }
        }
        ok = ok && is_consistent(s.solution.as_slice());
        if ok {
            let mut i: usize = 0;
            while i < CELLS && ok
                invariant
                    i <= 81,
                    s.solution@.len() == 81 && s.original@.len() == 81 && s.values@.len() == 81,
                    ok ==> forall|m: int| 0 <= m < i ==> !#[trigger] s.original@[m] || s.values@[m] == s.solution@[m],
                    !ok ==> i < 81 && s.original@[i as int] && s.values@[i as int] != s.solution@[i as int],
                decreases 81 - i, (if ok { 1int } else { 0int }),
            {
                if s.original[i] && s.values[i] != s.solution[i] {
                    ok = false;
                } else {
                    i += 1;
                }
            }
        }
        if !ok {
            return false;
        }
        self.values = s.values;
        self.original = s.original;
        self.solution = s.solution;
        self.notes = s.notes;
        self.provisional = s.provisional;
        self.given_up_fill = s.given_up_fill;
        self.notes_mode = s.notes_mode;
        self.checkpoint_active = s.checkpoint_active;
        self.checkpoint_values = s.checkpoint_values;
        self.checkpoint_notes = s.checkpoint_notes;
        self.checkpoint_cursor = s.checkpoint_cursor;
        self.difficulty = s.difficulty;
        self.hints_remaining = s.hints_remaining;
        self.elapsed_secs = s.elapsed_secs;
        self.complete = s.complete;
        self.given_up = s.given_up;
        self.history = s.history;
        self.cursor = s.cursor;
        self.selected = None;
        self.paused = false;
        self.new_best = false;
        true
    }
}

// Puzzle generation: the canonical solution scrambled by digit relabeling and thirty random
// row/column/band/stack swaps, then cells removed in 180°-symmetric pairs down to the
// difficulty's clue count. The win check is rule-based, so uniqueness is not required.
pub const CANONICAL: [u8; 81] = [
    5, 3, 4, 6, 7, 8, 9, 1, 2,
    6, 7, 2, 1, 9, 5, 3, 4, 8,
    1, 9, 8, 3, 4, 2, 5, 6, 7,
    8, 5, 9, 7, 6, 1, 4, 2, 3,
    4, 2, 6, 8, 5, 3, 7, 9, 1,
    7, 1, 3, 9, 2, 4, 8, 5, 6,
    9, 6, 1, 5, 3, 7, 2, 8, 4,
    2, 8, 7, 4, 1, 9, 6, 3, 5,
    3, 4, 5, 2, 8, 6, 1, 7, 9,
];

/// The canonical grid is a solved Sudoku.
#[verifier::rlimit(100)]
proof fn lemma_canonical()
    ensures
        full(CANONICAL@),
        consistent(CANONICAL@),
{
    assert(group_ok(CANONICAL@, 0, 0));
    assert(group_ok(CANONICAL@, 0, 1));
    assert(group_ok(CANONICAL@, 0, 2));
    assert(group_ok(CANONICAL@, 0, 3));
    assert(group_ok(CANONICAL@, 0, 4));
    assert(group_ok(CANONICAL@, 0, 5));
    assert(group_ok(CANONICAL@, 0, 6));
    assert(group_ok(CANONICAL@, 0, 7));
    assert(group_ok(CANONICAL@, 0, 8));
    assert(group_ok(CANONICAL@, 1, 0));
    assert(group_ok(CANONICAL@, 1, 1));
    assert(group_ok(CANONICAL@, 1, 2));
    assert(group_ok(CANONICAL@, 1, 3));
    assert(group_ok(CANONICAL@, 1, 4));
    assert(group_ok(CANONICAL@, 1, 5));
    assert(group_ok(CANONICAL@, 1, 6));
    assert(group_ok(CANONICAL@, 1, 7));
    assert(group_ok(CANONICAL@, 1, 8));
    assert(group_ok(CANONICAL@, 2, 0));
    assert(group_ok(CANONICAL@, 2, 1));
    assert(group_ok(CANONICAL@, 2, 2));
    assert(group_ok(CANONICAL@, 2, 3));
    assert(group_ok(CANONICAL@, 2, 4));
    assert(group_ok(CANONICAL@, 2, 5));
    assert(group_ok(CANONICAL@, 2, 6));
    assert(group_ok(CANONICAL@, 2, 7));
    assert(group_ok(CANONICAL@, 2, 8));
    assert forall|i: int| 0 <= i < 81 implies 1 <= #[trigger] CANONICAL@[i] <= 9 by {
    }
    assert forall|kind: int, g: int| 0 <= kind < 3 && 0 <= g < 9 implies #[trigger] group_ok(CANONICAL@, kind, g) by {
    }
}

/// How many cells are filled.
pub open spec fn count_filled(grid: Seq<u8>) -> int
    decreases grid.len(),
{
    if grid.len() == 0 {
        0
    } else {
        count_filled(grid.drop_last()) + if grid.last() != 0 { 1int } else { 0 }
    }
}

/// Cell `x` is a hole whose 180° mate is not.
pub open spec fn unpaired(p: Seq<u8>, x: int) -> bool {
    p[x] == 0 && p[80 - x] != 0
}

/// Holes come in 180° pairs.
pub open spec fn symmetric(p: Seq<u8>) -> bool {
    forall|x: int| 0 <= x < 81 ==> !#[trigger] unpaired(p, x)
}

/// A puzzle drawn from `solution`: each cell kept or emptied.
pub open spec fn drawn_from(p: Seq<u8>, solution: Seq<u8>) -> bool {
    &&& p.len() == 81
    &&& forall|i: int| 0 <= i < 81 ==> #[trigger] p[i] == 0 || p[i] == solution[i]
}

proof fn lemma_count_filled_update(g: Seq<u8>, j: int)
    requires
        0 <= j < g.len(),
        g[j] != 0,
    ensures
        count_filled(g.update(j, 0)) == count_filled(g) - 1,
    decreases g.len(),
{
    let t = g.update(j, 0);
    if j < g.len() - 1 {
        assert(t.drop_last() =~= g.drop_last().update(j, 0));
        lemma_count_filled_update(g.drop_last(), j);
    } else {
        assert(t.drop_last() =~= g.drop_last());
    }
}

proof fn lemma_count_filled_full(g: Seq<u8>)
    requires
        forall|i: int| 0 <= i < g.len() ==> #[trigger] g[i] != 0,
    ensures
        count_filled(g) == g.len(),
    decreases g.len(),
{
    if g.len() > 0 {
        lemma_count_filled_full(g.drop_last());
    }
}

proof fn lemma_count_filled_empty(g: Seq<u8>)
    requires
        forall|i: int| 0 <= i < g.len() ==> #[trigger] g[i] == 0,
    ensures
        count_filled(g) == 0,
    decreases g.len(),
{
    if g.len() > 0 {
        lemma_count_filled_empty(g.drop_last());
    }
}

/// Emptying cells of a consistent grid leaves it consistent.
proof fn lemma_emptied_consistent(g: Seq<u8>, p: Seq<u8>)
    requires
        consistent(g),
        drawn_from(p, g),
    ensures
        consistent(p),
{
    assert forall|kind: int, h: int| 0 <= kind < 3 && 0 <= h < 9 implies #[trigger] group_ok(p, kind, h) by {
        assert(group_ok(g, kind, h));
        assert forall|k: int| 0 <= k < 9 implies #[trigger] p[group_cell(kind, h, k)] <= 9 by {
            lemma_group_cell(kind, h, k);
            assert(g[group_cell(kind, h, k)] <= 9);
        }
        assert forall|j: int, k: int| 0 <= j < k < 9 && p[group_cell(kind, h, j)] != 0
            implies #[trigger] p[group_cell(kind, h, j)] != #[trigger] p[group_cell(kind, h, k)] by {
            lemma_group_cell(kind, h, j);
            lemma_group_cell(kind, h, k);
            assert(g[group_cell(kind, h, j)] != g[group_cell(kind, h, k)]);
        }
    }
}

fn swap_cells<T: Copy>(grid: &mut Vec<T>, a: usize, b: usize)
    requires
        a < old(grid)@.len(),
        b < old(grid)@.len(),
    ensures
        final(grid)@ == old(grid)@.update(a as int, old(grid)@[b as int]).update(b as int, old(grid)@[a as int]),
{
    let x = grid[a];
    let y = grid[b];
    grid.set(a, y);
    grid.set(b, x);
}

/// The grid with rows `r1` and `r2` exchanged.
pub open spec fn rows_swapped(g: Seq<u8>, r1: int, r2: int) -> Seq<u8> {
    Seq::new(81, |i: int| if i / 9 == r1 { g[r2 * 9 + i % 9] } else if i / 9 == r2 { g[r1 * 9 + i % 9] } else { g[i] })
}

/// The grid with columns `c1` and `c2` exchanged.
pub open spec fn cols_swapped(g: Seq<u8>, c1: int, c2: int) -> Seq<u8> {
    Seq::new(81, |i: int| if i % 9 == c1 { g[(i / 9) * 9 + c2] } else if i % 9 == c2 { g[(i / 9) * 9 + c1] } else { g[i] })
}

fn swap_rows(grid: &mut Vec<u8>, r1: usize, r2: usize)
    requires
        old(grid)@.len() == 81,
        r1 < 9,
        r2 < 9,
    ensures
        final(grid)@ == rows_swapped(old(grid)@, r1 as int, r2 as int),
{
    let ghost g0 = grid@;
    let mut c: usize = 0;
    while c < 9
        invariant
            c <= 9,
            r1 < 9 && r2 < 9,
            grid@.len() == 81,
            forall|i: int| 0 <= i < 81 ==> #[trigger] grid@[i] == if i % 9 < c { rows_swapped(g0, r1 as int, r2 as int)[i] } else { g0[i] },
        decreases 9 - c,
    {
        swap_cells(grid, idx(r1, c), idx(r2, c));
        c += 1;
    }
    proof {
        assert(grid@ =~= rows_swapped(g0, r1 as int, r2 as int));
    }
}

fn swap_cols(grid: &mut Vec<u8>, c1: usize, c2: usize)
    requires
        old(grid)@.len() == 81,
        c1 < 9,
        c2 < 9,
    ensures
        final(grid)@ == cols_swapped(old(grid)@, c1 as int, c2 as int),
{
    let ghost g0 = grid@;
    let mut r: usize = 0;
    while r < 9
        invariant
            r <= 9,
            c1 < 9 && c2 < 9,
            grid@.len() == 81,
            forall|i: int| 0 <= i < 81 ==> #[trigger] grid@[i] == if i / 9 < r { cols_swapped(g0, c1 as int, c2 as int)[i] } else { g0[i] },
        decreases 9 - r,
    {
        swap_cells(grid, idx(r, c1), idx(r, c2));
        r += 1;
    }
    proof {
        assert(grid@ =~= cols_swapped(g0, c1 as int, c2 as int));
    }
}

/// Where cell `a` sits in its row, its column and its box.
proof fn lemma_cell_coords(a: int)
    requires
        0 <= a < 81,
    ensures
        group_cell(0, a / 9, a % 9) == a,
        group_cell(1, a % 9, a / 9) == a,
        group_cell(2, (a / 27) * 3 + (a % 9) / 3, ((a / 9) % 3) * 3 + a % 3) == a,
        0 <= (a / 27) * 3 + (a % 9) / 3 < 9,
        0 <= ((a / 9) % 3) * 3 + a % 3 < 9,
{
}

/// The row, column and box coordinates of a group's cell.
proof fn lemma_group_coords(kind: int, h: int, k: int)
    requires
        0 <= kind < 3,
        0 <= h < 9,
        0 <= k < 9,
    ensures
        0 <= group_cell(kind, h, k) < 81,
        kind == 0 ==> group_cell(kind, h, k) / 9 == h && group_cell(kind, h, k) % 9 == k,
        kind == 1 ==> group_cell(kind, h, k) % 9 == h && group_cell(kind, h, k) / 9 == k,
        kind == 2 ==> group_cell(kind, h, k) / 27 == h / 3 && (group_cell(kind, h, k) % 9) / 3 == h % 3
            && (group_cell(kind, h, k) / 9) % 3 == k / 3 && group_cell(kind, h, k) % 3 == k % 3,
{
}

/// No two peers hold the same non-zero digit, and no cell a digit above nine.
pub open spec fn peers_ok(g: Seq<u8>) -> bool {
    &&& g.len() == 81
    &&& forall|a: int| 0 <= a < 81 ==> #[trigger] g[a] <= 9
    &&& forall|a: int, b: int| 0 <= a < 81 && 0 <= b < 81 && is_peer_spec(a, b) && g[a] != 0 ==> #[trigger] g[a] != #[trigger] g[b]
}

/// The row and column of the cell at row `r`, column `c`.
proof fn lemma_rc(r: int, c: int)
    requires
        0 <= r < 9,
        0 <= c < 9,
    ensures
        0 <= r * 9 + c < 81,
        (r * 9 + c) / 9 == r,
        (r * 9 + c) % 9 == c,
        (r * 9 + c) / 27 == r / 3,
{
}

/// In a consistent grid two peers never share a non-zero digit.
#[verifier::rlimit(40)]
proof fn lemma_peer_pair(g: Seq<u8>, a: int, b: int)
    requires
        consistent(g),
        0 <= a < 81,
        0 <= b < 81,
        is_peer_spec(a, b),
        g[a] != 0,
    ensures
        g[a] != g[b],
{
    lemma_cell_coords(a);
    lemma_cell_coords(b);
    let (kind, h, j, k) = if a / 9 == b / 9 {
        (0int, a / 9, a % 9, b % 9)
    } else if a % 9 == b % 9 {
        (1int, a % 9, a / 9, b / 9)
    } else {
        (2int, (a / 27) * 3 + (a % 9) / 3, ((a / 9) % 3) * 3 + a % 3, ((b / 9) % 3) * 3 + b % 3)
    };
    assert(group_cell(kind, h, j) == a && group_cell(kind, h, k) == b);
    assert(group_ok(g, kind, h));
    if j < k {
        assert(g[group_cell(kind, h, j)] != g[group_cell(kind, h, k)]);
    } else {
        if g[b] != 0 {
            assert(g[group_cell(kind, h, k)] != g[group_cell(kind, h, j)]);
        }
    }
}

/// With no two peers sharing a non-zero digit, every group is fine.
#[verifier::rlimit(40)]
proof fn lemma_group_from_peers(g: Seq<u8>, kind: int, h: int)
    requires
        peers_ok(g),
        0 <= kind < 3,
        0 <= h < 9,
    ensures
        group_ok(g, kind, h),
{
    assert forall|k: int| 0 <= k < 9 implies #[trigger] g[group_cell(kind, h, k)] <= 9 by {
        lemma_group_coords(kind, h, k);
    }
    assert forall|j: int, k: int| 0 <= j < k < 9 && g[group_cell(kind, h, j)] != 0
        implies #[trigger] g[group_cell(kind, h, j)] != #[trigger] g[group_cell(kind, h, k)] by {
        lemma_group_coords(kind, h, j);
        lemma_group_coords(kind, h, k);
        assert(is_peer_spec(group_cell(kind, h, j), group_cell(kind, h, k)));
    }
}

/// Consistency group by group is consistency peer by peer.
proof fn lemma_peers(g: Seq<u8>)
    requires
        g.len() == 81,
    ensures
        consistent(g) == peers_ok(g),
{
    if consistent(g) {
        assert forall|a: int| 0 <= a < 81 implies #[trigger] g[a] <= 9 by {
            lemma_cell_coords(a);
            assert(group_ok(g, 0, a / 9));
        }
        assert forall|a: int, b: int| 0 <= a < 81 && 0 <= b < 81 && is_peer_spec(a, b) && g[a] != 0
            implies #[trigger] g[a] != #[trigger] g[b] by {
            lemma_peer_pair(g, a, b);
        }
    }
    if peers_ok(g) {
        assert forall|kind: int, h: int| 0 <= kind < 3 && 0 <= h < 9 implies #[trigger] group_ok(g, kind, h) by {
            lemma_group_from_peers(g, kind, h);
        }
    }
}

/// An order of the nine rows (or columns) that keeps each band (or stack) together.
pub open spec fn keeps_bands(sigma: spec_fn(int) -> int) -> bool {
    &&& forall|r: int| 0 <= r < 9 ==> 0 <= #[trigger] sigma(r) < 9
    &&& forall|r1: int, r2: int| 0 <= r1 < 9 && 0 <= r2 < 9 && r1 != r2 ==> #[trigger] sigma(r1) != #[trigger] sigma(r2)
    &&& forall|r1: int, r2: int| 0 <= r1 < 9 && 0 <= r2 < 9 ==> (r1 / 3 == r2 / 3) == (#[trigger] sigma(r1) / 3 == #[trigger] sigma(r2) / 3)
}

/// The grid with its rows taken in the order `sigma`.
pub open spec fn rows_by(g: Seq<u8>, sigma: spec_fn(int) -> int) -> Seq<u8> {
    Seq::new(81, |i: int| g[sigma(i / 9) * 9 + i % 9])
}

/// The grid with its columns taken in the order `tau`.
pub open spec fn cols_by(g: Seq<u8>, tau: spec_fn(int) -> int) -> Seq<u8> {
    Seq::new(81, |i: int| g[(i / 9) * 9 + tau(i % 9)])
}

/// The grid with each digit d written as `digits[d - 1]`.
pub open spec fn relabeled(g: Seq<u8>, digits: Seq<u8>) -> Seq<u8> {
    Seq::new(81, |i: int| digits[g[i] - 1])
}

/// The nine digits, each once.
pub open spec fn is_digit_order(digits: Seq<u8>) -> bool {
    &&& digits.len() == 9
    &&& forall|k: int| 0 <= k < 9 ==> 1 <= #[trigger] digits[k] <= 9
    &&& forall|j: int, k: int| 0 <= j < 9 && 0 <= k < 9 && j != k ==> #[trigger] digits[j] != #[trigger] digits[k]
}

/// Taking the rows in an order that keeps the bands together keeps a solved grid solved.
proof fn lemma_rows_by(g: Seq<u8>, sigma: spec_fn(int) -> int)
    requires
        solved(g),
        keeps_bands(sigma),
    ensures
        solved(rows_by(g, sigma)),
{
    let t = rows_by(g, sigma);
    lemma_peers(g);
    assert forall|a: int| 0 <= a < 81 implies 1 <= #[trigger] t[a] <= 9 by {
        lemma_cell_coords(a);
        assert(0 <= sigma(a / 9) < 9);
    }
    assert forall|a: int, b: int| 0 <= a < 81 && 0 <= b < 81 && is_peer_spec(a, b) && t[a] != 0
        implies #[trigger] t[a] != #[trigger] t[b] by {
        let (ra, ca, rb, cb) = (a / 9, a % 9, b / 9, b % 9);
        assert(0 <= sigma(ra) < 9 && 0 <= sigma(rb) < 9);
        assert((ra / 3 == rb / 3) == (sigma(ra) / 3 == sigma(rb) / 3));
        if ra != rb {
            assert(sigma(ra) != sigma(rb));
        }
        let a2 = sigma(ra) * 9 + ca;
        let b2 = sigma(rb) * 9 + cb;
        lemma_rc(sigma(ra), ca);
        lemma_rc(sigma(rb), cb);
        assert(is_peer_spec(a2, b2));
        assert(g[a2] != g[b2]);
    }
    lemma_peers(t);
}

/// Taking the columns in an order that keeps the stacks together keeps a solved grid solved.
proof fn lemma_cols_by(g: Seq<u8>, tau: spec_fn(int) -> int)
    requires
        solved(g),
        keeps_bands(tau),
    ensures
        solved(cols_by(g, tau)),
{
    let t = cols_by(g, tau);
    lemma_peers(g);
    assert forall|a: int| 0 <= a < 81 implies 1 <= #[trigger] t[a] <= 9 by {
        lemma_cell_coords(a);
        assert(0 <= tau(a % 9) < 9);
    }
    assert forall|a: int, b: int| 0 <= a < 81 && 0 <= b < 81 && is_peer_spec(a, b) && t[a] != 0
        implies #[trigger] t[a] != #[trigger] t[b] by {
        let (ra, ca, rb, cb) = (a / 9, a % 9, b / 9, b % 9);
        assert(0 <= tau(ca) < 9 && 0 <= tau(cb) < 9);
        assert((ca / 3 == cb / 3) == (tau(ca) / 3 == tau(cb) / 3));
        if ca != cb {
            assert(tau(ca) != tau(cb));
        }
        let a2 = ra * 9 + tau(ca);
        let b2 = rb * 9 + tau(cb);
        lemma_rc(ra, tau(ca));
        lemma_rc(rb, tau(cb));
        assert(is_peer_spec(a2, b2));
        assert(g[a2] != g[b2]);
    }
    lemma_peers(t);
}

/// Writing the digits in another order keeps a solved grid solved.
proof fn lemma_relabeled(g: Seq<u8>, digits: Seq<u8>)
    requires
        solved(g),
        is_digit_order(digits),
    ensures
        solved(relabeled(g, digits)),
{
    let t = relabeled(g, digits);
    lemma_peers(g);
    assert forall|a: int| 0 <= a < 81 implies 1 <= #[trigger] t[a] <= 9 by {
        assert(1 <= g[a] <= 9);
        assert(1 <= digits[g[a] - 1] <= 9);
    }
    assert forall|a: int, b: int| 0 <= a < 81 && 0 <= b < 81 && is_peer_spec(a, b) && t[a] != 0
        implies #[trigger] t[a] != #[trigger] t[b] by {
        assert(1 <= g[a] <= 9 && 1 <= g[b] <= 9);
        assert(g[a] != g[b]);
        assert(digits[g[a] - 1] != digits[g[b] - 1]);
    }
    lemma_peers(t);
}

/// Rows (or columns) `x` and `y` exchanged.
pub open spec fn swap_order(x: int, y: int) -> spec_fn(int) -> int {
    |r: int| if r == x { y } else if r == y { x } else { r }
}

/// The first `upto` rows (or columns) of bands (or stacks) `b1` and `b2` exchanged.
pub open spec fn band_order(b1: int, b2: int, upto: int) -> spec_fn(int) -> int {
    |r: int| if r / 3 == b1 && r % 3 < upto { b2 * 3 + r % 3 } else if r / 3 == b2 && r % 3 < upto { b1 * 3 + r % 3 } else { r }
}

proof fn lemma_swap_order(x: int, y: int)
    requires
        0 <= x < 9,
        0 <= y < 9,
        x / 3 == y / 3,
    ensures
        keeps_bands(swap_order(x, y)),
{
}

proof fn lemma_band_order(b1: int, b2: int)
    requires
        0 <= b1 < 3,
        0 <= b2 < 3,
    ensures
        keeps_bands(band_order(b1, b2, 3)),
{
    let f = band_order(b1, b2, 3);
    assert forall|r1: int, r2: int| 0 <= r1 < 9 && 0 <= r2 < 9 && r1 != r2 implies #[trigger] f(r1) != #[trigger] f(r2) by {
    }
}

proof fn lemma_rows_swapped_by(g: Seq<u8>, x: int, y: int)
    requires
        g.len() == 81,
        0 <= x < 9,
        0 <= y < 9,
    ensures
        rows_swapped(g, x, y) == rows_by(g, swap_order(x, y)),
{
    assert forall|i: int| 0 <= i < 81 implies #[trigger] rows_swapped(g, x, y)[i] == rows_by(g, swap_order(x, y))[i] by {
        lemma_cell_coords(i);
    }
    assert(rows_swapped(g, x, y) =~= rows_by(g, swap_order(x, y)));
}

proof fn lemma_cols_swapped_by(g: Seq<u8>, x: int, y: int)
    requires
        g.len() == 81,
        0 <= x < 9,
        0 <= y < 9,
    ensures
        cols_swapped(g, x, y) == cols_by(g, swap_order(x, y)),
{
    assert forall|i: int| 0 <= i < 81 implies #[trigger] cols_swapped(g, x, y)[i] == cols_by(g, swap_order(x, y))[i] by {
        lemma_cell_coords(i);
    }
    assert(cols_swapped(g, x, y) =~= cols_by(g, swap_order(x, y)));
}

/// Exchange bands `b1` and `b2`, row by row.
fn swap_bands(grid: &mut Vec<u8>, b1: usize, b2: usize)
    requires
        old(grid)@.len() == 81,
        b1 < 3,
        b2 < 3,
        b1 != b2,
    ensures
        final(grid)@ == rows_by(old(grid)@, band_order(b1 as int, b2 as int, 3)),
{
    let ghost g0 = grid@;
    let mut k: usize = 0;
    proof {
        assert forall|i: int| 0 <= i < 81 implies #[trigger] rows_by(g0, band_order(b1 as int, b2 as int, 0))[i] == g0[i] by {
            lemma_cell_coords(i);
        }
        assert(grid@ =~= rows_by(g0, band_order(b1 as int, b2 as int, 0)));
    }
    while k < 3
        invariant
            k <= 3,
            b1 < 3 && b2 < 3 && b1 != b2,
            g0.len() == 81,
            grid@ == rows_by(g0, band_order(b1 as int, b2 as int, k as int)),
        decreases 3 - k,
    {
        let ghost before = grid@;
        swap_rows(grid, b1 * 3 + k, b2 * 3 + k);
        proof {
            let f0 = band_order(b1 as int, b2 as int, k as int);
            let f1 = band_order(b1 as int, b2 as int, k as int + 1);
            assert forall|i: int| 0 <= i < 81 implies #[trigger] grid@[i] == rows_by(g0, f1)[i] by {
                lemma_cell_coords(i);
                let r = i / 9;
                let c = i % 9;
                lemma_rc(b1 * 3 + k, c);
                lemma_rc(b2 * 3 + k, c);
                lemma_rc(f0(r), c);
            }
            assert(grid@ =~= rows_by(g0, f1));
        }
        k += 1;
    }
}

/// Exchange stacks `s1` and `s2`, column by column.
fn swap_stacks(grid: &mut Vec<u8>, s1: usize, s2: usize)
    requires
        old(grid)@.len() == 81,
        s1 < 3,
        s2 < 3,
        s1 != s2,
    ensures
        final(grid)@ == cols_by(old(grid)@, band_order(s1 as int, s2 as int, 3)),
{
    let ghost g0 = grid@;
    let mut k: usize = 0;
    proof {
        assert forall|i: int| 0 <= i < 81 implies #[trigger] cols_by(g0, band_order(s1 as int, s2 as int, 0))[i] == g0[i] by {
            lemma_cell_coords(i);
        }
        assert(grid@ =~= cols_by(g0, band_order(s1 as int, s2 as int, 0)));
    }
    while k < 3
        invariant
            k <= 3,
            s1 < 3 && s2 < 3 && s1 != s2,
            g0.len() == 81,
            grid@ == cols_by(g0, band_order(s1 as int, s2 as int, k as int)),
        decreases 3 - k,
    {
        swap_cols(grid, s1 * 3 + k, s2 * 3 + k);
        proof {
            let f0 = band_order(s1 as int, s2 as int, k as int);
            let f1 = band_order(s1 as int, s2 as int, k as int + 1);
            assert forall|i: int| 0 <= i < 81 implies #[trigger] grid@[i] == cols_by(g0, f1)[i] by {
                lemma_cell_coords(i);
                let r = i / 9;
                let c = i % 9;
                lemma_rc(r, s1 * 3 + k);
                lemma_rc(r, s2 * 3 + k);
                lemma_rc(r, f0(c));
            }
            assert(grid@ =~= cols_by(g0, f1));
        }
        k += 1;
    }
}

/// One of the thirty random reshapes of a solved grid, with the generator at `st`: a swap of
/// two rows within a band, of two columns within a stack, of two bands, or of two stacks.
pub open spec fn reshape(g: Seq<u8>, st: u64) -> (Seq<u8>, u64) {
    let r0 = xorshift(st);
    let choice = r0 % 4;
    let r1 = xorshift(r0);
    let r2 = xorshift(r1);
    let x = (r1 % 3) as int;
    if choice == 0 || choice == 1 {
        let r3 = xorshift(r2);
        let a = (r2 % 3) as int;
        let b = (a + 1 + (r3 % 2) as int) % 3;
        if choice == 0 { (rows_swapped(g, x * 3 + a, x * 3 + b), r3) } else { (cols_swapped(g, x * 3 + a, x * 3 + b), r3) }
    } else {
        let y = (x + 1 + (r2 % 2) as int) % 3;
        if choice == 2 { (rows_by(g, band_order(x, y, 3)), r2) } else { (cols_by(g, band_order(x, y, 3)), r2) }
    }
}

/// `n` reshapes in turn.
pub open spec fn reshapes(g: Seq<u8>, st: u64, n: int) -> (Seq<u8>, u64)
    decreases n,
{
    if n <= 0 {
        (g, st)
    } else {
        let (g1, s1) = reshape(g, st);
        reshapes(g1, s1, n - 1)
    }
}

/// The solved grid drawn from the generator at `st`: the canonical grid with its digits
/// shuffled, then thirty reshapes. With the generator's state after.
pub open spec fn solution_from(st: u64) -> (Seq<u8>, u64) {
    let (d, s1) = shuffle_seq(Seq::new(9, |k: int| (k + 1) as u8), st, 9);
    reshapes(relabeled(CANONICAL@, d), s1, 30)
}

/// Clearing cells of `puzzle` in the order `order` from its `k`-th entry on, `remaining`
/// clues left, until `clues` remain: each cleared cell takes its mirror image through the
/// center with it while that leaves more than `clues`.
pub open spec fn clear_from(puzzle: Seq<u8>, order: Seq<usize>, k: int, remaining: int, clues: int) -> Seq<u8>
    decreases 81 - k,
{
    if k >= 81 || remaining <= clues {
        puzzle
    } else {
        let i = order[k] as int;
        if puzzle[i] != 0 {
            let p1 = puzzle.update(i, 0);
            let mate = 80 - i;
            if mate != i && p1[mate] != 0 && remaining - 1 > clues {
                clear_from(p1.update(mate, 0), order, k + 1, remaining - 2, clues)
            } else {
                clear_from(p1, order, k + 1, remaining - 1, clues)
            }
        } else {
            clear_from(puzzle, order, k + 1, remaining, clues)
        }
    }
}

/// The puzzle left of `solution` with `clues` clues, the cells cleared in an order shuffled
/// by the generator at `st`. With the generator's state after.
pub open spec fn cleared_from(solution: Seq<u8>, clues: int, st: u64) -> (Seq<u8>, u64) {
    let (order, s1) = shuffle_seq(Seq::new(81, |k: int| k as usize), st, 81);
    (clear_from(solution, order, 0, 81, clues), s1)
}

/// `(puzzle, solution)` drawn from the generator at `st`, after `tries` earlier draws were
/// refused: a drawn solution and its puzzle when both check out, else another draw, and after
/// five the canonical grid. With the generator's state after.
pub open spec fn puzzle_from(st: u64, clues: int, tries: int) -> (Seq<u8>, Seq<u8>, u64)
    decreases 5 - tries,
{
    if tries < 5 {
        let (sol, s1) = solution_from(st);
        if consistent(sol) && !(exists|i: int| 0 <= i < sol.len() && #[trigger] sol[i] == 0) {
            let (p, s2) = cleared_from(sol, clues, s1);
            if consistent(p) { (p, sol, s2) } else { puzzle_from(s2, clues, tries + 1) }
        } else {
            puzzle_from(s1, clues, tries + 1)
        }
    } else {
        let (p, s2) = cleared_from(CANONICAL@, clues, st);
        (p, CANONICAL@, s2)
    }
}

/// A solved grid drawn at random: the canonical one with its digits relabeled and thirty
/// random swaps of rows within a band, columns within a stack, bands, or stacks. Each of
/// these keeps a solved grid solved.
fn generate_solution(rng: &mut Rng) -> (grid: Vec<u8>)
    ensures
        solved(grid@),
        grid@.len() == 81,
        (grid@, final(rng).0) == solution_from(old(rng).0),
{
    let mut grid: Vec<u8> = Vec::new();
    let mut i: usize = 0;
    while i < CELLS
        invariant
            i <= 81,
            grid@ == CANONICAL@.take(i as int),
        decreases 81 - i,
    {
        grid.push(CANONICAL[i]);
        i += 1;
        proof {
            assert(grid@ =~= CANONICAL@.take(i as int));
        }
    }
    proof {
        assert(grid@ =~= CANONICAL@);
        lemma_canonical();
    }
    // Relabel digits with a random permutation.
    let mut digits: Vec<u8> = Vec::new();
    let mut d: u8 = 1;
    while d <= 9
        invariant
            1 <= d <= 10,
            digits@.len() == d - 1,
            forall|k: int| 0 <= k < digits@.len() ==> #[trigger] digits@[k] == k + 1,
        decreases 10 - d,
    {
        digits.push(d);
        d += 1;
    }
    let mut i: usize = digits.len();
    let ghost d0 = digits@;
    proof {
        assert(d0 =~= Seq::new(9, |k: int| (k + 1) as u8));
    }
    while i > 1
        invariant
            i <= 9,
            is_digit_order(digits@),
            shuffle_seq(digits@, rng.0, i as int) == shuffle_seq(d0, old(rng).0, 9),
        decreases i,
    {
        i -= 1;
        let j = rng.below(i + 1);
        swap_cells(&mut digits, i, j);
        proof {
            let t = digits@;
            assert forall|a: int, b: int| 0 <= a < 9 && 0 <= b < 9 && a != b implies #[trigger] t[a] != #[trigger] t[b] by {
            }
        }
    }
    let ghost g0 = grid@;
    let ghost s1 = rng.0;
    proof {
        assert(shuffle_seq(digits@, rng.0, i as int) == (digits@, rng.0));
    }
    let mut k: usize = 0;
    while k < CELLS
        invariant
            k <= 81,
            g0.len() == 81,
            g0 == CANONICAL@,
            solved(g0),
            is_digit_order(digits@),
            grid@.len() == 81,
            forall|m: int| 0 <= m < 81 ==> #[trigger] grid@[m] == if m < k { relabeled(g0, digits@)[m] } else { g0[m] },
        decreases 81 - k,
    {
        let v = grid[k];
        proof {
            assert(1 <= g0[k as int] <= 9);
        }
        let w = digits[(v - 1) as usize];
        grid.set(k, w);
        k += 1;
    }
    proof {
        assert(grid@ =~= relabeled(g0, digits@));
        lemma_relabeled(g0, digits@);
    }
    let mut n: usize = 0;
    proof {
        assert(solution_from(old(rng).0) == reshapes(grid@, rng.0, 30));
    }
    while n < 30
        invariant
            n <= 30,
            grid@.len() == 81,
            solved(grid@),
            reshapes(grid@, rng.0, 30 - n) == solution_from(old(rng).0),
        decreases 30 - n,
    {
        let ghost g = grid@;
        let ghost st = rng.0;
        proof {
            assert(reshapes(g, st, 30 - n) == reshapes(reshape(g, st).0, reshape(g, st).1, 30 - n - 1));
        }
        match rng.below(4) {
            0 => {
                let band = rng.below(3);
                let r1 = rng.below(3);
                let r2 = rng.other(r1);
                swap_rows(&mut grid, band * 3 + r1, band * 3 + r2);
                proof {
                    lemma_rows_swapped_by(g, (band * 3 + r1) as int, (band * 3 + r2) as int);
                    lemma_swap_order((band * 3 + r1) as int, (band * 3 + r2) as int);
                    lemma_rows_by(g, swap_order((band * 3 + r1) as int, (band * 3 + r2) as int));
                }
            },
            1 => {
                let stack = rng.below(3);
                let c1 = rng.below(3);
                let c2 = rng.other(c1);
                swap_cols(&mut grid, stack * 3 + c1, stack * 3 + c2);
                proof {
                    lemma_cols_swapped_by(g, (stack * 3 + c1) as int, (stack * 3 + c2) as int);
                    lemma_swap_order((stack * 3 + c1) as int, (stack * 3 + c2) as int);
                    lemma_cols_by(g, swap_order((stack * 3 + c1) as int, (stack * 3 + c2) as int));
                }
            },
            2 => {
                let b1 = rng.below(3);
                let b2 = rng.other(b1);
                swap_bands(&mut grid, b1, b2);
                proof {
                    lemma_band_order(b1 as int, b2 as int);
                    lemma_rows_by(g, band_order(b1 as int, b2 as int, 3));
                }
            },
            _ => {
                let s1 = rng.below(3);
                let s2 = rng.other(s1);
                swap_stacks(&mut grid, s1, s2);
                proof {
                    lemma_band_order(s1 as int, s2 as int);
                    lemma_cols_by(g, band_order(s1 as int, s2 as int, 3));
                }
            },
        }
        n += 1;
    }
    grid
}

/// Cell `c` is somewhere in `order`.
pub open spec fn holds_cell(order: Seq<usize>, c: int) -> bool {
    exists|m: int| 0 <= m < order.len() && order[m] == c
}

/// Remove cells in 180°-symmetric pairs until `clues` remain (the count is exact: the last
/// removal skips its mate when one more would undershoot).
#[verifier::rlimit(60)]
fn remove_cells(solution: &Vec<u8>, clues: usize, rng: &mut Rng) -> (puzzle: Vec<u8>)
    requires
        solution@.len() == 81,
        full(solution@),
        clues <= 81,
    ensures
        drawn_from(puzzle@, solution@),
        count_filled(puzzle@) == clues,
        forall|x: int, y: int| 0 <= x < 81 && 0 <= y < 81 && unpaired(puzzle@, x) && unpaired(puzzle@, y) ==> x == y,
        (puzzle@, final(rng).0) == cleared_from(solution@, clues as int, old(rng).0),
{
    let mut puzzle = copy_u8s(solution);
    let mut order: Vec<usize> = Vec::new();
    let mut i: usize = 0;
    while i < CELLS
        invariant
            i <= 81,
            order@.len() == i,
            forall|k: int| 0 <= k < i ==> #[trigger] order@[k] == k,
        decreases 81 - i,
    {
        order.push(i);
        i += 1;
    }
    proof {
        assert forall|c: int| 0 <= c < 81 implies #[trigger] holds_cell(order@, c) by {
            assert(order@[c] == c);
        }
    }
    let mut i: usize = order.len();
    let ghost o0 = order@;
    proof {
        assert(o0 =~= Seq::new(81, |k: int| k as usize));
    }
    while i > 1
        invariant
            i <= 81,
            order@.len() == 81,
            forall|k: int| 0 <= k < 81 ==> #[trigger] order@[k] < 81,
            forall|c: int| 0 <= c < 81 ==> #[trigger] holds_cell(order@, c),
            shuffle_seq(order@, rng.0, i as int) == shuffle_seq(o0, old(rng).0, 81),
        decreases i,
    {
        i -= 1;
        let j = rng.below(i + 1);
        let ghost o0 = order@;
        swap_cells(&mut order, i, j);
        proof {
            assert forall|c: int| 0 <= c < 81 implies #[trigger] holds_cell(order@, c) by {
                assert(holds_cell(o0, c));
                let m = choose|m: int| 0 <= m < 81 && o0[m] == c;
                if m == i as int {
                    assert(order@[j as int] == c);
                } else if m == j as int {
                    assert(order@[i as int] == c);
                } else {
                    assert(order@[m] == c);
                }
            }
        }
    }
    proof {
        assert forall|x: int| 0 <= x < 81 implies #[trigger] puzzle@[x] != 0 by {
            assert(1 <= solution@[x]);
        }
        lemma_count_filled_full(puzzle@);
        assert forall|x: int| 0 <= x < 81 implies !#[trigger] unpaired(puzzle@, x) by {
            assert(puzzle@[80 - x] != 0);
        }
    }
    let mut remaining: usize = CELLS;
    let mut k: usize = 0;
    proof {
        assert(shuffle_seq(order@, rng.0, i as int) == (order@, rng.0));
    }
    while k < CELLS && remaining > clues
        invariant
            clear_from(puzzle@, order@, k as int, remaining as int, clues as int)
                == clear_from(solution@, shuffle_seq(o0, old(rng).0, 81).0, 0, 81, clues as int),
            order@ == shuffle_seq(o0, old(rng).0, 81).0,
            rng.0 == shuffle_seq(o0, old(rng).0, 81).1,
            k <= 81,
            clues <= remaining <= 81,
            order@.len() == 81,
            forall|m: int| 0 <= m < 81 ==> #[trigger] order@[m] < 81,
            forall|c: int| 0 <= c < 81 ==> #[trigger] holds_cell(order@, c),
            drawn_from(puzzle@, solution@),
            remaining == count_filled(puzzle@),
            remaining > clues ==> forall|m: int| 0 <= m < k ==> puzzle@[#[trigger] order@[m] as int] == 0,
            symmetric(puzzle@) || (remaining == clues && forall|x: int, y: int| 0 <= x < 81 && 0 <= y < 81
                && unpaired(puzzle@, x) && unpaired(puzzle@, y) ==> x == y),
        decreases 81 - k,
    {
        let i = order[k];
        if puzzle[i] != 0 {
            let ghost p0 = puzzle@;
            proof {
                lemma_count_filled_update(puzzle@, i as int);
                assert(!unpaired(p0, 80 - i as int));
            }
            puzzle.set(i, 0);
            remaining -= 1;
            let mate = CELLS - 1 - i;
            if mate != i && puzzle[mate] != 0 && remaining > clues {
                proof {
                    lemma_count_filled_update(puzzle@, mate as int);
                }
                puzzle.set(mate, 0);
                remaining -= 1;
                proof {
                    assert forall|x: int| 0 <= x < 81 implies !#[trigger] unpaired(puzzle@, x) by {
                        if x != i as int && x != mate as int && 80 - x != i as int && 80 - x != mate as int {
                            assert(!unpaired(p0, x));
                        }
                    }
                }
            } else {
                proof {
                    if mate == i {
                        assert forall|x: int| 0 <= x < 81 implies !#[trigger] unpaired(puzzle@, x) by {
                            if x != i as int {
                                assert(!unpaired(p0, x));
                            }
                        }
                    } else {
                        assert forall|x: int, y: int| 0 <= x < 81 && 0 <= y < 81 && unpaired(puzzle@, x) && unpaired(puzzle@, y)
                            implies x == y by {
                            if x != i as int {
                                assert(unpaired(p0, x));
                            }
                            if y != i as int {
                                assert(unpaired(p0, y));
                            }
                        }
                    }
                }
            }
        }
        k += 1;
    }
    proof {
        if remaining > clues {
            assert forall|x: int| 0 <= x < 81 implies #[trigger] puzzle@[x] == 0 by {
                assert(holds_cell(order@, x));
                let m = choose|m: int| 0 <= m < 81 && order@[m] == x;
                assert(puzzle@[order@[m] as int] == 0);
            }
            lemma_count_filled_empty(puzzle@);
        }
    }
    puzzle
}

/// Whether a grid has an empty cell.
fn has_zero(v: &Vec<u8>) -> (z: bool)
    ensures
        z == exists|i: int| 0 <= i < v@.len() && #[trigger] v@[i] == 0,
{
    let mut i: usize = 0;
    while i < v.len()
        invariant
            i <= v@.len(),
            forall|k: int| 0 <= k < i ==> #[trigger] v@[k] != 0,
        decreases v@.len() - i,
    {
        if v[i] == 0 {
            return true;
        }
        i += 1;
    }
    false
}

/// A puzzle the game deals: a solved grid and the puzzle drawn from it, with exactly the
/// difficulty's clue count and its holes in 180° pairs bar one.
pub open spec fn dealt(puzzle: Seq<u8>, solution: Seq<u8>, clues: int) -> bool {
    &&& solved(solution)
    &&& consistent(puzzle)
    &&& drawn_from(puzzle, solution)
    &&& count_filled(puzzle) == clues
    &&& forall|x: int, y: int| 0 <= x < 81 && 0 <= y < 81 && unpaired(puzzle, x) && unpaired(puzzle, y) ==> x == y
}

/// `(puzzle, solution)`. The transformations preserve validity, so the check is defensive;
/// the canonical grid is the fallback so the player never faces an unsolvable board.
fn generate_puzzle(rng: &mut Rng, difficulty: Difficulty) -> (r: (Vec<u8>, Vec<u8>))
    ensures
        dealt(r.0@, r.1@, clues_spec(difficulty)),
        (r.0@, r.1@, final(rng).0) == puzzle_from(old(rng).0, clues_spec(difficulty), 0),
{
    let clues = difficulty.clues();
    let mut tries: usize = 0;
    while tries < 5
        invariant
            tries <= 5,
            clues == clues_spec(difficulty),
            clues <= 81,
            puzzle_from(rng.0, clues as int, tries as int) == puzzle_from(old(rng).0, clues as int, 0),
        decreases 5 - tries,
    {
        let ghost st = rng.0;
        let solution = generate_solution(rng);
        if is_consistent(solution.as_slice()) && !has_zero(&solution) {
            let puzzle = remove_cells(&solution, clues, rng);
            if is_consistent(puzzle.as_slice()) {
                return (puzzle, solution);
            }
        }
        tries += 1;
    }
    let mut solution: Vec<u8> = Vec::new();
    let mut i: usize = 0;
    while i < CELLS
        invariant
            i <= 81,
            solution@ == CANONICAL@.take(i as int),
        decreases 81 - i,
    {
        solution.push(CANONICAL[i]);
        i += 1;
        proof {
            assert(solution@ =~= CANONICAL@.take(i as int));
        }
    }
    proof {
        assert(solution@ =~= CANONICAL@);
        lemma_canonical();
    }
    let puzzle = remove_cells(&solution, clues, rng);
    proof {
        lemma_emptied_consistent(solution@, puzzle@);
    }
    (puzzle, solution)
}

/// A fresh puzzle at `difficulty`: dealt, its clues marked, every mark and the history
/// cleared, the clock at zero and the hint budget the difficulty's.
pub open spec fn fresh(m: Model, difficulty: Difficulty) -> bool {
    &&& m.wf()
    &&& m.difficulty == difficulty
    &&& dealt(m.values@, m.solution@, clues_spec(difficulty))
    &&& forall|i: int| 0 <= i < 81 ==> #[trigger] m.original@[i] == (m.values@[i] != 0)
    &&& forall|i: int| 0 <= i < 81 ==> #[trigger] m.notes@[i] == 0 && !m.provisional@[i] && !m.given_up_fill@[i]
    &&& forall|i: int| 0 <= i < 81 ==> #[trigger] m.checkpoint_values@[i] == 0 && m.checkpoint_notes@[i] == 0
    &&& m.selected is None && !m.notes_mode && !m.paused && !m.checkpoint_active && m.checkpoint_cursor == 0
    &&& m.hints_remaining == (match hints_spec(difficulty) { Some(h) => h, None => -1i32 })
    &&& m.elapsed_secs == 0 && !m.complete && !m.given_up && !m.new_best
    &&& m.history@.len() == 0 && m.cursor == 0
}

fn zeros_u8() -> (v: Vec<u8>)
    ensures
        v@.len() == 81,
        forall|i: int| 0 <= i < 81 ==> #[trigger] v@[i] == 0,
{
    vec![0; CELLS]
}

fn zeros_u16() -> (v: Vec<u16>)
    ensures
        v@.len() == 81,
        forall|i: int| 0 <= i < 81 ==> #[trigger] v@[i] == 0,
{
    vec![0; CELLS]
}

impl Model {
    pub fn new(seed: u64, difficulty: Difficulty) -> (m: Model)
        ensures
            fresh(m, difficulty),
            m.records.best@ == seq![0u64, 0, 0, 0] && m.records.solved == 0,
            (m.values@, m.solution@, m.rng.0) == puzzle_from(seed | 1, clues_spec(difficulty), 0),
    {
        let mut solution = zeros_u8();
        let mut i: usize = 0;
        while i < CELLS
            invariant
                i <= 81,
                solution@.len() == 81,
                forall|k: int| 0 <= k < 81 ==> #[trigger] solution@[k] == if k < i { CANONICAL@[k] } else { 0 },
            decreases 81 - i,
        {
            solution.set(i, CANONICAL[i]);
            i += 1;
        }
        proof {
            assert(solution@ =~= CANONICAL@);
            lemma_canonical();
        }
        let mut m = Model {
            values: zeros_u8(),
            original: all_false(),
            solution,
            notes: zeros_u16(),
            provisional: all_false(),
            given_up_fill: all_false(),
            selected: None,
            notes_mode: false,
            paused: false,
            checkpoint_active: false,
            checkpoint_values: zeros_u8(),
            checkpoint_notes: zeros_u16(),
            checkpoint_cursor: 0,
            difficulty,
            hints_remaining: 0,
            elapsed_secs: 0,
            complete: false,
            given_up: false,
            new_best: false,
            history: Vec::new(),
            cursor: 0,
            records: Records::default(),
            rng: Rng(seed | 1),
        };
        m.new_game(difficulty);
        m
    }

    /// Start a fresh puzzle at `difficulty`, keeping the records.
    pub fn new_game(&mut self, difficulty: Difficulty)
        requires
            old(self).wf(),
        ensures
            fresh(*final(self), difficulty),
            final(self).records == old(self).records,
            (final(self).values@, final(self).solution@, final(self).rng.0)
                == puzzle_from(old(self).rng.0, clues_spec(difficulty), 0),
    {
        self.difficulty = difficulty;
        let (puzzle, solution) = generate_puzzle(&mut self.rng, difficulty);
        self.solution = solution;
        self.values = puzzle;
        let mut original: Vec<bool> = Vec::new();
        let mut i: usize = 0;
        while i < CELLS
            invariant
                i <= 81,
                self.values@.len() == 81,
                original@.len() == i,
                forall|k: int| 0 <= k < i ==> #[trigger] original@[k] == (self.values@[k] != 0),
            decreases 81 - i,
        {
            original.push(self.values[i] != 0);
            i += 1;
        }
        self.original = original;
        self.notes = zeros_u16();
        self.provisional = all_false();
        self.given_up_fill = all_false();
        self.selected = None;
        self.notes_mode = false;
        self.paused = false;
        self.checkpoint_active = false;
        self.checkpoint_values = zeros_u8();
        self.checkpoint_notes = zeros_u16();
        self.checkpoint_cursor = 0;
        self.hints_remaining = match difficulty.hints() {
            Some(h) => h,
            None => -1,
        };
        self.elapsed_secs = 0;
        self.complete = false;
        self.given_up = false;
        self.new_best = false;
        self.history.clear();
        self.cursor = 0;
    }
}

/// After an edit (a digit, a note, an erase or a hint), the history's last entry names the
/// edited cell, undoing it brings the board back to what it was, and redoing it from there
/// brings the edit back.
pub proof fn law_undo_takes_back_an_edit(b: Model, a: Model, i: int)
    requires
        recorded(b, a, i),
    ensures
        a.cursor > 0,
        a.history@[a.cursor - 1].i == i,
        undone(a.values@, a.notes@, a.provisional@, a.history@[a.cursor - 1]) == (b.values@, b.notes@, b.provisional@),
        redone(b.values@, b.notes@, b.provisional@, a.history@[a.cursor - 1]) == (a.values@, a.notes@, a.provisional@),
{
}

/// A game whose clues agree with its solution and whose cursor lies within its history,
/// written to a snapshot as `save_state` writes it, is a snapshot `apply_save` takes.
pub proof fn law_a_saved_game_is_taken_back(m: Model, s: SaveState)
    requires
        m.wf(),
        m.cursor <= m.history@.len(),
        forall|i: int| 0 <= i < 81 ==> #[trigger] m.original@[i] ==> m.values@[i] == m.solution@[i],
        s.values@ == m.values@ && s.original@ == m.original@ && s.solution@ == m.solution@,
        s.notes@ == m.notes@ && s.provisional@ == m.provisional@ && s.given_up_fill@ == m.given_up_fill@,
        s.checkpoint_values@ == m.checkpoint_values@ && s.checkpoint_notes@ == m.checkpoint_notes@,
        s.history@.len() == m.history@.len(),
        forall|k: int| 0 <= k < m.history@.len() ==> same_edit(#[trigger] s.history@[k], m.history@[k]),
        s.cursor == m.cursor,
    ensures
        save_ok(s),
{
    assert forall|k: int| 0 <= k < s.history@.len() implies edit_fits(#[trigger] s.history@[k]) by {
        assert(same_edit(s.history@[k], m.history@[k]));
        assert(edit_fits(m.history@[k]));
    }
}

} // verus!
