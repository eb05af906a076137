//! Match three: a 7x7 board of candies with holes, swaps that must line up three, specials
//! from longer and crossing lines, frosting to break, cascading chains, a seeded dealer that
//! never deals a finished line, and the per-level stars of the save.
use vstd::prelude::*;
use crate::tally::{count_false, lemma_count_false_update, lemma_count_false_bounds};
use crate::xorshift::{xorshift, xorshift_next};

verus! {

/// The board is `N` x `N` cells.
pub const N: usize = 7;
pub const LEN: usize = 49;
/// The authored stages.
pub const LEVELS: usize = 6;

#[derive(Clone, Copy, Debug, PartialEq, Eq, Structural)]
pub enum Special {
    Plain,
    Row,
    Column,
    Wrapped,
    Rainbow,
}

#[derive(Clone, Copy, Debug, PartialEq, Eq, Structural)]
pub struct Candy {
    pub color: u8,
    pub special: Special,
}

impl Candy {
    pub fn plain(color: u8) -> (c: Self)
        ensures
            c.color == color,
            c.special == Special::Plain,
    {
        Candy { color, special: Special::Plain }
    }
}

/// One authored stage: its name and goal text keys, the moves it allows, the score to reach,
/// the red candies to collect, and how many colors it deals.
#[derive(Clone, Copy)]
pub struct Level {
    pub name: &'static str,
    pub detail: &'static str,
    pub moves: u32,
    pub target: u32,
    pub collect: u32,
    pub colors: u8,
}

pub open spec fn stage_spec(level: int) -> Level {
    if level == 0 {
        Level { name: "mt_classic", detail: "mt_goal_score", moves: 22, target: 1200, collect: 0, colors: 5 }
    } else if level == 1 {
        Level { name: "mt_corners", detail: "mt_goal_collect", moves: 26, target: 1600, collect: 18, colors: 5 }
    } else if level == 2 {
        Level { name: "mt_bridges", detail: "mt_goal_frost", moves: 28, target: 1600, collect: 0, colors: 5 }
    } else if level == 3 {
        Level { name: "mt_diamond", detail: "mt_goal_collect", moves: 28, target: 2200, collect: 24, colors: 6 }
    } else if level == 4 {
        Level { name: "mt_windows", detail: "mt_goal_frost", moves: 32, target: 2600, collect: 0, colors: 5 }
    } else {
        Level { name: "mt_mixed", detail: "mt_goal_final", moves: 34, target: 3200, collect: 28, colors: 6 }
    }
}

/// The stage table.
pub fn stage(level: usize) -> (l: Level)
    requires
        level < LEVELS,
    ensures
        l == stage_spec(level as int),
{
    if level == 0 {
        Level { name: "mt_classic", detail: "mt_goal_score", moves: 22, target: 1200, collect: 0, colors: 5 }
    } else if level == 1 {
        Level { name: "mt_corners", detail: "mt_goal_collect", moves: 26, target: 1600, collect: 18, colors: 5 }
    } else if level == 2 {
        Level { name: "mt_bridges", detail: "mt_goal_frost", moves: 28, target: 1600, collect: 0, colors: 5 }
    } else if level == 3 {
        Level { name: "mt_diamond", detail: "mt_goal_collect", moves: 28, target: 2200, collect: 24, colors: 6 }
    } else if level == 4 {
        Level { name: "mt_windows", detail: "mt_goal_frost", moves: 32, target: 2600, collect: 0, colors: 5 }
    } else {
        Level { name: "mt_mixed", detail: "mt_goal_final", moves: 34, target: 3200, collect: 28, colors: 6 }
    }
}

/// `|a - b|`.
pub open spec fn dist(a: int, b: int) -> int {
    if a >= b { a - b } else { b - a }
}

/// Whether cell `i` is part of the board of `level` (the others are holes).
pub open spec fn active_spec(level: int, i: int) -> bool {
    let r = i / 7;
    let c = i % 7;
    if level == 1 {
        !((r == 0 || r == 6) && (c == 0 || c == 6))
    } else if level == 2 {
        !(r == 3 && (c == 2 || c == 4))
    } else if level == 3 {
        dist(r, 3) + dist(c, 3) <= 4
    } else if level == 4 {
        !((r == 2 || r == 4) && (c == 2 || c == 4))
    } else if level == 5 {
        !((r == 0 || r == 6) && (c == 0 || c == 6)) && !(r == 3 && c == 3)
    } else {
        true
    }
}

fn abs_diff(a: usize, b: usize) -> (d: usize)
    ensures
        d == dist(a as int, b as int),
{
    if a >= b { a - b } else { b - a }
}

pub fn active(level: usize, i: usize) -> (b: bool)
    ensures
        b == active_spec(level as int, i as int),
{
    let r = i / N;
    let c = i % N;
    if level == 1 {
        !((r == 0 || r == 6) && (c == 0 || c == 6))
    } else if level == 2 {
        !(r == 3 && (c == 2 || c == 4))
    } else if level == 3 {
        let dr = abs_diff(r, 3);
        let dc = abs_diff(c, 3);
        proof {
            assert(i / 7 < 0x1_0000_0000_0000_0000);
        }
        dr <= 4 && dc <= 4 && dr + dc <= 4
    } else if level == 4 {
        !((r == 2 || r == 4) && (c == 2 || c == 4))
    } else if level == 5 {
        !((r == 0 || r == 6) && (c == 0 || c == 6)) && !(r == 3 && c == 3)
    } else {
        true
    }
}

/// The frosting a fresh board of `level` starts with on cell `i`.
pub open spec fn frost_spec(level: int, i: int) -> u8 {
    let r = i / 7;
    let c = i % 7;
    if active_spec(level, i) && (level == 2 || level == 4 || level == 5) && (if level == 4 {
        r % 2 == 1 && c % 2 == 1
    } else {
        (r + c) % 2 == 0
    }) {
        if level == 4 { 2 } else { 1 }
    } else {
        0
    }
}

/// The sum of the first `k` entries.
pub open spec fn frost_total(s: Seq<u8>) -> int
    decreases s.len(),
{
    if s.len() == 0 { 0 } else { frost_total(s.drop_last()) + s.last() }
}

proof fn lemma_frost_total_bounds(s: Seq<u8>)
    ensures
        0 <= frost_total(s) <= 255 * s.len(),
    decreases s.len(),
{
    if s.len() > 0 {
        lemma_frost_total_bounds(s.drop_last());
    }
}

/// A prefix holds no more frosting than the whole.
proof fn lemma_frost_total_prefix(s: Seq<u8>, k: int)
    requires
        0 <= k <= s.len(),
    ensures
        frost_total(s.take(k)) <= frost_total(s),
    decreases s.len() - k,
{
    if k < s.len() {
        lemma_frost_total_prefix(s, k + 1);
        assert(s.take(k + 1).drop_last() =~= s.take(k));
    }
    assert(s.take(s.len() as int) =~= s);
}

/// No frosting is left exactly when every cell is thawed.
proof fn lemma_frost_total_zero(s: Seq<u8>)
    ensures
        (frost_total(s) == 0) == (forall|k: int| 0 <= k < s.len() ==> #[trigger] s[k] == 0),
    decreases s.len(),
{
    if s.len() > 0 {
        lemma_frost_total_zero(s.drop_last());
        lemma_frost_total_bounds(s.drop_last());
        if frost_total(s) == 0 {
            assert forall|k: int| 0 <= k < s.len() implies #[trigger] s[k] == 0 by {
                if k < s.len() - 1 {
                    assert(s.drop_last()[k] == s[k]);
                }
            }
        } else {
            if s.last() == 0 {
                let k = choose|k: int| 0 <= k < s.len() - 1 && #[trigger] s.drop_last()[k] != 0;
                assert(s[k] != 0);
            }
        }
    }
}

/// The candy whose kind a rainbow swapped with `a` and `b` spreads: the one that is not the
/// rainbow (the one at `b` when both are).
pub open spec fn combo_other(g: Seq<Option<Candy>>, a: int, b: int) -> Candy {
    if g[a]->0.special == Special::Rainbow { g[b]->0 } else { g[a]->0 }
}

/// A rainbow takes part in the swap.
pub open spec fn has_rainbow(g: Seq<Option<Candy>>, a: int, b: int) -> bool {
    g[a]->0.special == Special::Rainbow || g[b]->0.special == Special::Rainbow
}

/// How many rows and columns out from `b` a swap of two specials without a rainbow reaches.
pub open spec fn combo_radius(g: Seq<Option<Candy>>, a: int, b: int) -> int {
    if g[a]->0.special == Special::Wrapped || g[b]->0.special == Special::Wrapped { 1 } else { 0 }
}

/// A rainbow whose partner is `other` sets off cell `i`: a candy of `other`'s color, or any
/// candy when `other` is a rainbow too.
pub open spec fn pick(g: Seq<Option<Candy>>, other: Candy, i: int) -> bool {
    g[i] is Some && (g[i]->0.color == other.color || other.special == Special::Rainbow)
}

/// The cells below `n` that a rainbow with partner `other` sets off, in order.
pub open spec fn picked(g: Seq<Option<Candy>>, other: Candy, n: int) -> Seq<usize>
    decreases n,
{
    if n <= 0 {
        Seq::empty()
    } else {
        picked(g, other, n - 1) + (if pick(g, other, n - 1) { seq![(n - 1) as usize] } else { Seq::empty() })
    }
}

/// The cells below `n` within `radius` rows or columns of `b`, in order.
pub open spec fn near(b: int, radius: int, n: int) -> Seq<usize>
    decreases n,
{
    if n <= 0 {
        Seq::empty()
    } else {
        near(b, radius, n - 1) + (if dist((n - 1) / N as int, b / N as int) <= radius || dist((n - 1) % N as int, b % N as int) <= radius {
            seq![(n - 1) as usize]
        } else {
            Seq::empty()
        })
    }
}

/// Cell `i` once a rainbow has turned the candies it sets off into the kind of `other`.
pub open spec fn turned(g: Seq<Option<Candy>>, other: Candy, i: int) -> Option<Candy> {
    if pick(g, other, i) { Some(Candy { color: g[i]->0.color, special: other.special }) } else { g[i] }
}

/// The cells a swap of two specials at `a` and `b` sets off at once, in order: the two swapped
/// cells, then every cell a rainbow picks, or every cell within reach of `b`'s row or column.
pub open spec fn combo_forced(g: Seq<Option<Candy>>, a: int, b: int) -> Seq<usize> {
    seq![a as usize, b as usize] + if has_rainbow(g, a, b) {
        picked(g, combo_other(g, a, b), LEN as int)
    } else {
        near(b, combo_radius(g, a, b), LEN as int)
    }
}

/// The board once the swap of two specials at `a` and `b` is set off: a rainbow with a striped
/// or wrapped partner turns every candy it picks into that kind; any other combination leaves
/// the board as it is.
pub open spec fn combo_grid(g: Seq<Option<Candy>>, a: int, b: int) -> Seq<Option<Candy>> {
    let other = combo_other(g, a, b);
    if has_rainbow(g, a, b) && other.special != Special::Plain && other.special != Special::Rainbow {
        Seq::new(g.len(), |i: int| turned(g, other, i))
    } else {
        g
    }
}

/// Every cell `h` marks is marked in `s` too.
pub open spec fn covers(h: Seq<bool>, s: Seq<bool>) -> bool {
    forall|k: int| 0 <= k < LEN && #[trigger] h[k] ==> s[k]
}

/// Each special on a marked cell of `g` marks everything its blast reaches.
pub open spec fn blast_closed(g: Seq<Option<Candy>>, s: Seq<bool>) -> bool {
    forall|i: int, j: int| 0 <= i < LEN && 0 <= j < LEN && #[trigger] s[i] && g[i] is Some && blast(g, g[i]->0, i, j)
        ==> #[trigger] s[j]
}

/// `h` is what the cells of `start` set off on `g`: they and every cell the specials among
/// them reach, chain on chain, and nothing more (the least marking that holds `start` and
/// that every blast keeps).
pub open spec fn sets_off(g: Seq<Option<Candy>>, start: Seq<bool>, h: Seq<bool>) -> bool {
    &&& h.len() == LEN
    &&& covers(start, h)
    &&& blast_closed(g, h)
    &&& forall|s: Seq<bool>| s.len() == LEN && #[trigger] blast_closed(g, s) && covers(start, s) ==> covers(h, s)
}

/// Cells marked where `cells` holds them.
pub open spec fn marks(cells: Seq<usize>) -> Seq<bool> {
    Seq::new(LEN as nat, |i: int| cells.contains(i as usize))
}

/// The board a counted swap of `a` and `b` on `g` bursts first: the two candies exchanged and,
/// for a special combination, what the combination turns.
pub open spec fn swap_board(g: Seq<Option<Candy>>, a: int, b: int) -> Seq<Option<Candy>> {
    if combo_spec(g, a, b) { combo_grid(swapped(g, a, b), a, b) } else { swapped(g, a, b) }
}

/// The cells a swap of `a` and `b` on `g` forces at once: a special combination's, else none.
pub open spec fn swap_forced(g: Seq<Option<Candy>>, a: int, b: int) -> Seq<usize> {
    if combo_spec(g, a, b) { combo_forced(swapped(g, a, b), a, b) } else { Seq::empty() }
}

/// Frame `f` is the first burst of a counted swap of `a` and `b` on `g`: the cells the swap
/// forces, with cells holding candies that line up, set off everything they reach on the
/// swapped board; the frame clears those of them that hold candies, sixty points each.
pub open spec fn first_burst(g: Seq<Option<Candy>>, a: int, b: int, f: Frame) -> bool {
    let board = swap_board(g, a, b);
    let forced = marks(swap_forced(g, a, b));
    &&& f.phase == Phase::Burst
    &&& f.chain == 1
    &&& f.points == f.cleared@.len() * 60
    &&& exists|start: Seq<bool>, h: Seq<bool>| #![trigger sets_off(board, start, h)]
        start.len() == LEN && covers(forced, start)
        && (forall|i: int| 0 <= i < LEN && #[trigger] start[i] ==> forced[i] || matchable(board[i]))
        && sets_off(board, start, h) && f.cleared@ == burst_cells(board, h, LEN as int)
}

/// A level is won only with every goal of its stage met: the target score, the red candies to
/// collect, and no frosting left on any cell. So short of the collection goal a game is not won
/// and earns no star, and any star means a won level.
pub proof fn law_a_win_meets_every_goal(g: Game)
    ensures
        g.won_spec() ==> g.score >= stage_spec(g.level as int).target && g.collected >= stage_spec(g.level as int).collect
            && forall|i: int| 0 <= i < g.frost@.len() ==> #[trigger] g.frost@[i] == 0,
        g.collected < stage_spec(g.level as int).collect ==> !g.won_spec() && g.stars_spec() == 0,
        g.score < stage_spec(g.level as int).target ==> !g.won_spec() && g.stars_spec() == 0,
        g.stars_spec() > 0 ==> g.won_spec(),
        g.won_spec() ==> g.stars_spec() == (if g.moves >= 10 { 3u8 } else if g.moves >= 5 { 2u8 } else { 1u8 }),
{
    lemma_frost_total_zero(g.frost@);
}

/// The same cells, `a` and `b` exchanged.
pub open spec fn swapped<T>(s: Seq<T>, a: int, b: int) -> Seq<T> {
    s.update(a, s[b]).update(b, s[a])
}

/// Cells `a` and `b` lie side by side or one above the other, both on the board.
pub open spec fn adjacent_spec(a: int, b: int) -> bool {
    ||| (0 <= a < 49 && 0 <= b < 49 && a / 7 == b / 7 && dist(a, b) == 1)
    ||| (0 <= a < 49 && 0 <= b < 49 && dist(a, b) == 7)
}

/// Swapping `a` and `b` sets off their specials directly: a rainbow with anything, or two
/// specials together.
pub open spec fn combo_spec(grid: Seq<Option<Candy>>, a: int, b: int) -> bool {
    &&& grid[a] is Some
    &&& grid[b] is Some
    &&& {
        let x = grid[a]->0;
        let y = grid[b]->0;
        x.special == Special::Rainbow || y.special == Special::Rainbow || (x.special
            != Special::Plain && y.special != Special::Plain)
    }
}

/// A candy that lines up with others: present and not a rainbow.
pub open spec fn matchable(c: Option<Candy>) -> bool {
    c is Some && c->0.special != Special::Rainbow
}

/// Cells `i` and `j` both line up, in one color.
pub open spec fn same_line(grid: Seq<Option<Candy>>, i: int, j: int) -> bool {
    matchable(grid[i]) && matchable(grid[j]) && grid[i]->0.color == grid[j]->0.color
}

/// Cell `p` of row `lane` (or of column `lane`, when `vertical`).
pub open spec fn lane_cell(vertical: bool, lane: int, p: int) -> int {
    if vertical { p * 7 + lane } else { lane * 7 + p }
}

/// Three cells in a line starting at position `q` of a row or column match.
pub open spec fn triple(grid: Seq<Option<Candy>>, vertical: bool, lane: int, q: int) -> bool {
    &&& 0 <= lane < 7
    &&& 0 <= q
    &&& q + 2 < 7
    &&& same_line(grid, lane_cell(vertical, lane, q), lane_cell(vertical, lane, q + 1))
    &&& same_line(grid, lane_cell(vertical, lane, q), lane_cell(vertical, lane, q + 2))
}

/// Some row or column holds three matching candies in a line.
pub open spec fn has_line(grid: Seq<Option<Candy>>) -> bool {
    exists|vertical: bool, lane: int, q: int| #[trigger] triple(grid, vertical, lane, q)
}

/// A matched line as the engine reports it: at least three cells, each on the board and
/// holding a candy that lines up.
pub open spec fn run_ok(grid: Seq<Option<Candy>>, r: Seq<usize>) -> bool {
    &&& r.len() >= 3
    &&& forall|k: int| 0 <= k < r.len() ==> #[trigger] r[k] < 49 && matchable(grid[r[k] as int])
}


/// Index of cell `p` of row `lane` (column `lane` when `vertical`).
fn cell_at(vertical: bool, lane: usize, p: usize) -> (i: usize)
    requires
        lane < N,
        p < N,
    ensures
        i == lane_cell(vertical, lane as int, p as int),
        i < LEN,
{
    if vertical { p * N + lane } else { lane * N + p }
}

/// Cell `j` lines up with a run of `color`.
fn extends(grid: &Vec<Option<Candy>>, j: usize, color: u8) -> (b: bool)
    requires
        j < grid@.len(),
    ensures
        b == (matchable(grid@[j as int]) && grid@[j as int]->0.color == color),
{
    match grid[j] {
        Some(x) => x.color == color && x.special != Special::Rainbow,
        None => false,
    }
}

/// The maximal lines of three or more matching candies, rows first and then columns, each
/// row left to right and each column top to bottom.
pub fn runs_of(grid: &Vec<Option<Candy>>) -> (runs: Vec<Vec<usize>>)
    requires
        grid@.len() == LEN,
    ensures
        runs@.len() == 0 <==> !has_line(grid@),
        forall|k: int| 0 <= k < runs@.len() ==> run_ok(grid@, #[trigger] runs@[k]@),
{
    let mut runs: Vec<Vec<usize>> = Vec::new();
    let mut v: usize = 0;
    while v < 2
        invariant
            v <= 2,
            grid@.len() == LEN,
            forall|k: int| 0 <= k < runs@.len() ==> run_ok(grid@, #[trigger] runs@[k]@),
            runs@.len() > 0 ==> has_line(grid@),
            runs@.len() == 0 ==> forall|vb: bool, l: int, q: int|
                (if vb { 1int } else { 0int }) < v ==> !#[trigger] triple(grid@, vb, l, q),
        decreases 2 - v,
    {
        let vertical = v == 1;
        let mut lane: usize = 0;
        while lane < N
            invariant
                v < 2,
                vertical == (v == 1),
                lane <= N,
                grid@.len() == LEN,
                forall|k: int| 0 <= k < runs@.len() ==> run_ok(grid@, #[trigger] runs@[k]@),
                runs@.len() > 0 ==> has_line(grid@),
                runs@.len() == 0 ==> forall|vb: bool, l: int, q: int|
                    ((if vb { 1int } else { 0int }) < v || ((if vb { 1int } else { 0int }) == v
                        && l < lane)) ==> !#[trigger] triple(grid@, vb, l, q),
            decreases N - lane,
        {
            let mut p: usize = 0;
            while p < N
                invariant
                    v < 2,
                    vertical == (v == 1),
                    lane < N,
                    p <= N,
                    grid@.len() == LEN,
                    forall|k: int| 0 <= k < runs@.len() ==> run_ok(grid@, #[trigger] runs@[k]@),
                    runs@.len() > 0 ==> has_line(grid@),
                    runs@.len() == 0 ==> forall|vb: bool, l: int, q: int|
                        ((if vb { 1int } else { 0int }) < v || ((if vb { 1int } else { 0int })
                            == v && l < lane)) ==> !#[trigger] triple(grid@, vb, l, q),
                    runs@.len() == 0 ==> forall|q: int| q < p ==> !#[trigger] triple(grid@, vertical, lane as int, q),
                decreases N - p,
            {
                let i = cell_at(vertical, lane, p);
                let c = grid[i];
                if c.is_none() || c.unwrap().special == Special::Rainbow {
                    p += 1;
                    continue;
                }
                let color = c.unwrap().color;
                let start = p;
                let mut run = vec![i];
                p += 1;
                while p < N && extends(grid, cell_at(vertical, lane, p), color)
                    invariant
                        lane < N,
                        start < p <= N,
                        grid@.len() == LEN,
                        matchable(grid@[lane_cell(vertical, lane as int, start as int)]),
                        grid@[lane_cell(vertical, lane as int, start as int)]->0.color == color,
                        run@.len() == p - start,
                        forall|k: int| 0 <= k < run@.len() ==> #[trigger] run@[k] == lane_cell(vertical, lane as int, start + k),
                        forall|q: int| start <= q < p ==> #[trigger] matchable(grid@[lane_cell(vertical, lane as int, q)])
                            && grid@[lane_cell(vertical, lane as int, q)]->0.color == color,
                    decreases N - p,
                {
                    let j = cell_at(vertical, lane, p);
                    assert(matchable(grid@[lane_cell(vertical, lane as int, p as int)])
                        && grid@[lane_cell(vertical, lane as int, p as int)]->0.color == color);
                    let ghost p0 = p as int;
                    run.push(j);
                    p += 1;
                    proof {
                        assert forall|q: int| start <= q < p implies #[trigger] matchable(grid@[lane_cell(vertical, lane as int, q)])
                            && grid@[lane_cell(vertical, lane as int, q)]->0.color == color by {
                            if q < p0 {
                            } else {
                                assert(q == p0);
                            }
                        }
                    }
                }
                proof {
                    let l = lane as int;
                    assert forall|k: int| 0 <= k < run@.len() implies #[trigger] run@[k] < 49
                        && matchable(grid@[run@[k] as int]) by {
                        assert(matchable(grid@[lane_cell(vertical, l, start + k)]));
                    }
                    if run@.len() < 3 {
                        // No line starts inside this short stretch: it would need the cell
                        // that ended it.
                        assert forall|q: int| runs@.len() == 0 && q < p implies !#[trigger] triple(grid@, vertical, l, q) by {
                            if q >= start && triple(grid@, vertical, l, q) {
                                assert(matchable(grid@[lane_cell(vertical, l, q)]));
                                assert(grid@[lane_cell(vertical, l, q)]->0.color == color);
                                assert(p < 7);
                                assert(p == q + 1 || p == q + 2);
                                if p == q + 1 {
                                    assert(same_line(grid@, lane_cell(vertical, l, q), lane_cell(vertical, l, q + 1)));
                                } else {
                                    assert(same_line(grid@, lane_cell(vertical, l, q), lane_cell(vertical, l, q + 2)));
                                }
                                assert(matchable(grid@[lane_cell(vertical, l, q)]));
                            }
                        }
                    } else {
                        assert(p - start >= 3);
                        assert(matchable(grid@[lane_cell(vertical, l, start + 1)]));
                        assert(grid@[lane_cell(vertical, l, start + 1)]->0.color == color);
                        assert(same_line(grid@, lane_cell(vertical, l, start as int), lane_cell(vertical, l, start + 1)));
                        assert(matchable(grid@[lane_cell(vertical, l, start + 2)]));
                        assert(grid@[lane_cell(vertical, l, start + 2)]->0.color == color);
                        assert(same_line(grid@, lane_cell(vertical, l, start as int), lane_cell(vertical, l, start + 2)));
                        assert(triple(grid@, vertical, l, start as int));
                    }
                }
                if run.len() >= 3 {
                    let ghost before = runs@;
                    runs.push(run);
                    proof {
                        assert forall|k: int| 0 <= k < runs@.len() implies run_ok(grid@, #[trigger] runs@[k]@) by {
                            if k < runs@.len() - 1 {
                                assert(runs@[k] == before[k]);
                            }
                        }
                    }
                }
            }
            lane += 1;
        }
        v += 1;
    }
    runs
}


/// The pairs the hint search tries, in its order: each cell with its right neighbor, then
/// with the one below.
pub open spec fn is_candidate(a: int, b: int) -> bool {
    0 <= a < 49 && (b == a + 1 || b == a + 7)
}

pub open spec fn pair_key(a: int, b: int) -> int {
    2 * a + if b == a + 7 { 1int } else { 0int }
}

/// Swapping `a` and `b` is a move that counts: both hold candies, they are neighbors, and
/// either their specials combine or the swap lines up three.
pub open spec fn move_at(grid: Seq<Option<Candy>>, a: int, b: int) -> bool {
    &&& adjacent_spec(a, b)
    &&& grid[a] is Some
    &&& grid[b] is Some
    &&& (combo_spec(grid, a, b) || has_line(swapped(grid, a, b)))
}

/// Some move is available.
pub open spec fn has_move(grid: Seq<Option<Candy>>) -> bool {
    exists|a: int, b: int| is_candidate(a, b) && #[trigger] move_at(grid, a, b)
}

/// Cell `j` holds a candy of color `c`.
pub open spec fn color_is(grid: Seq<Option<Candy>>, j: int, c: u8) -> bool {
    grid[j] is Some && grid[j]->0.color == c
}

/// Dealing color `c` into cell `i` would complete a line with the two cells to its left or
/// the two above it.
pub open spec fn forbidden(grid: Seq<Option<Candy>>, i: int, c: u8) -> bool {
    ||| (i % 7 >= 2 && color_is(grid, i - 1, c) && color_is(grid, i - 2, c))
    ||| (i >= 14 && color_is(grid, i - 7, c) && color_is(grid, i - 14, c))
}

/// The board of `level`: a candy of fewer than `colors` colors on every active cell and
/// nothing on the holes.
pub open spec fn dealt(grid: Seq<Option<Candy>>, level: int, colors: u8) -> bool {
    &&& grid.len() == 49
    &&& forall|i: int| 0 <= i < 49 ==> (#[trigger] grid[i] is Some <==> active_spec(level, i))
    &&& forall|i: int| 0 <= i < 49 && grid[i] is Some ==> #[trigger] grid[i]->0.color < colors
}

/// Filling cell `i`, the first empty one, with a color that completes no line leaves the
/// board without lines.
proof fn lemma_place_keeps_no_line(grid: Seq<Option<Candy>>, i: int, c: Candy)
    requires
        grid.len() == 49,
        0 <= i < 49,
        !has_line(grid),
        forall|j: int| i <= j < 49 ==> #[trigger] grid[j] is None,
        !forbidden(grid, i, c.color),
    ensures
        !has_line(grid.update(i, Some(c))),
{
    let g2 = grid.update(i, Some(c));
    if has_line(g2) {
        let (v, lane, q) = choose|v: bool, lane: int, q: int| #[trigger] triple(g2, v, lane, q);
        let x0 = lane_cell(v, lane, q);
        let x1 = lane_cell(v, lane, q + 1);
        let x2 = lane_cell(v, lane, q + 2);
        assert(x0 < x1 < x2 < 49);
        if x0 != i && x1 != i && x2 != i {
            assert(triple(grid, v, lane, q));
        } else if x0 == i || x1 == i {
            assert(grid[x2] is None);
        } else {
            if v {
                assert(x1 == i - 7 && x0 == i - 14);
            } else {
                assert(i % 7 == q + 2);
                assert(x1 == i - 1 && x0 == i - 2);
            }
            assert(forbidden(grid, i, c.color));
        }
    }
}

/// The xorshift step never reaches zero from a nonzero state.
proof fn lemma_xorshift_nonzero(x: u64)
    requires
        x != 0,
    ensures
        xorshift(x) != 0,
{
    let a = x ^ (x << 13u64);
    assert(a != 0) by (bit_vector)
        requires a == x ^ (x << 13u64), x != 0;
    let b = a ^ (a >> 7u64);
    assert(b != 0) by (bit_vector)
        requires b == a ^ (a >> 7u64), a != 0;
    let r = b ^ (b << 17u64);
    assert(r != 0) by (bit_vector)
        requires r == b ^ (b << 17u64), b != 0;
}


/// Cell `i` of a saved board: a candy of the stage's colors exactly where the stage has a
/// cell, and frosting of at most two, only on cells of the stage.
pub open spec fn cell_valid(grid: Seq<Option<Candy>>, frost: Seq<u8>, level: int, i: int) -> bool {
    &&& (grid[i] is Some <==> active_spec(level, i))
    &&& (grid[i] is Some ==> grid[i]->0.color < stage_spec(level).colors)
    &&& frost[i] <= 2
    &&& (active_spec(level, i) || frost[i] == 0)
}


/// A candy moved from `from` down to `to` without leaving its gravity well: the same column,
/// never upward, and every cell on the way part of the board.
pub open spec fn well_path(level: int, from: int, to: int) -> bool {
    &&& from % 7 == to % 7
    &&& from <= to
    &&& forall|i: int| from <= i <= to && i % 7 == from % 7 ==> #[trigger] active_spec(level, i)
}

/// What cell `i` holds after the candies fell: a candy that was on the board before, or a
/// new plain one of the stage's colors.
pub open spec fn refilled(before: Seq<Option<Candy>>, c: Option<Candy>, colors: u8) -> bool {
    ||| (c is Some && c->0.special == Special::Plain && c->0.color < colors)
    ||| (c is Some && exists|j: int| 0 <= j < 49 && #[trigger] before[j] == c)
}


/// Candies sit only on cells of the stage, in the stage's colors.
pub open spec fn sound(grid: Seq<Option<Candy>>, level: int, colors: u8) -> bool {
    &&& grid.len() == 49
    &&& forall|i: int| 0 <= i < 49 && !active_spec(level, i) ==> #[trigger] grid[i] is None
    &&& forall|i: int| 0 <= i < 49 && #[trigger] grid[i] is Some ==> grid[i]->0.color < colors
}

/// Cells of a line group: on the board, each holding a candy that lines up.
pub open spec fn cells_ok(grid: Seq<Option<Candy>>, g: Seq<usize>) -> bool {
    forall|k: int| 0 <= k < g.len() ==> #[trigger] g[k] < 49 && matchable(grid[g[k] as int])
}

/// The most a swap can score: a full board cleared at the top multiplier on each of the 64
/// chain steps.
pub const MAX_TURN_POINTS: u32 = 940800;
/// The most red candies a swap can collect.
pub const MAX_TURN_COLLECT: u32 = 3136;

/// The cells `hit` clears among the first `n`: those holding a candy, in order.
pub open spec fn burst_cells(grid: Seq<Option<Candy>>, hit: Seq<bool>, n: int) -> Seq<usize>
    decreases n,
{
    if n <= 0 {
        Seq::empty()
    } else {
        burst_cells(grid, hit, n - 1) + if hit[n - 1] && grid[n - 1] is Some { seq![(n - 1) as usize] } else { Seq::empty() }
    }
}

/// The red candies `hit` clears among the first `n` cells.
pub open spec fn burst_red(grid: Seq<Option<Candy>>, hit: Seq<bool>, n: int) -> int
    decreases n,
{
    if n <= 0 {
        0
    } else {
        burst_red(grid, hit, n - 1) + if hit[n - 1] && grid[n - 1] is Some && grid[n - 1]->0.color == 0 { 1int } else { 0 }
    }
}

/// Over the first `t` lines, those that meet `group`: how many, the last of the longest, and
/// whether there was one.
pub open spec fn tally_lines(runs: Seq<Vec<usize>>, group: Seq<usize>, t: int) -> (int, int, bool)
    decreases t,
{
    if t <= 0 {
        (0, 0, false)
    } else {
        let (c, b, f) = tally_lines(runs, group, t - 1);
        if exists|k: int| 0 <= k < runs[t - 1]@.len() && group.contains(#[trigger] runs[t - 1]@[k]) {
            (c + 1, if !f || runs[t - 1]@.len() >= runs[b]@.len() { t - 1 } else { b }, true)
        } else {
            (c, b, f)
        }
    }
}

/// The special a group of lines makes: a rainbow when its longest line has five or more, a
/// wrapped candy when lines cross, a stripe along a line of four, else none.
pub open spec fn special_spec(runs: Seq<Vec<usize>>, group: Seq<usize>) -> Option<Special> {
    let (c, b, f) = tally_lines(runs, group, runs.len() as int);
    let l = runs[b]@;
    if l.len() >= 5 {
        Some(Special::Rainbow)
    } else if c > 1 {
        Some(Special::Wrapped)
    } else if l.len() == 4 {
        if l[0] / 7 == l[1] / 7 { Some(Special::Row) } else { Some(Special::Column) }
    } else {
        None
    }
}

/// Some group holds cell `x`.
pub open spec fn covered(groups: Seq<Vec<usize>>, x: usize) -> bool {
    exists|g: int| 0 <= g < groups.len() && #[trigger] groups[g]@.contains(x)
}

/// Cell `x` is a cell of one of the lines.
pub open spec fn from_lines(runs: Seq<Vec<usize>>, x: usize) -> bool {
    exists|t: int| 0 <= t < runs.len() && #[trigger] runs[t]@.contains(x)
}

/// No two groups share a cell.
pub open spec fn apart(groups: Seq<Vec<usize>>) -> bool {
    forall|g1: int, g2: int, a: int| 0 <= g1 < groups.len() && 0 <= g2 < groups.len() && g1 != g2
        && 0 <= a < groups[g1]@.len() ==> !#[trigger] groups[g2]@.contains(groups[g1]@[a])
}

/// Every cell of `run` is in `g`.
pub open spec fn holds_run(g: Seq<usize>, run: Seq<usize>) -> bool {
    forall|k: int| 0 <= k < run.len() ==> g.contains(#[trigger] run[k])
}

/// One group holds the whole of `run`.
pub open spec fn in_one(groups: Seq<Vec<usize>>, run: Seq<usize>) -> bool {
    exists|g: int| 0 <= g < groups.len() && #[trigger] holds_run(groups[g]@, run)
}

/// Group `g` holds the first cell of one of the lines.
pub open spec fn anchored(g: Seq<usize>, runs: Seq<Vec<usize>>) -> bool {
    exists|t: int| 0 <= t < runs.len() && #[trigger] g.contains(runs[t]@[0])
}

/// Whether `v` holds `x`.
fn holds(v: &Vec<usize>, x: usize) -> (r: bool)
    ensures
        r == v@.contains(x),
{
    let mut k: usize = 0;
    while k < v.len()
        invariant
            k <= v@.len(),
            forall|j: int| 0 <= j < k ==> v@[j] != x,
        decreases v@.len() - k,
    {
        if v[k] == x {
            return true;
        }
        k += 1;
    }
    false
}

/// Whether `u` and `v` share a cell.
fn meets(u: &Vec<usize>, v: &Vec<usize>) -> (r: bool)
    ensures
        r == exists|k: int| 0 <= k < u@.len() && v@.contains(#[trigger] u@[k]),
{
    let mut k: usize = 0;
    while k < u.len()
        invariant
            k <= u@.len(),
            forall|j: int| 0 <= j < k ==> !v@.contains(#[trigger] u@[j]),
        decreases u@.len() - k,
    {
        if holds(v, u[k]) {
            return true;
        }
        k += 1;
    }
    false
}

/// Join lines that share a cell, so a T or L shape forms one group.
fn merge_lines(Ghost(grid): Ghost<Seq<Option<Candy>>>, runs: &Vec<Vec<usize>>) -> (groups: Vec<Vec<usize>>)
    requires
        forall|k: int| 0 <= k < runs@.len() ==> run_ok(grid, #[trigger] runs@[k]@),
    ensures
        forall|k: int| 0 <= k < groups@.len() ==> cells_ok(grid, #[trigger] groups@[k]@),
        forall|k: int| 0 <= k < groups@.len() ==> anchored(#[trigger] groups@[k]@, runs@),
        forall|t: int, k: int| 0 <= t < runs@.len() && 0 <= k < runs@[t]@.len() ==> covered(groups@, #[trigger] runs@[t]@[k]),
        forall|g: int, a: int| 0 <= g < groups@.len() && 0 <= a < groups@[g]@.len() ==> from_lines(runs@, #[trigger] groups@[g]@[a]),
        apart(groups@),
        forall|t: int| 0 <= t < runs@.len() ==> in_one(groups@, #[trigger] runs@[t]@),
{
    let mut groups: Vec<Vec<usize>> = Vec::new();
    let mut t: usize = 0;
    while t < runs.len()
        invariant
            t <= runs@.len(),
            forall|k: int| 0 <= k < runs@.len() ==> run_ok(grid, #[trigger] runs@[k]@),
            forall|k: int| 0 <= k < groups@.len() ==> cells_ok(grid, #[trigger] groups@[k]@),
            forall|k: int| 0 <= k < groups@.len() ==> anchored(#[trigger] groups@[k]@, runs@),
            forall|u: int, k: int| 0 <= u < t && 0 <= k < runs@[u]@.len() ==> covered(groups@, #[trigger] runs@[u]@[k]),
            forall|g: int, a: int| 0 <= g < groups@.len() && 0 <= a < groups@[g]@.len() ==> from_lines(runs@, #[trigger] groups@[g]@[a]),
            apart(groups@),
            forall|u: int| 0 <= u < t ==> in_one(groups@, #[trigger] runs@[u]@),
        decreases runs@.len() - t,
    {
        let mut group = runs[t].clone();
        proof {
            assert(group@ =~= runs@[t as int]@);
            assert(run_ok(grid, runs@[t as int]@));
            assert(group@.contains(runs@[t as int]@[0]));
            assert forall|a: int| 0 <= a < group@.len() implies from_lines(runs@, #[trigger] group@[a]) by {
                assert(runs@[t as int]@.contains(group@[a]));
            }
        }
        let mut j: usize = 0;
        while j < groups.len()
            invariant
                t < runs@.len(),
                j <= groups@.len(),
                cells_ok(grid, group@),
                group@.contains(runs@[t as int]@[0]),
                forall|k: int| 0 <= k < groups@.len() ==> cells_ok(grid, #[trigger] groups@[k]@),
                forall|k: int| 0 <= k < groups@.len() ==> anchored(#[trigger] groups@[k]@, runs@),
                forall|k: int| 0 <= k < runs@[t as int]@.len() ==> group@.contains(#[trigger] runs@[t as int]@[k]),
                forall|u: int, k: int| 0 <= u < t && 0 <= k < runs@[u]@.len() ==> covered(groups@, #[trigger] runs@[u]@[k])
                    || group@.contains(runs@[u]@[k]),
                forall|g: int, a: int| 0 <= g < groups@.len() && 0 <= a < groups@[g]@.len() ==> from_lines(runs@, #[trigger] groups@[g]@[a]),
                forall|a: int| 0 <= a < group@.len() ==> from_lines(runs@, #[trigger] group@[a]),
                apart(groups@),
                forall|g: int, a: int| 0 <= g < j && 0 <= a < groups@[g]@.len() ==> !group@.contains(#[trigger] groups@[g]@[a]),
                forall|u: int| 0 <= u < t ==> in_one(groups@, #[trigger] runs@[u]@) || holds_run(group@, runs@[u]@),
            decreases groups@.len(), groups@.len() - j,
        {
            if meets(&groups[j], &group) {
                let ghost gs = groups@;
                let ghost g_before = group@;
                let other = groups.remove(j);
                proof {
                    assert(other@ == gs[j as int]@);
                    assert(cells_ok(grid, gs[j as int]@));
                    assert forall|k: int| 0 <= k < groups@.len() implies cells_ok(grid, #[trigger] groups@[k]@) by {
                        if k < j {
                            assert(groups@[k] == gs[k]);
                        } else {
                            assert(groups@[k] == gs[k + 1]);
                        }
                    }
                    assert forall|k: int| 0 <= k < groups@.len() implies anchored(#[trigger] groups@[k]@, runs@) by {
                        if k < j {
                            assert(groups@[k] == gs[k]);
                        } else {
                            assert(groups@[k] == gs[k + 1]);
                        }
                    }
                    assert forall|g: int, a: int| 0 <= g < groups@.len() && 0 <= a < groups@[g]@.len() implies from_lines(runs@, #[trigger] groups@[g]@[a]) by {
                        if g < j {
                            assert(groups@[g] == gs[g]);
                        } else {
                            assert(groups@[g] == gs[g + 1]);
                        }
                    }
                    assert forall|a: int| 0 <= a < other@.len() implies from_lines(runs@, #[trigger] other@[a]) by {
                        assert(other@[a] == gs[j as int]@[a]);
                    }
                    assert forall|g1: int, g2: int, a: int| 0 <= g1 < groups@.len() && 0 <= g2 < groups@.len() && g1 != g2
                        && 0 <= a < groups@[g1]@.len() implies !#[trigger] groups@[g2]@.contains(groups@[g1]@[a]) by {
                        let h1 = if g1 < j { g1 } else { g1 + 1 };
                        let h2 = if g2 < j { g2 } else { g2 + 1 };
                        assert(groups@[g1] == gs[h1] && groups@[g2] == gs[h2]);
                        assert(!gs[h2]@.contains(gs[h1]@[a]));
                    }
                    assert forall|u: int, k: int| 0 <= u < t && 0 <= k < runs@[u]@.len() implies covered(groups@, #[trigger] runs@[u]@[k])
                        || group@.contains(runs@[u]@[k]) || other@.contains(runs@[u]@[k]) by {
                        let x = runs@[u]@[k];
                        if !g_before.contains(x) {
                            assert(covered(gs, x));
                            let g = choose|g: int| 0 <= g < gs.len() && gs[g]@.contains(x);
                            if g < j {
                                assert(groups@[g] == gs[g]);
                            } else if g > j {
                                assert(groups@[g - 1] == gs[g]);
                            }
                        }
                    }
                }
                proof {
                    assert forall|u: int| 0 <= u < t implies in_one(groups@, #[trigger] runs@[u]@) || holds_run(group@, runs@[u]@)
                        || holds_run(other@, runs@[u]@) by {
                        if !holds_run(g_before, runs@[u]@) {
                            assert(in_one(gs, runs@[u]@));
                            let g = choose|g: int| 0 <= g < gs.len() && #[trigger] holds_run(gs[g]@, runs@[u]@);
                            if g < j {
                                assert(groups@[g] == gs[g]);
                            } else if g > j {
                                assert(groups@[g - 1] == gs[g]);
                            }
                        }
                    }
                }
                let mut m: usize = 0;
                while m < other.len()
                    invariant
                        forall|u: int| 0 <= u < t ==> in_one(groups@, #[trigger] runs@[u]@) || holds_run(group@, runs@[u]@)
                            || holds_run(other@, runs@[u]@),
                        m <= other@.len(),
                        t < runs@.len(),
                        cells_ok(grid, other@),
                        cells_ok(grid, group@),
                        group@.contains(runs@[t as int]@[0]),
                        forall|k: int| 0 <= k < runs@[t as int]@.len() ==> group@.contains(#[trigger] runs@[t as int]@[k]),
                        forall|a: int| 0 <= a < group@.len() ==> from_lines(runs@, #[trigger] group@[a]),
                        forall|a: int| 0 <= a < other@.len() ==> from_lines(runs@, #[trigger] other@[a]),
                        forall|a: int| 0 <= a < m ==> group@.contains(#[trigger] other@[a]),
                        forall|u: int, k: int| 0 <= u < t && 0 <= k < runs@[u]@.len() ==> covered(groups@, #[trigger] runs@[u]@[k])
                            || group@.contains(runs@[u]@[k]) || other@.contains(runs@[u]@[k]),
                    decreases other@.len() - m,
                {
                    let x = other[m];
                    let ghost g0 = group@;
                    if !holds(&group, x) {
                        group.push(x);
                        proof {
                            assert(other@[m as int] == x);
                            assert(group@[g0.len() as int] == x);
                            assert forall|k: int| 0 <= k < group@.len() implies #[trigger] group@[k] < 49
                                && matchable(grid[group@[k] as int]) by {
                                if k < g0.len() {
                                    assert(group@[k] == g0[k]);
                                }
                            }
                            assert(group@[g0.index_of(runs@[t as int]@[0])] == runs@[t as int]@[0]);
                            assert forall|a: int| 0 <= a < group@.len() implies from_lines(runs@, #[trigger] group@[a]) by {
                                if a < g0.len() {
                                    assert(group@[a] == g0[a]);
                                }
                            }
                        }
                    }
                    proof {
                        assert forall|y: usize| g0.contains(y) implies group@.contains(y) by {
                            let i = choose|i: int| 0 <= i < g0.len() && g0[i] == y;
                            assert(group@[i] == y);
                        }
                        assert(group@.contains(x));
                        assert forall|u: int| 0 <= u < t && holds_run(g0, runs@[u]@) implies holds_run(group@, #[trigger] runs@[u]@) by {
                            assert forall|k: int| 0 <= k < runs@[u]@.len() implies group@.contains(#[trigger] runs@[u]@[k]) by {
                                assert(g0.contains(runs@[u]@[k]));
                            }
                        }
                    }
                    m += 1;
                }
                proof {
                    assert forall|u: int| 0 <= u < t && holds_run(other@, runs@[u]@) implies holds_run(group@, #[trigger] runs@[u]@) by {
                        assert forall|k: int| 0 <= k < runs@[u]@.len() implies group@.contains(#[trigger] runs@[u]@[k]) by {
                            let a = choose|a: int| 0 <= a < other@.len() && other@[a] == runs@[u]@[k];
                            assert(group@.contains(other@[a]));
                        }
                    }
                }
                proof {
                    assert forall|u: int, k: int| 0 <= u < t && 0 <= k < runs@[u]@.len() implies covered(groups@, #[trigger] runs@[u]@[k])
                        || group@.contains(runs@[u]@[k]) by {
                        let x = runs@[u]@[k];
                        if other@.contains(x) {
                            let a = choose|a: int| 0 <= a < other@.len() && other@[a] == x;
                            assert(group@.contains(other@[a]));
                        }
                    }
                }
                j = 0;
            } else {
                proof {
                    assert forall|a: int| 0 <= a < groups@[j as int]@.len() implies !group@.contains(#[trigger] groups@[j as int]@[a]) by {}
                }
                j += 1;
            }
        }
        let ghost gs = groups@;
        groups.push(group);
        proof {
            let n = gs.len() as int;
            assert forall|k: int| 0 <= k < groups@.len() implies cells_ok(grid, #[trigger] groups@[k]@) by {
                if k < n {
                    assert(groups@[k] == gs[k]);
                }
            }
            assert forall|k: int| 0 <= k < groups@.len() implies anchored(#[trigger] groups@[k]@, runs@) by {
                if k < n {
                    assert(groups@[k] == gs[k]);
                } else {
                    assert(groups@[k]@.contains(runs@[t as int]@[0]));
                }
            }
            assert forall|g: int, a: int| 0 <= g < groups@.len() && 0 <= a < groups@[g]@.len() implies from_lines(runs@, #[trigger] groups@[g]@[a]) by {
                if g < n {
                    assert(groups@[g] == gs[g]);
                }
            }
            assert forall|u: int, k: int| 0 <= u < t + 1 && 0 <= k < runs@[u]@.len() implies covered(groups@, #[trigger] runs@[u]@[k]) by {
                let x = runs@[u]@[k];
                if groups@[n]@.contains(x) {
                } else {
                    assert(u < t);
                    assert(covered(gs, x));
                    let g = choose|g: int| 0 <= g < gs.len() && gs[g]@.contains(x);
                    assert(groups@[g] == gs[g]);
                }
            }
            assert forall|g1: int, g2: int, a: int| 0 <= g1 < groups@.len() && 0 <= g2 < groups@.len() && g1 != g2
                && 0 <= a < groups@[g1]@.len() implies !#[trigger] groups@[g2]@.contains(groups@[g1]@[a]) by {
                if g1 < n && g2 < n {
                    assert(groups@[g1] == gs[g1] && groups@[g2] == gs[g2]);
                } else if g1 < n {
                    assert(groups@[g1] == gs[g1]);
                    assert(!groups@[n]@.contains(gs[g1]@[a]));
                } else {
                    assert(groups@[g2] == gs[g2]);
                    let x = groups@[n]@[a];
                    if gs[g2]@.contains(x) {
                        let b = choose|b: int| 0 <= b < gs[g2]@.len() && gs[g2]@[b] == x;
                        assert(!groups@[n]@.contains(gs[g2]@[b]));
                    }
                }
            }
            assert forall|u: int| 0 <= u < t + 1 implies in_one(groups@, #[trigger] runs@[u]@) by {
                if u == t || holds_run(groups@[n]@, runs@[u]@) {
                    assert(holds_run(groups@[n]@, runs@[u]@));
                } else {
                    assert(in_one(gs, runs@[u]@));
                    let g = choose|g: int| 0 <= g < gs.len() && #[trigger] holds_run(gs[g]@, runs@[u]@);
                    assert(groups@[g] == gs[g]);
                }
            }
        }
        t += 1;
    }
    groups
}

/// The special a group makes: a rainbow from a line of five or more, a wrapped candy where
/// lines cross, a stripe along a line of four; nothing from a plain line of three.
fn special_of(Ghost(grid): Ghost<Seq<Option<Candy>>>, runs: &Vec<Vec<usize>>, group: &Vec<usize>) -> (r: Option<Special>)
    requires
        forall|k: int| 0 <= k < runs@.len() ==> run_ok(grid, #[trigger] runs@[k]@),
        anchored(group@, runs@),
    ensures
        r is Some ==> r->0 != Special::Plain,
        r == special_spec(runs@, group@),
{
    let mut count: usize = 0;
    let mut best: usize = 0;
    let mut found = false;
    let mut t: usize = 0;
    while t < runs.len()
        invariant
            t <= runs@.len(),
            count <= t,
            found ==> best < runs@.len(),
            (count as int, best as int, found) == tally_lines(runs@, group@, t as int),
            (exists|t2: int| 0 <= t2 < t && #[trigger] group@.contains(runs@[t2]@[0])) ==> found,
            forall|k: int| 0 <= k < runs@.len() ==> run_ok(grid, #[trigger] runs@[k]@),
        decreases runs@.len() - t,
    {
        if meets(&runs[t], group) {
            count += 1;
            // The last of the longest lines wins a tie.
            if !found || runs[t].len() >= runs[best].len() {
                best = t;
            }
            found = true;
        } else {
            proof {
                assert(run_ok(grid, runs@[t as int]@));
                assert(!group@.contains(runs@[t as int]@[0]));
            }
        }
        t += 1;
    }
    let longest = &runs[best];
    proof {
        assert(run_ok(grid, runs@[best as int]@));
    }
    if longest.len() >= 5 {
        Some(Special::Rainbow)
    } else if count > 1 {
        Some(Special::Wrapped)
    } else if longest.len() == 4 {
        if longest[0] / N == longest[1] / N {
            Some(Special::Row)
        } else {
            Some(Special::Column)
        }
    } else {
        None
    }
}


/// Cell `j` is caught when the special `c` on cell `i` goes off: its row, its column, the
/// three by three square around it, or (a rainbow) every candy of its color.
pub open spec fn blast(grid: Seq<Option<Candy>>, c: Candy, i: int, j: int) -> bool {
    match c.special {
        Special::Plain => false,
        Special::Row => j / 7 == i / 7,
        Special::Column => j % 7 == i % 7,
        Special::Wrapped => dist(j / 7, i / 7) <= 1 && dist(j % 7, i % 7) <= 1,
        Special::Rainbow => grid[j] is Some && grid[j]->0.color == c.color,
    }
}


/// A board of the stage: candies exactly on its cells, in its colors.
proof fn lemma_fall_deals(before: Seq<Option<Candy>>, after: Seq<Option<Candy>>, level: int, colors: u8)
    requires
        sound(before, level, colors),
        after.len() == 49,
        forall|i: int| 0 <= i < 49 && !active_spec(level, i) ==> #[trigger] after[i] == before[i],
        forall|i: int| 0 <= i < 49 && active_spec(level, i) ==> #[trigger] refilled(before, after[i], colors),
    ensures
        dealt(after, level, colors),
{
    assert forall|i: int| 0 <= i < 49 && #[trigger] after[i] is Some implies after[i]->0.color < colors by {
        if active_spec(level, i) {
            assert(refilled(before, after[i], colors));
            if !(after[i]->0.special == Special::Plain && after[i]->0.color < colors) {
                let j = choose|j: int| 0 <= j < 49 && #[trigger] before[j] == after[i];
                assert(before[j] is Some);
            }
        } else {
            assert(after[i] == before[i]);
        }
    }
    assert forall|i: int| 0 <= i < 49 implies (#[trigger] after[i] is Some <==> active_spec(level, i)) by {
        if active_spec(level, i) {
            assert(refilled(before, after[i], colors));
        } else {
            assert(after[i] == before[i]);
        }
    }
}

/// The color after `c` among `colors`, wrapping round.
pub open spec fn next_color(c: u8, colors: u8) -> u8 {
    if c + 1 < colors { (c + 1) as u8 } else { 0 }
}

/// The color dealt into cell `i` from the drawn color `c0`: the first of `c0` and the two
/// after it that completes no line.
pub open spec fn dealt_color(grid: Seq<Option<Candy>>, i: int, c0: u8, colors: u8) -> u8 {
    let c1 = next_color(c0, colors);
    if !forbidden(grid, i, c0) { c0 } else if !forbidden(grid, i, c1) { c1 } else { next_color(c1, colors) }
}

/// Dealing cells `i..49` of `grid` for `level` with the generator at `rng`: each cell of
/// the level draws a color and takes the first that completes no line. The board and the
/// generator's state after.
pub open spec fn deal_cells(level: int, grid: Seq<Option<Candy>>, rng: u64, i: int) -> (Seq<Option<Candy>>, u64)
    decreases 49 - i,
{
    if i >= 49 {
        (grid, rng)
    } else if active_spec(level, i) {
        let colors = stage_spec(level).colors;
        let r = xorshift(rng);
        let c = dealt_color(grid, i, (r % (colors as u64)) as u8, colors);
        deal_cells(level, grid.update(i, Some(Candy { color: c, special: Special::Plain })), r, i + 1)
    } else {
        deal_cells(level, grid, rng, i + 1)
    }
}

/// A fresh deal of `level` from the generator at `rng`.
pub open spec fn deal_from(level: int, rng: u64) -> (Seq<Option<Candy>>, u64) {
    deal_cells(level, Seq::new(49, |i: int| None::<Candy>), rng, 0)
}

/// Dealing again and again from `rng` until a board offers a move, giving up after the
/// deal numbered `u64::MAX` (counting from `tries`).
pub open spec fn redeal_from(level: int, rng: u64, tries: int) -> (Seq<Option<Candy>>, u64)
    decreases u64::MAX - tries,
{
    let d = deal_from(level, rng);
    if has_move(d.0) || tries >= u64::MAX { d } else { redeal_from(level, d.1, tries + 1) }
}

/// Only the level's cells hold candies.
pub open spec fn holes_ok(grid: Seq<Option<Candy>>, level: int) -> bool {
    &&& grid.len() == 49
    &&& forall|i: int| 0 <= i < 49 && !active_spec(level, i) ==> #[trigger] grid[i] is None
}

/// Exactly the level's cells hold candies.
pub open spec fn filled(grid: Seq<Option<Candy>>, level: int) -> bool {
    &&& grid.len() == 49
    &&& forall|i: int| 0 <= i < 49 ==> (#[trigger] grid[i] is Some <==> active_spec(level, i))
}

/// After a fall and refill every cell of the level holds a candy, and the holes stay empty.
proof fn lemma_fall_fills(before: Seq<Option<Candy>>, after: Seq<Option<Candy>>, level: int, colors: u8)
    requires
        holes_ok(before, level),
        after.len() == 49,
        forall|i: int| 0 <= i < 49 && !active_spec(level, i) ==> #[trigger] after[i] == before[i],
        forall|i: int| 0 <= i < 49 && active_spec(level, i) ==> #[trigger] refilled(before, after[i], colors),
    ensures
        filled(after, level),
{
    assert forall|i: int| 0 <= i < 49 implies (#[trigger] after[i] is Some <==> active_spec(level, i)) by {
        if active_spec(level, i) {
            assert(refilled(before, after[i], colors));
        } else {
            assert(after[i] == before[i]);
        }
    }
}

/// The points a frame scores: a burst scores sixty a cleared cell times the chain's
/// multiplier (at most five); no other frame scores.
pub open spec fn frame_scored(f: Frame) -> bool {
    if f.phase == Phase::Burst {
        f.points == f.cleared@.len() * 60 * (if f.chain < 5 { f.chain as int } else { 5 })
    } else {
        f.points == 0
    }
}

/// How many burst frames of `frames` clear cell `i`.
pub open spec fn thaw_count(frames: Seq<Frame>, i: int) -> int
    decreases frames.len(),
{
    if frames.len() == 0 {
        0
    } else {
        thaw_count(frames.drop_last(), i) + if frames.last().phase == Phase::Burst
            && frames.last().cleared@.contains(i as usize) { 1int } else { 0 }
    }
}

/// Frosting `f` after `k` clears, a layer each, down to none.
pub open spec fn thawed(f: u8, k: int) -> int {
    if f > k { f - k } else { 0 }
}

/// The cleared cells come before `n`.
proof fn lemma_burst_cells_small(grid: Seq<Option<Candy>>, hit: Seq<bool>, n: int)
    requires
        0 <= n <= 49,
    ensures
        forall|w: int| 0 <= w < burst_cells(grid, hit, n).len() ==> #[trigger] burst_cells(grid, hit, n)[w] < n,
    decreases n,
{
    if n > 0 {
        lemma_burst_cells_small(grid, hit, n - 1);
        let a = burst_cells(grid, hit, n - 1);
        let b = burst_cells(grid, hit, n);
        assert forall|w: int| 0 <= w < b.len() implies #[trigger] b[w] < n by {
            if w < a.len() {
                assert(b[w] == a[w]);
            }
        }
    }
}

/// A cell is among the cleared exactly when it was hit and held a candy.
proof fn lemma_burst_cells_contains(grid: Seq<Option<Candy>>, hit: Seq<bool>, n: int, i: int)
    requires
        0 <= i < 49,
        0 <= n <= 49,
    ensures
        burst_cells(grid, hit, n).contains(i as usize) == (i < n && hit[i] && grid[i] is Some),
    decreases n,
{
    if n > 0 {
        lemma_burst_cells_contains(grid, hit, n - 1, i);
        lemma_burst_cells_small(grid, hit, n - 1);
        let a = burst_cells(grid, hit, n - 1);
        let b = burst_cells(grid, hit, n);
        if hit[n - 1] && grid[n - 1] is Some {
            assert(b == a.push((n - 1) as usize));
            if b.contains(i as usize) && !a.contains(i as usize) {
                let w = choose|w: int| 0 <= w < b.len() && b[w] == i as usize;
                assert(w == a.len());
            }
            if a.contains(i as usize) {
                let w = choose|w: int| 0 <= w < a.len() && a[w] == i as usize;
                assert(b[w] == i as usize);
            }
            if i == n - 1 {
                assert(b[a.len() as int] == i as usize);
            }
        } else {
            assert(b =~= a);
        }
    }
}

/// The points of all of `frames`.
pub open spec fn frame_points(frames: Seq<Frame>) -> int
    decreases frames.len(),
{
    if frames.len() == 0 { 0 } else { frame_points(frames.drop_last()) + frames.last().points }
}

/// The game state of the level being played.
#[derive(Clone, Debug)]
pub struct Game {
    pub level: usize,
    pub grid: Vec<Option<Candy>>,
    pub frost: Vec<u8>,
    pub moves: u32,
    pub score: u32,
    pub collected: u32,
    pub rng: u64,
}

/// The save: the level in play and the best stars of each stage.
#[derive(Clone, Debug)]
pub struct Save {
    pub game: Game,
    pub stars: [u8; 6],
}

/// The animation stage a frame shows.
#[derive(Clone, Copy, Debug, PartialEq, Eq, Structural)]
pub enum Phase {
    Swap,
    Return,
    Burst,
    Fall,
    Shuffle,
}

/// An immutable snapshot for the animation to replay.
#[derive(Clone)]
pub struct Frame {
    pub grid: Vec<Option<Candy>>,
    pub frost: Vec<u8>,
    pub phase: Phase,
    pub motion: Vec<(usize, usize)>,
    pub cleared: Vec<usize>,
    pub chain: u32,
    pub points: u32,
}

/// What a swap did: whether it counted, and the frames to animate.
pub struct Turn {
    pub valid: bool,
    pub frames: Vec<Frame>,
}

impl Game {
    /// A board of its level's size, with the level one of the stages.
    pub open spec fn wf(&self) -> bool {
        &&& self.level < LEVELS
        &&& self.grid@.len() == LEN
        &&& self.frost@.len() == LEN
    }

    pub open spec fn won_spec(&self) -> bool {
        let st = stage_spec(self.level as int);
        self.score >= st.target && self.collected >= st.collect && frost_total(self.frost@) == 0
    }

    pub open spec fn over_spec(&self) -> bool {
        self.won_spec() || self.moves == 0
    }

    pub open spec fn stars_spec(&self) -> u8 {
        if !self.won_spec() {
            0
        } else if self.moves >= 10 {
            3
        } else if self.moves >= 5 {
            2
        } else {
            1
        }
    }

    /// The frosting left on the board.
    pub fn frosting(&self) -> (t: u32)
        requires
            frost_total(self.frost@) <= u32::MAX,
        ensures
            t == frost_total(self.frost@),
    {
        let mut t: u32 = 0;
        let mut k: usize = 0;
        while k < self.frost.len()
            invariant
                k <= self.frost@.len(),
                frost_total(self.frost@) <= u32::MAX,
                t == frost_total(self.frost@.take(k as int)),
            decreases self.frost@.len() - k,
        {
            proof {
                assert(self.frost@.take(k as int + 1).drop_last() =~= self.frost@.take(k as int));
                lemma_frost_total_prefix(self.frost@, k as int + 1);
            }
            t = t + self.frost[k] as u32;
            k += 1;
        }
        proof {
            assert(self.frost@.take(k as int) =~= self.frost@);
        }
        t
    }

    /// Every cell is thawed: no frosting left.
    fn thawed(&self) -> (b: bool)
        ensures
            b == (frost_total(self.frost@) == 0),
    {
        let mut k: usize = 0;
        while k < self.frost.len()
            invariant
                k <= self.frost@.len(),
                forall|m: int| 0 <= m < k ==> #[trigger] self.frost@[m] == 0,
            decreases self.frost@.len() - k,
        {
            if self.frost[k] != 0 {
                proof {
                    lemma_frost_total_zero(self.frost@);
                }
                return false;
            }
            k += 1;
        }
        proof {
            lemma_frost_total_zero(self.frost@);
        }
        true
    }

    /// The stage's score, collection and frosting goals are all met.
    pub fn won(&self) -> (b: bool)
        requires
            self.level < LEVELS,
        ensures
            b == self.won_spec(),
    {
        let st = stage(self.level);
        self.score >= st.target && self.collected >= st.collect && self.thawed()
    }

    /// Won, or out of moves.
    pub fn over(&self) -> (b: bool)
        requires
            self.level < LEVELS,
        ensures
            b == self.over_spec(),
    {
        self.won() || self.moves == 0
    }

    /// Three stars for a win with ten moves to spare, two with five, one otherwise; none
    /// without a win.
    pub fn stars(&self) -> (s: u8)
        requires
            self.level < LEVELS,
        ensures
            s == self.stars_spec(),
    {
        if !self.won() {
            0
        } else if self.moves >= 10 {
            3
        } else if self.moves >= 5 {
            2
        } else {
            1
        }
    }

    /// Cells that may be swapped: neighbors in a row, or in a column.
    pub fn adjacent(a: usize, b: usize) -> (r: bool)
        ensures
            r == adjacent_spec(a as int, b as int),
    {
        (a < LEN && b < LEN && a / N == b / N && abs_diff(a, b) == 1) || (a < LEN && b < LEN
            && abs_diff(a, b) == N)
    }

    fn combo(&self, a: usize, b: usize) -> (r: bool)
        requires
            a < self.grid@.len(),
            b < self.grid@.len(),
        ensures
            r == combo_spec(self.grid@, a as int, b as int),
    {
        match (self.grid[a], self.grid[b]) {
            (Some(x), Some(y)) => {
                x.special == Special::Rainbow || y.special == Special::Rainbow || (x.special
                    != Special::Plain && y.special != Special::Plain)
            },
            _ => false,
        }
    }



    /// A fresh game of `level` (the last stage for any higher number): the stage's moves,
    /// its frosting, and a dealt board with no line on it.
    pub fn new(level: usize, seed: u64) -> (g: Self)
        ensures
            g.wf(),
            g.level == (if level < LEVELS - 1 { level } else { (LEVELS - 1) as usize }),
            g.moves == stage_spec(g.level as int).moves,
            g.score == 0,
            g.collected == 0,
            g.rng != 0,
            forall|i: int| 0 <= i < LEN ==> #[trigger] g.frost@[i] == frost_spec(g.level as int, i),
            dealt(g.grid@, g.level as int, stage_spec(g.level as int).colors),
            forall|i: int| 0 <= i < LEN && #[trigger] g.grid@[i] is Some ==> g.grid@[i]->0.special == Special::Plain,
            !has_line(g.grid@),
            g.playable(),
            (g.grid@, g.rng) == redeal_from(g.level as int, seed | 1, 0),
    {
        let lv = if level < LEVELS - 1 { level } else { LEVELS - 1 };
        let mut g = Game {
            level: lv,
            grid: vec![None; LEN],
            frost: vec![0; LEN],
            moves: stage(lv).moves,
            score: 0,
            collected: 0,
            rng: seed | 1,
        };
        proof {
            assert((seed | 1u64) != 0) by (bit_vector);
        }
        let mut i: usize = 0;
        while i < LEN
            invariant
                i <= LEN,
                g.level == lv,
                lv < LEVELS,
                g.grid@.len() == LEN,
                g.frost@.len() == LEN,
                g.moves == stage_spec(lv as int).moves,
                g.score == 0,
                g.collected == 0,
                g.rng != 0,
                g.rng == seed | 1,
                forall|j: int| 0 <= j < i ==> #[trigger] g.frost@[j] == frost_spec(lv as int, j),
                forall|j: int| i <= j < LEN ==> #[trigger] g.frost@[j] == 0,
            decreases LEN - i,
        {
            let frosted = active(lv, i) && (lv == 2 || lv == 4 || lv == 5) && (if lv == 4 {
                i / N % 2 == 1 && i % N % 2 == 1
            } else {
                (i / N + i % N) % 2 == 0
            });
            if frosted {
                g.frost.set(i, if lv == 4 { 2 } else { 1 });
            }
            i += 1;
        }
        g.redeal();
        proof {
            assert forall|i: int| 0 <= i < LEN implies #[trigger] cell_valid(g.grid@, g.frost@, g.level as int, i) by {
                assert(g.frost@[i] == frost_spec(g.level as int, i));
                assert(g.grid@[i] is Some <==> active_spec(g.level as int, i));
            }
        }
        g
    }


    /// Let the candies of rows `start..end` of column `col`, a run of active cells, fall to
    /// the bottom of that run and fill the cells above with new candies.
    fn fill_well(&mut self, col: usize, start: usize, end: usize, motion: &mut Vec<(usize, usize)>)
        requires
            old(self).wf(),
            col < N,
            start < end <= N,
            forall|r: int| start <= r < end ==> #[trigger] active_spec(old(self).level as int, r * 7 + col),
            forall|k: int| 0 <= k < old(motion)@.len() ==> #[trigger] old(motion)@[k].1 < LEN
                && (old(motion)@[k].0 < LEN ==> well_path(old(self).level as int, old(motion)@[k].0 as int, old(motion)@[k].1 as int)),
        ensures
            final(self).wf(),
            final(self).level == old(self).level,
            final(self).frost@ == old(self).frost@,
            final(self).moves == old(self).moves,
            final(self).score == old(self).score,
            final(self).collected == old(self).collected,
            forall|i: int| 0 <= i < LEN && !(i % 7 == col && start <= i / 7 < end)
                ==> #[trigger] final(self).grid@[i] == old(self).grid@[i],
            forall|r: int| start <= r < end ==> #[trigger] refilled(old(self).grid@, final(self).grid@[r * 7 + col],
                stage_spec(old(self).level as int).colors),
            old(self).rng != 0 ==> final(self).rng != 0,
            forall|k: int| 0 <= k < final(motion)@.len() ==> #[trigger] final(motion)@[k].1 < LEN
                && (final(motion)@[k].0 < LEN ==> well_path(old(self).level as int, final(motion)@[k].0 as int, final(motion)@[k].1 as int)),
    {
        let ghost g0 = self.grid@;
        let ghost level = self.level as int;
        // The candies of the well, bottom first.
        let mut held: Vec<(usize, Candy)> = Vec::new();
        let mut r = end;
        while r > start
            invariant
                start <= r <= end <= N,
                col < N,
                self.grid@ == g0,
                g0.len() == LEN,
                held@.len() <= end - r,
                forall|k: int| 0 <= k < held@.len() ==> {
                    let at = #[trigger] held@[k].0;
                    &&& at % 7 == col
                    &&& r <= at / 7 <= end - 1 - k
                    &&& at == (at / 7) * 7 + col
                    &&& g0[at as int] == Some(held@[k].1)
                },
            decreases r - start,
        {
            r -= 1;
            let at = r * N + col;
            if let Some(c) = self.grid[at] {
                held.push((at, c));
            }
        }
        let mut r = start;
        while r < end
            invariant
                start <= r <= end <= N,
                col < N,
                self.wf(),
                self.level as int == level,
                self.frost@ == old(self).frost@,
                self.moves == old(self).moves,
                self.score == old(self).score,
                self.collected == old(self).collected,
                forall|i: int| 0 <= i < LEN && !(i % 7 == col && start <= i / 7 < r) ==> #[trigger] self.grid@[i] == g0[i],
                self.rng == old(self).rng,
            decreases end - r,
        {
            self.grid.set(r * N + col, None);
            r += 1;
        }
        let mut offset: usize = 0;
        let mut r = end;
        while r > start
            invariant
                start <= r <= end <= N,
                offset == end - r,
                col < N,
                self.wf(),
                self.level as int == level,
                self.frost@ == old(self).frost@,
                self.moves == old(self).moves,
                self.score == old(self).score,
                self.collected == old(self).collected,
                held@.len() <= end - start,
                forall|k: int| 0 <= k < held@.len() ==> {
                    let at = #[trigger] held@[k].0;
                    &&& at % 7 == col
                    &&& start <= at / 7 <= end - 1 - k
                    &&& at == (at / 7) * 7 + col
                    &&& g0[at as int] == Some(held@[k].1)
                },
                forall|i: int| 0 <= i < LEN && !(i % 7 == col && start <= i / 7 < end) ==> #[trigger] self.grid@[i] == g0[i],
                forall|q: int| r <= q < end ==> #[trigger] refilled(g0, self.grid@[q * 7 + col],
                    stage_spec(level).colors),
                forall|q: int| start <= q < end ==> #[trigger] active_spec(level, q * 7 + col),
                forall|k: int| 0 <= k < motion@.len() ==> #[trigger] motion@[k].1 < LEN
                    && (motion@[k].0 < LEN ==> well_path(level, motion@[k].0 as int, motion@[k].1 as int)),
                old(self).rng != 0 ==> self.rng != 0,
            decreases r - start,
        {
            r -= 1;
            let to = r * N + col;
            let ghost before = self.grid@;
            if offset < held.len() {
                let (from, c) = held[offset];
                self.grid.set(to, Some(c));
                proof {
                    let fr = from / 7;
                    assert(fr <= r);
                    assert forall|i: int| from <= i <= to && i % 7 == from % 7 implies #[trigger] active_spec(level, i) by {
                        assert(i == (i / 7) * 7 + col);
                        assert(start <= i / 7 < end);
                    }
                    assert(well_path(level, from as int, to as int));
                    assert(refilled(g0, Some(c), stage_spec(level).colors)) by {
                        assert(g0[from as int] == Some(c));
                    }
                }
                motion.push((from, to));
            } else {
                let c = self.random();
                self.grid.set(to, Some(Candy::plain(c)));
                motion.push((LEN + (end - start - held.len()), to));
            }
            proof {
                assert forall|q: int| r <= q < end implies #[trigger] refilled(g0, self.grid@[q * 7 + col],
                    stage_spec(level).colors) by {
                    if q > r {
                        assert(self.grid@[q * 7 + col] == before[q * 7 + col]);
                    }
                }
                assert forall|i: int| 0 <= i < LEN && !(i % 7 == col && start <= i / 7 < end) implies #[trigger] self.grid@[i] == g0[i] by {
                    assert(i != to);
                }
            }
            offset += 1;
        }
    }

    /// Holes split each column into independent gravity wells; candies never cross a hole.
    /// Every active cell ends up holding a candy.
    pub fn fall(&mut self) -> (motion: Vec<(usize, usize)>)
        requires
            old(self).wf(),
        ensures
            final(self).wf(),
            final(self).level == old(self).level,
            final(self).frost@ == old(self).frost@,
            final(self).moves == old(self).moves,
            final(self).score == old(self).score,
            final(self).collected == old(self).collected,
            forall|i: int| 0 <= i < LEN && !active_spec(old(self).level as int, i) ==> #[trigger] final(self).grid@[i] == old(self).grid@[i],
            forall|i: int| 0 <= i < LEN && active_spec(old(self).level as int, i) ==> #[trigger] refilled(old(self).grid@,
                final(self).grid@[i], stage_spec(old(self).level as int).colors),
            forall|k: int| 0 <= k < motion@.len() ==> #[trigger] motion@[k].1 < LEN
                && (motion@[k].0 < LEN ==> well_path(old(self).level as int, motion@[k].0 as int, motion@[k].1 as int)),
            old(self).rng != 0 ==> final(self).rng != 0,
    {
        let mut motion: Vec<(usize, usize)> = Vec::new();
        let ghost g0 = self.grid@;
        let ghost level = self.level as int;
        let ghost colors = stage_spec(level).colors;
        let mut col: usize = 0;
        while col < N
            invariant
                col <= N,
                self.wf(),
                self.level as int == level,
                colors == stage_spec(level).colors,
                self.frost@ == old(self).frost@,
                self.moves == old(self).moves,
                self.score == old(self).score,
                self.collected == old(self).collected,
                g0 == old(self).grid@,
                forall|i: int| 0 <= i < LEN && (i % 7 >= col || !active_spec(level, i)) ==> #[trigger] self.grid@[i] == g0[i],
                forall|i: int| 0 <= i < LEN && i % 7 < col && active_spec(level, i) ==> #[trigger] refilled(g0, self.grid@[i], colors),
                forall|k: int| 0 <= k < motion@.len() ==> #[trigger] motion@[k].1 < LEN
                    && (motion@[k].0 < LEN ==> well_path(level, motion@[k].0 as int, motion@[k].1 as int)),
                old(self).rng != 0 ==> self.rng != 0,
            decreases N - col,
        {
            let mut row: usize = 0;
            while row < N
                invariant
                    col < N,
                    row <= N,
                    self.wf(),
                    self.level as int == level,
                    colors == stage_spec(level).colors,
                    self.frost@ == old(self).frost@,
                    self.moves == old(self).moves,
                    self.score == old(self).score,
                    self.collected == old(self).collected,
                    forall|i: int| 0 <= i < LEN && (i % 7 > col || (i % 7 == col && i / 7 >= row) || !active_spec(level, i))
                        ==> #[trigger] self.grid@[i] == g0[i],
                    forall|i: int| 0 <= i < LEN && (i % 7 < col || (i % 7 == col && i / 7 < row)) && active_spec(level, i)
                        ==> #[trigger] refilled(g0, self.grid@[i], colors),
                    forall|k: int| 0 <= k < motion@.len() ==> #[trigger] motion@[k].1 < LEN
                        && (motion@[k].0 < LEN ==> well_path(level, motion@[k].0 as int, motion@[k].1 as int)),
                    old(self).rng != 0 ==> self.rng != 0,
                decreases N - row,
            {
                if !active(self.level, row * N + col) {
                    row += 1;
                    continue;
                }
                let start = row;
                while row < N && active(self.level, row * N + col)
                    invariant
                        col < N,
                        start < row <= N || (start == row && row < N),
                        forall|q: int| start <= q < row ==> #[trigger] active_spec(level, q * 7 + col),
                        self.level as int == level,
                    decreases N - row,
                {
                    row += 1;
                }
                let end = row;
                let ghost before = self.grid@;
                self.fill_well(col, start, end, &mut motion);
                proof {
                    assert forall|i: int| 0 <= i < LEN && (i % 7 > col || (i % 7 == col && i / 7 >= row) || !active_spec(level, i))
                        implies #[trigger] self.grid@[i] == g0[i] by {
                        if i % 7 == col && start <= i / 7 < end {
                            assert(i == (i / 7) * 7 + col);
                            assert(active_spec(level, (i / 7) * 7 + col));
                        }
                    }
                    assert forall|i: int| 0 <= i < LEN && (i % 7 < col || (i % 7 == col && i / 7 < row)) && active_spec(level, i)
                        implies #[trigger] refilled(g0, self.grid@[i], colors) by {
                        if i % 7 == col && start <= i / 7 < end {
                            assert(i == (i / 7) * 7 + col);
                            let q = i / 7;
                            assert(refilled(before, self.grid@[q * 7 + col], colors));
                            if !(self.grid@[i] is Some && self.grid@[i]->0.special == Special::Plain && self.grid@[i]->0.color < colors) {
                                let j = choose|j: int| 0 <= j < 49 && #[trigger] before[j] == self.grid@[i];
                                if j % 7 == col && start <= j / 7 < end {
                                    assert(j == (j / 7) * 7 + col);
                                    assert(active_spec(level, j));
                                    assert(j % 7 == col && j / 7 >= row - (end - start));
                                }
                            }
                        } else {
                            assert(self.grid@[i] == before[i]);
                        }
                    }
                }
            }
            col += 1;
        }
        proof {
            assert forall|i: int| 0 <= i < LEN && active_spec(level, i) implies #[trigger] refilled(g0, self.grid@[i], colors) by {
                assert(i % 7 < 7);
            }
        }
        motion
    }


    fn caught(&self, c: Candy, i: usize, j: usize) -> (r: bool)
        requires
            self.grid@.len() == LEN,
            i < LEN,
            j < LEN,
        ensures
            r == blast(self.grid@, c, i as int, j as int),
    {
        match c.special {
            Special::Plain => false,
            Special::Row => j / N == i / N,
            Special::Column => j % N == i % N,
            Special::Wrapped => abs_diff(j / N, i / N) <= 1 && abs_diff(j % N, i % N) <= 1,
            Special::Rainbow => match self.grid[j] {
                Some(x) => x.color == c.color,
                None => false,
            },
        }
    }

    /// Set off every special among the hit cells, each at most once, adding what each one
    /// catches to the hit cells, until nothing new goes off.
    fn set_off(&self, hit: &mut Vec<bool>)
        requires
            self.grid@.len() == LEN,
            old(hit)@.len() == LEN,
        ensures
            final(hit)@.len() == LEN,
            forall|i: int| 0 <= i < LEN && old(hit)@[i] ==> #[trigger] final(hit)@[i],
            forall|i: int, j: int| 0 <= i < LEN && 0 <= j < LEN && #[trigger] final(hit)@[i] && self.grid@[i] is Some
                && blast(self.grid@, self.grid@[i]->0, i, j) ==> #[trigger] final(hit)@[j],
            sets_off(self.grid@, old(hit)@, final(hit)@),
    {
        let mut fired: Vec<bool> = vec![false; LEN];
        proof {
            lemma_count_false_bounds(fired@);
        }
        loop
            invariant
                self.grid@.len() == LEN,
                hit@.len() == LEN,
                fired@.len() == LEN,
                count_false(fired@) >= 0,
                forall|i: int| 0 <= i < LEN && old(hit)@[i] ==> #[trigger] hit@[i],
                forall|i: int, j: int| 0 <= i < LEN && 0 <= j < LEN && #[trigger] fired@[i]
                    && blast(self.grid@, self.grid@[i]->0, i, j) ==> #[trigger] hit@[j],
                forall|i: int| 0 <= i < LEN && #[trigger] fired@[i] ==> hit@[i] && self.grid@[i] is Some,
                forall|s: Seq<bool>| s.len() == LEN && #[trigger] blast_closed(self.grid@, s) && covers(old(hit)@, s)
                    ==> covers(hit@, s),
            ensures
                hit@.len() == LEN,
                forall|i: int| 0 <= i < LEN && old(hit)@[i] ==> #[trigger] hit@[i],
                forall|i: int, j: int| 0 <= i < LEN && 0 <= j < LEN && #[trigger] hit@[i] && self.grid@[i] is Some
                    && blast(self.grid@, self.grid@[i]->0, i, j) ==> #[trigger] hit@[j],
                forall|s: Seq<bool>| s.len() == LEN && #[trigger] blast_closed(self.grid@, s) && covers(old(hit)@, s)
                    ==> covers(hit@, s),
            decreases count_false(fired@),
        {
            let mut i: usize = 0;
            while i < LEN && !(hit[i] && !fired[i] && self.grid[i].is_some())
                invariant
                    i <= LEN,
                    hit@.len() == LEN,
                    fired@.len() == LEN,
                    self.grid@.len() == LEN,
                    forall|k: int| 0 <= k < i ==> !(#[trigger] hit@[k] && !fired@[k] && self.grid@[k] is Some),
                decreases LEN - i,
            {
                i += 1;
            }
            if i == LEN {
                proof {
                    assert forall|a: int, j: int| 0 <= a < LEN && 0 <= j < LEN && #[trigger] hit@[a] && self.grid@[a] is Some
                        && blast(self.grid@, self.grid@[a]->0, a, j) implies #[trigger] hit@[j] by {
                        assert(!(hit@[a] && !fired@[a] && self.grid@[a] is Some));
                    }
                }
                break;
            }
            proof {
                lemma_count_false_update(fired@, i as int);
            }
            fired.set(i, true);
            let c = self.grid[i].unwrap();
            let ghost h0 = hit@;
            let mut j: usize = 0;
            while j < LEN
                invariant
                    i < LEN,
                    j <= LEN,
                    hit@.len() == LEN,
                    self.grid@.len() == LEN,
                    c == self.grid@[i as int]->0,
                    forall|k: int| 0 <= k < LEN && h0[k] ==> #[trigger] hit@[k],
                    forall|k: int| 0 <= k < j && blast(self.grid@, c, i as int, k) ==> #[trigger] hit@[k],
                    hit@[i as int],
                    self.grid@[i as int] is Some,
                    forall|s: Seq<bool>| s.len() == LEN && #[trigger] blast_closed(self.grid@, s) && covers(old(hit)@, s)
                        ==> covers(hit@, s),
                decreases LEN - j,
            {
                if self.caught(c, i, j) {
                    let ghost hb = hit@;
                    hit.set(j, true);
                    proof {
                        assert forall|s: Seq<bool>| s.len() == LEN && #[trigger] blast_closed(self.grid@, s)
                            && covers(old(hit)@, s) implies covers(hit@, s) by {
                            assert(covers(hb, s));
                            assert(s[i as int]);
                            assert(s[j as int]);
                        }
                    }
                }
                j += 1;
            }
        }
    }

    /// A snapshot for the animation.
    fn frame(&self, phase: Phase, chain: u32) -> (f: Frame)
        ensures
            f.phase == phase,
            f.chain == chain,
            f.points == 0,
            f.cleared@.len() == 0,
    {
        Frame {
            grid: self.grid.clone(),
            frost: self.frost.clone(),
            phase,
            motion: Vec::new(),
            cleared: Vec::new(),
            chain,
            points: 0,
        }
    }

    /// Exchange the candies of `a` and `b`.
    fn exchange(&mut self, a: usize, b: usize)
        requires
            a < old(self).grid@.len(),
            b < old(self).grid@.len(),
        ensures
            final(self).grid@ == swapped(old(self).grid@, a as int, b as int),
            final(self).level == old(self).level,
            final(self).frost@ == old(self).frost@,
            final(self).moves == old(self).moves,
            final(self).score == old(self).score,
            final(self).collected == old(self).collected,
            final(self).rng == old(self).rng,
    {
        let x = self.grid[a];
        let y = self.grid[b];
        self.grid.set(a, y);
        self.grid.set(b, x);
    }

    /// The cells a special swap sets off at once: both swapped cells, plus every candy of the
    /// other color for a rainbow (every candy for two rainbows; a rainbow with a stripe or a
    /// wrapped candy first turns those candies into its kind), or the row and column of `b`
    /// (three rows and columns with a wrapped candy).
    #[verifier::spinoff_prover]
    fn combo_cells(&mut self, a: usize, b: usize) -> (forced: Vec<usize>)
        requires
            old(self).wf(),
            a < LEN,
            b < LEN,
            old(self).grid@[a as int] is Some,
            old(self).grid@[b as int] is Some,
        ensures
            final(self).wf(),
            final(self).level == old(self).level,
            final(self).frost@ == old(self).frost@,
            final(self).moves == old(self).moves,
            final(self).score == old(self).score,
            final(self).collected == old(self).collected,
            final(self).rng == old(self).rng,
            forall|i: int| 0 <= i < LEN ==> (#[trigger] final(self).grid@[i] is Some <==> old(self).grid@[i] is Some),
            forall|i: int| 0 <= i < LEN && final(self).grid@[i] is Some ==> #[trigger] final(self).grid@[i]->0.color
                == old(self).grid@[i]->0.color,
            forced@ == combo_forced(old(self).grid@, a as int, b as int),
            final(self).grid@ == combo_grid(old(self).grid@, a as int, b as int),
            forall|k: int| 0 <= k < forced@.len() ==> #[trigger] forced@[k] < LEN,
    {
        let x = self.grid[a].unwrap();
        let y = self.grid[b].unwrap();
        let mut forced: Vec<usize> = vec![a, b];
        let ghost g0 = self.grid@;
        proof {
            assert(forced@ =~= seq![a, b]);
        }
        if x.special == Special::Rainbow || y.special == Special::Rainbow {
            let other = if x.special == Special::Rainbow { y } else { x };
            let ghost turn = other.special != Special::Plain && other.special != Special::Rainbow;
            let mut i: usize = 0;
            while i < LEN
                invariant
                    i <= LEN,
                    self.wf(),
                    self.level == old(self).level,
                    self.frost@ == old(self).frost@,
                    self.moves == old(self).moves,
                    self.score == old(self).score,
                    self.collected == old(self).collected,
                    self.rng == old(self).rng,
                    g0 == old(self).grid@,
                    g0.len() == LEN,
                    self.grid@.len() == LEN,
                    other == combo_other(g0, a as int, b as int),
                    turn == (other.special != Special::Plain && other.special != Special::Rainbow),
                    forall|j: int| 0 <= j < i ==> #[trigger] self.grid@[j] == (if turn { turned(g0, other, j) } else { g0[j] }),
                    forall|j: int| i <= j < LEN ==> #[trigger] self.grid@[j] == g0[j],
                    forced@ == seq![a, b] + picked(g0, other, i as int),
                    forall|k: int| 0 <= k < forced@.len() ==> #[trigger] forced@[k] < LEN,
                decreases LEN - i,
            {
                if let Some(c) = self.grid[i] {
                    if c.color == other.color || other.special == Special::Rainbow {
                        forced.push(i);
                        if other.special != Special::Plain && other.special != Special::Rainbow {
                            self.grid.set(i, Some(Candy { color: c.color, special: other.special }));
                        }
                    }
                }
                proof {
                    assert(picked(g0, other, i + 1) == picked(g0, other, i as int) + (if pick(g0, other, i as int) {
                        seq![i]
                    } else {
                        Seq::empty()
                    }));
                    assert(forced@ =~= seq![a, b] + picked(g0, other, i + 1));
                }
                i += 1;
            }
            proof {
                assert(self.grid@ =~= combo_grid(g0, a as int, b as int));
            }
        } else {
            let radius: usize = if x.special == Special::Wrapped || y.special == Special::Wrapped { 1 } else { 0 };
            let mut i: usize = 0;
            while i < LEN
                invariant
                    i <= LEN,
                    b < LEN,
                    radius == combo_radius(g0, a as int, b as int),
                    forced@ == seq![a, b] + near(b as int, radius as int, i as int),
                    forall|k: int| 0 <= k < forced@.len() ==> #[trigger] forced@[k] < LEN,
                decreases LEN - i,
            {
                if abs_diff(i / N, b / N) <= radius || abs_diff(i % N, b % N) <= radius {
                    forced.push(i);
                }
                proof {
                    assert(forced@ =~= seq![a, b] + near(b as int, radius as int, i + 1));
                }
                i += 1;
            }
        }
        forced
    }

    /// A game the save check accepts, but for the score: its stage, a dealt board with no
    /// line, frosting of at most two on active cells only, and moves within the stage's.
    pub open spec fn playable(&self) -> bool {
        &&& self.wf()
        &&& self.rng != 0
        &&& self.moves <= stage_spec(self.level as int).moves
        &&& forall|i: int| 0 <= i < LEN ==> #[trigger] cell_valid(self.grid@, self.frost@, self.level as int, i)
        &&& !has_line(self.grid@)
    }

    /// Clear the hit cells that hold candies: each loses a layer of frosting, a red candy
    /// counts toward the collection goal.
    fn burst(&mut self, hit: &Vec<bool>) -> (cleared: Vec<usize>)
        requires
            old(self).wf(),
            hit@.len() == LEN,
            old(self).collected <= u32::MAX - LEN,
        ensures
            final(self).wf(),
            final(self).level == old(self).level,
            final(self).moves == old(self).moves,
            final(self).score == old(self).score,
            final(self).rng == old(self).rng,
            cleared@.len() <= LEN,
            old(self).collected <= final(self).collected <= old(self).collected + cleared@.len(),
            forall|i: int| 0 <= i < LEN ==> #[trigger] final(self).frost@[i] <= old(self).frost@[i],
            forall|i: int| 0 <= i < LEN ==> (#[trigger] final(self).grid@[i] == old(self).grid@[i]
                || (hit@[i] && final(self).grid@[i] is None)),
            forall|i: int| 0 <= i < LEN && old(self).grid@[i] is None ==> #[trigger] final(self).frost@[i] == old(self).frost@[i],
            cleared@ == burst_cells(old(self).grid@, hit@, LEN as int),
            final(self).collected == old(self).collected + burst_red(old(self).grid@, hit@, LEN as int),
            forall|i: int| 0 <= i < LEN ==> #[trigger] final(self).grid@[i] == (if hit@[i] && old(self).grid@[i] is Some {
                None
            } else {
                old(self).grid@[i]
            }),
            forall|i: int| 0 <= i < LEN ==> #[trigger] final(self).frost@[i] == (if hit@[i] && old(self).grid@[i] is Some
                && old(self).frost@[i] > 0 { (old(self).frost@[i] - 1) as u8 } else { old(self).frost@[i] }),
    {
        let mut cleared: Vec<usize> = Vec::new();
        let mut i: usize = 0;
        while i < LEN
            invariant
                i <= LEN,
                hit@.len() == LEN,
                self.wf(),
                self.level == old(self).level,
                self.moves == old(self).moves,
                self.score == old(self).score,
                self.rng == old(self).rng,
                cleared@.len() <= i,
                old(self).collected <= self.collected <= old(self).collected + cleared@.len(),
                old(self).collected <= u32::MAX - LEN,
                forall|j: int| 0 <= j < LEN ==> #[trigger] self.frost@[j] <= old(self).frost@[j],
                forall|j: int| 0 <= j < LEN && old(self).grid@[j] is None ==> #[trigger] self.frost@[j] == old(self).frost@[j],
                forall|j: int| 0 <= j < LEN ==> (#[trigger] self.grid@[j] == old(self).grid@[j]
                    || (hit@[j] && self.grid@[j] is None)),
                forall|j: int| i <= j < LEN ==> #[trigger] self.grid@[j] == old(self).grid@[j],
                forall|j: int| i <= j < LEN ==> #[trigger] self.frost@[j] == old(self).frost@[j],
                cleared@ == burst_cells(old(self).grid@, hit@, i as int),
                self.collected == old(self).collected + burst_red(old(self).grid@, hit@, i as int),
                0 <= burst_red(old(self).grid@, hit@, i as int) <= i,
                forall|j: int| 0 <= j < i ==> #[trigger] self.grid@[j] == (if hit@[j] && old(self).grid@[j] is Some {
                    None
                } else {
                    old(self).grid@[j]
                }),
                forall|j: int| 0 <= j < i ==> #[trigger] self.frost@[j] == (if hit@[j] && old(self).grid@[j] is Some
                    && old(self).frost@[j] > 0 { (old(self).frost@[j] - 1) as u8 } else { old(self).frost@[j] }),
            decreases LEN - i,
        {
            if hit[i] {
                if let Some(c) = self.grid[i] {
                    cleared.push(i);
                    let fr = self.frost[i];
                    self.frost.set(i, if fr > 0 { fr - 1 } else { 0 });
                    if c.color == 0 {
                        self.collected = self.collected + 1;
                    }
                    self.grid.set(i, None);
                }
            }
            i += 1;
        }
        cleared
    }

    /// Swap `a` and `b`. The swap counts when the game is not over, the cells are neighbors
    /// holding candies, and the swap sets off a special combination or lines up three; a swap
    /// that does not count is undone and costs nothing. A counted swap spends a move and
    /// resolves completely: lines and specials burst, frosting thaws by a layer, candies fall
    /// and refill, and chains repeat (at most 64 times) until the board has no line left; a
    /// board without a move is dealt again.
    pub fn swap(&mut self, a: usize, b: usize) -> (turn: Turn)
        requires
            old(self).wf(),
            old(self).score <= u32::MAX - MAX_TURN_POINTS,
            old(self).collected <= u32::MAX - MAX_TURN_COLLECT,
        ensures
            turn.valid == (!old(self).over_spec() && move_at(old(self).grid@, a as int, b as int)),
            !turn.valid ==> final(self).grid@ == old(self).grid@ && final(self).level == old(self).level
                && final(self).frost@ == old(self).frost@ && final(self).moves == old(self).moves
                && final(self).score == old(self).score && final(self).collected == old(self).collected
                && final(self).rng == old(self).rng,
            !turn.valid ==> turn.frames@.len() == (if !old(self).over_spec() && adjacent_spec(a as int, b as int)
                && old(self).grid@[a as int] is Some && old(self).grid@[b as int] is Some { 2int } else { 0int }),
            final(self).wf(),
            turn.valid ==> final(self).level == old(self).level && final(self).moves == old(self).moves - 1
                && old(self).score <= final(self).score <= old(self).score + MAX_TURN_POINTS
                && old(self).collected <= final(self).collected <= old(self).collected + MAX_TURN_COLLECT
                && !has_line(final(self).grid@)
                && forall|i: int| 0 <= i < LEN ==> #[trigger] final(self).frost@[i] <= old(self).frost@[i],
            old(self).playable() ==> final(self).playable(),
            final(self).score == old(self).score + frame_points(turn.frames@),
            forall|k: int| 0 <= k < turn.frames@.len() ==> #[trigger] frame_scored(turn.frames@[k]),
            turn.frames@.len() > 0 ==> turn.frames@[0].phase == Phase::Swap,
            !turn.valid && turn.frames@.len() == 2 ==> turn.frames@[1].phase == Phase::Return,
            turn.valid && holes_ok(old(self).grid@, old(self).level as int) ==> filled(final(self).grid@, final(self).level as int),
            forall|i: int| 0 <= i < LEN ==> #[trigger] final(self).frost@[i] == thawed(old(self).frost@[i], thaw_count(turn.frames@, i)),
            turn.valid ==> turn.frames@.len() >= 2 && first_burst(old(self).grid@, a as int, b as int, turn.frames@[1]),
    {
        let mut out = Turn { valid: false, frames: Vec::new() };
        if self.over() || !Self::adjacent(a, b) || self.grid[a].is_none() || self.grid[b].is_none() {
            return out;
        }
        let ghost g0 = *self;
        let ghost level = self.level as int;
        let ghost colors = stage_spec(level).colors;
        let combo = self.combo(a, b);
        self.exchange(a, b);
        let mut f = self.frame(Phase::Swap, 0);
        f.motion = vec![(a, b), (b, a)];
        out.frames.push(f);
        proof {
            assert(out.frames@.drop_last() =~= Seq::<Frame>::empty());
            assert(frame_points(Seq::<Frame>::empty()) == 0);
            assert(frame_points(out.frames@) == frame_points(out.frames@.drop_last()) + out.frames@.last().points);
            assert(frame_points(out.frames@) == 0);
            assert(frame_scored(out.frames@[0]));
            assert forall|i: int| 0 <= i < LEN implies #[trigger] self.frost@[i] == thawed(g0.frost@[i], thaw_count(out.frames@, i)) by {
                assert(thaw_count(Seq::<Frame>::empty(), i) == 0);
                assert(thaw_count(out.frames@, i) == thaw_count(out.frames@.drop_last(), i));
            }
        }
        if !combo && self.groups().len() == 0 {
            self.exchange(a, b);
            proof {
                assert(self.grid@ =~= g0.grid@);
            }
            let mut f = self.frame(Phase::Return, 0);
            f.motion = vec![(a, b), (b, a)];
            let ghost fs0 = out.frames@;
            out.frames.push(f);
            proof {
                assert(out.frames@.drop_last() =~= fs0);
                assert(frame_points(out.frames@) == frame_points(fs0) + out.frames@.last().points);
                assert forall|i: int| 0 <= i < LEN implies #[trigger] self.frost@[i] == thawed(g0.frost@[i], thaw_count(out.frames@, i)) by {
                    assert(thaw_count(out.frames@, i) == thaw_count(fs0, i));
                }
            }
            return out;
        }
        self.moves = self.moves - 1;
        out.valid = true;
        let mut forced: Vec<usize> = if combo { self.combo_cells(a, b) } else { Vec::new() };
        proof {
            if !combo {
                assert(forced@ =~= swap_forced(g0.grid@, a as int, b as int));
            }
        }
        let mut chain: u32 = 1;
        let ghost mut fell = false;
        loop
            invariant_except_break
                1 <= chain <= 64,
                !fell ==> chain == 1 && (forced@.len() > 0 || has_line(self.grid@)),
                g0.score <= self.score <= g0.score + (chain - 1) * 14700,
                g0.collected <= self.collected <= g0.collected + (chain - 1) * 49,
            invariant
                out.valid,
                self.wf(),
                self.level as int == level,
                colors == stage_spec(level).colors,
                self.moves == g0.moves - 1,
                g0.score <= u32::MAX - MAX_TURN_POINTS,
                g0.collected <= u32::MAX - MAX_TURN_COLLECT,
                forall|i: int| 0 <= i < LEN ==> #[trigger] self.frost@[i] <= g0.frost@[i],
                forall|k: int| 0 <= k < forced@.len() ==> #[trigger] forced@[k] < LEN,
                sound(g0.grid@, level, colors) ==> sound(self.grid@, level, colors),
                fell ==> (sound(g0.grid@, level, colors) ==> dealt(self.grid@, level, colors)),
                holes_ok(g0.grid@, level) ==> holes_ok(self.grid@, level),
                fell ==> (holes_ok(g0.grid@, level) ==> filled(self.grid@, level)),
                g0.rng != 0 ==> self.rng != 0,
                self.score == g0.score + frame_points(out.frames@),
                forall|i: int| 0 <= i < LEN ==> #[trigger] self.frost@[i] == thawed(g0.frost@[i], thaw_count(out.frames@, i)),
                forall|k: int| 0 <= k < out.frames@.len() ==> #[trigger] frame_scored(out.frames@[k]),
                out.frames@.len() > 0,
                out.frames@[0].phase == Phase::Swap,
                !fell ==> self.grid@ == swap_board(g0.grid@, a as int, b as int) && forced@ == swap_forced(g0.grid@, a as int, b as int)
                    && out.frames@.len() == 1 && chain == 1,
                fell ==> out.frames@.len() >= 2 && first_burst(g0.grid@, a as int, b as int, out.frames@[1]),
                a < LEN,
                b < LEN,
            ensures
                !has_line(self.grid@),
                fell,
                chain <= 64,
                g0.score <= self.score <= g0.score + chain * 14700,
                g0.collected <= self.collected <= g0.collected + chain * 49,
            decreases 64 - chain,
        {
            let runs = self.groups();
            if runs.len() == 0 && forced.len() == 0 {
                break;
            }
            let ghost first = !fell;
            let ghost forced0 = forced@;
            let mut hit: Vec<bool> = vec![false; LEN];
            let mut k: usize = 0;
            while k < forced.len()
                invariant
                    hit@.len() == LEN,
                    forced@ == forced0,
                    k <= forced@.len(),
                    forall|m: int| 0 <= m < forced@.len() ==> #[trigger] forced@[m] < LEN,
                    forall|m: int| 0 <= m < k ==> #[trigger] hit@[forced0[m] as int],
                    forall|i: int| 0 <= i < LEN && #[trigger] hit@[i] ==> marks(forced0)[i],
                decreases forced@.len() - k,
            {
                hit.set(forced[k], true);
                k += 1;
            }
            proof {
                assert forall|i: int| 0 <= i < LEN && #[trigger] marks(forced0)[i] implies hit@[i] by {
                    let m = choose|m: int| 0 <= m < forced0.len() && forced0[m] == i as usize;
                    assert(hit@[forced0[m] as int]);
                }
            }
            forced = Vec::new();
            let mut t: usize = 0;
            while t < runs.len()
                invariant
                    hit@.len() == LEN,
                    forall|m: int| 0 <= m < runs@.len() ==> run_ok(self.grid@, #[trigger] runs@[m]@),
                    covers(marks(forced0), hit@),
                    forall|i: int| 0 <= i < LEN && #[trigger] hit@[i] ==> marks(forced0)[i] || matchable(self.grid@[i]),
                decreases runs@.len() - t,
            {
                let run = &runs[t];
                proof {
                    assert(run_ok(self.grid@, runs@[t as int]@));
                }
                let mut m: usize = 0;
                while m < run.len()
                    invariant
                        hit@.len() == LEN,
                        run_ok(self.grid@, run@),
                        covers(marks(forced0), hit@),
                        forall|i: int| 0 <= i < LEN && #[trigger] hit@[i] ==> marks(forced0)[i] || matchable(self.grid@[i]),
                    decreases run@.len() - m,
                {
                    proof {
                        assert(run@[m as int] < 49 && matchable(self.grid@[run@[m as int] as int]));
                    }
                    hit.set(run[m], true);
                    m += 1;
                }
                t += 1;
            }
            let groups = merge_lines(Ghost(self.grid@), &runs);
            let mut created: Vec<(usize, Candy)> = Vec::new();
            let mut t: usize = 0;
            while t < groups.len()
                invariant
                    self.grid@.len() == LEN,
                    forall|m: int| 0 <= m < runs@.len() ==> run_ok(self.grid@, #[trigger] runs@[m]@),
                    forall|m: int| 0 <= m < groups@.len() ==> cells_ok(self.grid@, #[trigger] groups@[m]@),
                    forall|m: int| 0 <= m < groups@.len() ==> anchored(#[trigger] groups@[m]@, runs@),
                    forall|m: int| 0 <= m < created@.len() ==> #[trigger] created@[m].0 < LEN
                        && matchable(self.grid@[created@[m].0 as int])
                        && created@[m].1.color == self.grid@[created@[m].0 as int]->0.color,
                decreases groups@.len() - t,
            {
                let group = &groups[t];
                proof {
                    assert(cells_ok(self.grid@, groups@[t as int]@));
                    assert(anchored(groups@[t as int]@, runs@));
                }
                match special_of(Ghost(self.grid@), &runs, group) {
                    None => {},
                    Some(special) => {
                        let at = if chain == 1 && holds(group, b) {
                            b
                        } else if chain == 1 && holds(group, a) {
                            a
                        } else {
                            proof {
                                assert(group@.len() > 0) by {
                                    let w = choose|w: int| 0 <= w < runs@.len() && #[trigger] group@.contains(runs@[w]@[0]);
                                }
                            }
                            group[group.len() / 2]
                        };
                        proof {
                            let w = choose|w: int| 0 <= w < group@.len() && group@[w] == at;
                            assert(at < 49 && matchable(self.grid@[group@[w] as int]));
                        }
                        let color = self.grid[at].unwrap().color;
                        created.push((at, Candy { color, special }));
                    },
                }
                t += 1;
            }
            let ghost start = hit@;
            self.set_off(&mut hit);
            let ghost pre_burst = self.grid@;
            let mut f = self.frame(Phase::Burst, chain);
            let ghost fr0 = self.frost@;
            let ghost fsb = out.frames@;
            let cleared = self.burst(&hit);
            let mult: u32 = if chain < 5 { chain } else { 5 };
            let n = cleared.len() as u32;
            proof {
                assert(n * 60 * mult <= 14700) by (nonlinear_arith)
                    requires n <= 49, mult <= 5;
            }
            f.points = n * 60 * mult;
            f.cleared = cleared;
            self.score = self.score + f.points;
            let ghost fs0 = out.frames@;
            out.frames.push(f);
            proof {
                if first {
                    assert(out.frames@[1] == f);
                    assert(mult == 1);
                    assert(n * 60 * mult == n * 60) by (nonlinear_arith)
                        requires mult == 1;
                    assert(f.points == f.cleared@.len() * 60);
                    assert(sets_off(pre_burst, start, hit@));
                    assert(first_burst(g0.grid@, a as int, b as int, out.frames@[1]));
                } else {
                    assert(out.frames@[1] == fs0[1]);
                }
                assert(out.frames@.drop_last() =~= fs0);
                assert(frame_points(out.frames@) == frame_points(fs0) + out.frames@.last().points);
                assert(frame_scored(out.frames@.last()));
                assert forall|i: int| 0 <= i < LEN implies #[trigger] self.frost@[i] == thawed(g0.frost@[i], thaw_count(out.frames@, i)) by {
                    lemma_burst_cells_contains(pre_burst, hit@, LEN as int, i);
                    assert(thaw_count(out.frames@, i) == thaw_count(fs0, i)
                        + if out.frames@.last().cleared@.contains(i as usize) { 1int } else { 0 });
                    assert(fr0[i] == thawed(g0.frost@[i], thaw_count(fs0, i)));
                }
                assert forall|k: int| 0 <= k < out.frames@.len() implies #[trigger] frame_scored(out.frames@[k]) by {
                    if k < fs0.len() {
                        assert(out.frames@[k] == fs0[k]);
                    }
                }
            }
            let ghost mid = *self;
            let mut t: usize = 0;
            while t < created.len()
                invariant
                    self.wf(),
                    self.level as int == level,
                    colors == stage_spec(level).colors,
                    self.frost@ == mid.frost@,
                    self.moves == mid.moves,
                    self.score == mid.score,
                    self.collected == mid.collected,
                    self.rng == mid.rng,
                    forall|m: int| 0 <= m < created@.len() ==> #[trigger] created@[m].0 < LEN
                        && matchable(pre_burst[created@[m].0 as int])
                        && created@[m].1.color == pre_burst[created@[m].0 as int]->0.color,
                    forall|i: int| 0 <= i < LEN ==> (#[trigger] self.grid@[i] == pre_burst[i] || self.grid@[i] is None
                        || exists|m: int| 0 <= m < created@.len() && created@[m].0 == i && self.grid@[i] == Some(created@[m].1)),
                decreases created@.len() - t,
            {
                let (i, c) = created[t];
                let ghost before = self.grid@;
                self.grid.set(i, Some(c));
                proof {
                    assert forall|j: int| 0 <= j < LEN implies (#[trigger] self.grid@[j] == pre_burst[j] || self.grid@[j] is None
                        || exists|m: int| 0 <= m < created@.len() && created@[m].0 == j && self.grid@[j] == Some(created@[m].1)) by {
                        if j == i {
                            assert(created@[t as int].0 == j);
                        } else {
                            assert(self.grid@[j] == before[j]);
                        }
                    }
                }
                t += 1;
            }
            proof {
                if holes_ok(g0.grid@, level) {
                    assert forall|i: int| 0 <= i < 49 && !active_spec(level, i) implies #[trigger] self.grid@[i] is None by {
                        if self.grid@[i] != pre_burst[i] && self.grid@[i] is Some {
                            let m = choose|m: int| 0 <= m < created@.len() && created@[m].0 == i && self.grid@[i] == Some(created@[m].1);
                            assert(pre_burst[created@[m].0 as int] is Some);
                        }
                    }
                }
                if sound(g0.grid@, level, colors) {
                    assert forall|i: int| 0 <= i < 49 && !active_spec(level, i) implies #[trigger] self.grid@[i] is None by {
                        if self.grid@[i] != pre_burst[i] && self.grid@[i] is Some {
                            let m = choose|m: int| 0 <= m < created@.len() && created@[m].0 == i && self.grid@[i] == Some(created@[m].1);
                            assert(pre_burst[created@[m].0 as int] is Some);
                        }
                    }
                    assert forall|i: int| 0 <= i < 49 && #[trigger] self.grid@[i] is Some implies self.grid@[i]->0.color < colors by {
                        if self.grid@[i] != pre_burst[i] {
                            let m = choose|m: int| 0 <= m < created@.len() && created@[m].0 == i && self.grid@[i] == Some(created@[m].1);
                            assert(pre_burst[created@[m].0 as int] is Some);
                        }
                    }
                }
            }
            let ghost before_fall = self.grid@;
            let motion = self.fall();
            proof {
                if sound(g0.grid@, level, colors) {
                    lemma_fall_deals(before_fall, self.grid@, level, colors);
                }
                if holes_ok(g0.grid@, level) {
                    lemma_fall_fills(before_fall, self.grid@, level, colors);
                }
                fell = true;
            }
            let mut f = self.frame(Phase::Fall, chain);
            f.motion = motion;
            let ghost fs1 = out.frames@;
            out.frames.push(f);
            proof {
                assert(out.frames@.drop_last() =~= fs1);
                assert(frame_points(out.frames@) == frame_points(fs1) + out.frames@.last().points);
                assert forall|i: int| 0 <= i < LEN implies #[trigger] self.frost@[i] == thawed(g0.frost@[i], thaw_count(out.frames@, i)) by {
                    assert(thaw_count(out.frames@, i) == thaw_count(fs1, i));
                }
                assert forall|k: int| 0 <= k < out.frames@.len() implies #[trigger] frame_scored(out.frames@[k]) by {
                    if k < fs1.len() {
                        assert(out.frames@[k] == fs1[k]);
                    }
                }
            }
            if chain == 64 {
                self.redeal();
                let ghost fs2 = out.frames@;
                out.frames.push(self.frame(Phase::Shuffle, chain));
                proof {
                    assert(out.frames@.drop_last() =~= fs2);
                assert(frame_points(out.frames@) == frame_points(fs2) + out.frames@.last().points);
                assert forall|i: int| 0 <= i < LEN implies #[trigger] self.frost@[i] == thawed(g0.frost@[i], thaw_count(out.frames@, i)) by {
                    assert(thaw_count(out.frames@, i) == thaw_count(fs2, i));
                }
                    assert forall|k: int| 0 <= k < out.frames@.len() implies #[trigger] frame_scored(out.frames@[k]) by {
                        if k < fs2.len() {
                            assert(out.frames@[k] == fs2[k]);
                        }
                    }
                }
                break;
            }
            chain += 1;
        }
        if self.hint().is_none() && !self.over() {
            self.redeal();
            let ghost fs3 = out.frames@;
            out.frames.push(self.frame(Phase::Shuffle, 0));
            proof {
                assert(out.frames@.drop_last() =~= fs3);
                assert(frame_points(out.frames@) == frame_points(fs3) + out.frames@.last().points);
                assert forall|i: int| 0 <= i < LEN implies #[trigger] self.frost@[i] == thawed(g0.frost@[i], thaw_count(out.frames@, i)) by {
                    assert(thaw_count(out.frames@, i) == thaw_count(fs3, i));
                }
                assert forall|k: int| 0 <= k < out.frames@.len() implies #[trigger] frame_scored(out.frames@[k]) by {
                    if k < fs3.len() {
                        assert(out.frames@[k] == fs3[k]);
                    }
                }
            }
        }
        proof {
            if g0.playable() {
                assert(sound(g0.grid@, level, colors)) by {
                    assert forall|i: int| 0 <= i < 49 && !active_spec(level, i) implies #[trigger] g0.grid@[i] is None by {
                        assert(cell_valid(g0.grid@, g0.frost@, level, i));
                    }
                    assert forall|i: int| 0 <= i < 49 && #[trigger] g0.grid@[i] is Some implies g0.grid@[i]->0.color < colors by {
                        assert(cell_valid(g0.grid@, g0.frost@, level, i));
                    }
                }
                assert forall|i: int| 0 <= i < LEN implies #[trigger] cell_valid(self.grid@, self.frost@, self.level as int, i) by {
                    assert(cell_valid(g0.grid@, g0.frost@, level, i));
                    assert(self.grid@[i] is Some <==> active_spec(level, i));
                }
            }
        }
        out
    }

    /// The lines of three or more the board holds.
    pub fn groups(&self) -> (runs: Vec<Vec<usize>>)
        requires
            self.grid@.len() == LEN,
        ensures
            runs@.len() == 0 <==> !has_line(self.grid@),
            forall|k: int| 0 <= k < runs@.len() ==> run_ok(self.grid@, #[trigger] runs@[k]@),
    {
        runs_of(&self.grid)
    }

    /// Whether swapping `a` and `b` counts; `scratch` is a copy of the board, returned as it was.
    fn try_pair(&self, scratch: &mut Vec<Option<Candy>>, a: usize, b: usize) -> (r: bool)
        requires
            self.grid@.len() == LEN,
            old(scratch)@ == self.grid@,
            a < LEN,
        ensures
            final(scratch)@ == self.grid@,
            r == move_at(self.grid@, a as int, b as int),
    {
        if !Self::adjacent(a, b) || self.grid[a].is_none() || self.grid[b].is_none() {
            return false;
        }
        if self.combo(a, b) {
            return true;
        }
        let x = scratch[a];
        let y = scratch[b];
        scratch.set(a, y);
        scratch.set(b, x);
        proof {
            assert(scratch@ == swapped(self.grid@, a as int, b as int));
        }
        let yes = runs_of(scratch).len() > 0;
        scratch.set(a, x);
        scratch.set(b, y);
        proof {
            assert(scratch@ =~= self.grid@);
        }
        yes
    }

    /// The first move that counts, in the search order: each cell with its right neighbor,
    /// then with the one below.
    pub fn hint(&self) -> (r: Option<(usize, usize)>)
        requires
            self.grid@.len() == LEN,
        ensures
            r is None <==> !has_move(self.grid@),
            r matches Some((a, b)) ==> is_candidate(a as int, b as int) && move_at(self.grid@, a as int, b as int)
                && forall|a2: int, b2: int| is_candidate(a2, b2) && pair_key(a2, b2) < pair_key(a as int, b as int)
                    ==> !#[trigger] move_at(self.grid@, a2, b2),
    {
        let mut scratch = self.grid.clone();
        proof {
            assert(scratch@ =~= self.grid@);
        }
        let mut a: usize = 0;
        while a < LEN
            invariant
                a <= LEN,
                self.grid@.len() == LEN,
                scratch@ == self.grid@,
                forall|a2: int, b2: int| is_candidate(a2, b2) && pair_key(a2, b2) < 2 * a
                    ==> !#[trigger] move_at(self.grid@, a2, b2),
            decreases LEN - a,
        {
            if self.try_pair(&mut scratch, a, a + 1) {
                return Some((a, a + 1));
            }
            if self.try_pair(&mut scratch, a, a + N) {
                return Some((a, a + N));
            }
            a += 1;
        }
        None
    }

    /// Whether dealing color `c` into cell `i` completes a line.
    fn forbids(&self, i: usize, c: u8) -> (r: bool)
        requires
            self.grid@.len() == LEN,
            i < LEN,
        ensures
            r == forbidden(self.grid@, i as int, c),
    {
        let left = i % N >= 2 && self.color_at(i - 1, c) && self.color_at(i - 2, c);
        let up = i >= 2 * N && self.color_at(i - N, c) && self.color_at(i - 2 * N, c);
        left || up
    }

    fn color_at(&self, j: usize, c: u8) -> (r: bool)
        requires
            j < self.grid@.len(),
        ensures
            r == color_is(self.grid@, j as int, c),
    {
        match self.grid[j] {
            Some(x) => x.color == c,
            None => false,
        }
    }

    /// A fresh board: random colors on the active cells, each stepped to the next color while
    /// it would complete a line.
    fn deal(&mut self)
        requires
            old(self).wf(),
        ensures
            final(self).wf(),
            dealt(final(self).grid@, final(self).level as int, stage_spec(final(self).level as int).colors),
            forall|i: int| 0 <= i < LEN && #[trigger] final(self).grid@[i] is Some ==> final(self).grid@[i]->0.special == Special::Plain,
            !has_line(final(self).grid@),
            final(self).level == old(self).level,
            final(self).frost@ == old(self).frost@,
            final(self).moves == old(self).moves,
            final(self).score == old(self).score,
            final(self).collected == old(self).collected,
            old(self).rng != 0 ==> final(self).rng != 0,
            (final(self).grid@, final(self).rng) == deal_from(old(self).level as int, old(self).rng),
    {
        let mut i: usize = 0;
        while i < LEN
            invariant
                i <= LEN,
                self.wf(),
                self.rng == old(self).rng,
                forall|j: int| 0 <= j < i ==> #[trigger] self.grid@[j] is None,
                self.level == old(self).level,
                self.frost@ == old(self).frost@,
                self.moves == old(self).moves,
                self.score == old(self).score,
                self.collected == old(self).collected,
            decreases LEN - i,
        {
            self.grid.set(i, None);
            i += 1;
        }
        let colors = stage(self.level).colors;
        let mut i: usize = 0;
        proof {
            assert(self.grid@ =~= Seq::new(49, |i: int| None::<Candy>));
            assert(!has_line(self.grid@)) by {
                if has_line(self.grid@) {
                    let (v, lane, q) = choose|v: bool, lane: int, q: int| #[trigger] triple(self.grid@, v, lane, q);
                    assert(self.grid@[lane_cell(v, lane, q)] is None);
                }
            }
        }
        while i < LEN
            invariant
                i <= LEN,
                self.wf(),
                colors == stage_spec(self.level as int).colors,
                forall|j: int| i <= j < LEN ==> #[trigger] self.grid@[j] is None,
                forall|j: int| 0 <= j < i ==> (#[trigger] self.grid@[j] is Some <==> active_spec(self.level as int, j)),
                forall|j: int| 0 <= j < i && #[trigger] self.grid@[j] is Some ==> self.grid@[j]->0.color < colors
                    && self.grid@[j]->0.special == Special::Plain,
                !has_line(self.grid@),
                self.level == old(self).level,
                self.frost@ == old(self).frost@,
                self.moves == old(self).moves,
                self.score == old(self).score,
                self.collected == old(self).collected,
                old(self).rng != 0 ==> self.rng != 0,
                deal_cells(self.level as int, self.grid@, self.rng, i as int) == deal_from(old(self).level as int, old(self).rng),
            decreases LEN - i,
        {
            let ghost g_i = self.grid@;
            let ghost r_i = self.rng;
            if active(self.level, i) {
                let mut c = self.random();
                let ghost c0 = c;
                let mut k: usize = 0;
                while self.forbids(i, c)
                    invariant
                        i < LEN,
                        self.grid@.len() == LEN,
                        colors == 5 || colors == 6,
                        c0 < colors,
                        c < colors,
                        k <= 2,
                        k == 0 ==> c == c0,
                        k == 1 ==> c == (if c0 + 1 < colors { c0 + 1 } else { 0 }),
                        k == 2 ==> c == (if c0 + 2 < colors { c0 + 2 } else { c0 + 2 - colors }),
                        k >= 1 ==> forbidden(self.grid@, i as int, c0),
                        k >= 2 ==> forbidden(self.grid@, i as int, (if c0 + 1 < colors { c0 + 1 } else { 0 }) as u8),
                        self.grid@ == g_i,
                        k == 1 ==> c == next_color(c0, colors),
                        k == 2 ==> c == next_color(next_color(c0, colors), colors),
                    decreases 2 - k,
                {
                    proof {
                        if k == 2 {
                            // Three different colors cannot all be blocked: only the left and the
                            // upper neighbor's colors are.
                            let l = self.grid@[i - 1]->0.color;
                            let u = self.grid@[i - 7]->0.color;
                            assert(forbidden(self.grid@, i as int, c) ==> (c == l || c == u));
                            assert(forbidden(self.grid@, i as int, c0) ==> (c0 == l || c0 == u));
                        }
                    }
                    c = if c + 1 < colors { c + 1 } else { 0 };
                    k += 1;
                }
                let ghost before = self.grid@;
                proof {
                    lemma_place_keeps_no_line(before, i as int, Candy { color: c, special: Special::Plain });
                    assert(c == dealt_color(g_i, i as int, c0, colors));
                }
                self.grid.set(i, Some(Candy::plain(c)));
                proof {
                    assert(self.grid@ == g_i.update(i as int, Some(Candy { color: c, special: Special::Plain })));
                }
            }
            i += 1;
        }
    }

    /// Deal until the board offers a move. The generator's states repeat, so a search that
    /// has tried `u64::MAX` deals without finding a move would never find one; it stops there
    /// and reports `false`.
    fn redeal(&mut self) -> (found: bool)
        requires
            old(self).wf(),
        ensures
            final(self).wf(),
            dealt(final(self).grid@, final(self).level as int, stage_spec(final(self).level as int).colors),
            forall|i: int| 0 <= i < LEN && #[trigger] final(self).grid@[i] is Some ==> final(self).grid@[i]->0.special == Special::Plain,
            !has_line(final(self).grid@),
            found ==> has_move(final(self).grid@),
            final(self).level == old(self).level,
            final(self).frost@ == old(self).frost@,
            final(self).moves == old(self).moves,
            final(self).score == old(self).score,
            final(self).collected == old(self).collected,
            old(self).rng != 0 ==> final(self).rng != 0,
            (final(self).grid@, final(self).rng) == redeal_from(old(self).level as int, old(self).rng, 0),
    {
        let mut tries: u64 = 0;
        loop
            invariant
                redeal_from(self.level as int, self.rng, tries as int) == redeal_from(old(self).level as int, old(self).rng, 0),
                self.wf(),
                self.level == old(self).level,
                self.frost@ == old(self).frost@,
                self.moves == old(self).moves,
                self.score == old(self).score,
                self.collected == old(self).collected,
                old(self).rng != 0 ==> self.rng != 0,
            decreases u64::MAX - tries,
        {
            let ghost r0 = self.rng;
            self.deal();
            proof {
                assert(redeal_from(self.level as int, r0, tries as int) == (if has_move(self.grid@) || tries >= u64::MAX {
                    (self.grid@, self.rng)
                } else {
                    redeal_from(self.level as int, self.rng, tries + 1)
                }));
            }
            if self.hint().is_some() {
                return true;
            }
            if tries == u64::MAX {
                return false;
            }
            tries += 1;
        }
    }

    /// The next color from the game's generator.
    fn random(&mut self) -> (c: u8)
        requires
            old(self).level < LEVELS,
        ensures
            final(self).rng == xorshift(old(self).rng),
            c == final(self).rng % (stage_spec(old(self).level as int).colors as u64),
            c < stage_spec(old(self).level as int).colors,
            old(self).rng != 0 ==> final(self).rng != 0,
            final(self).level == old(self).level,
            final(self).grid@ == old(self).grid@,
            final(self).frost@ == old(self).frost@,
            final(self).moves == old(self).moves,
            final(self).score == old(self).score,
            final(self).collected == old(self).collected,
    {
        proof {
            if self.rng != 0 {
                lemma_xorshift_nonzero(self.rng);
            }
        }
        self.rng = xorshift_next(self.rng);
        let colors = stage(self.level).colors as u64;
        (self.rng % colors) as u8
    }
}

impl Save {
    /// A new save: the first stage, no stars yet.
    pub fn new(seed: u64) -> (s: Self)
        ensures
            s.game.wf(),
            s.game.level == 0,
            s.game.moves == stage_spec(0).moves,
            s.game.score == 0,
            s.game.collected == 0,
            s.game.rng != 0,
            forall|i: int| 0 <= i < LEN ==> #[trigger] s.game.frost@[i] == frost_spec(0, i),
            dealt(s.game.grid@, 0, stage_spec(0).colors),
            !has_line(s.game.grid@),
            forall|i: int| 0 <= i < LEVELS ==> #[trigger] s.stars@[i] == 0,
    {
        Save { game: Game::new(0, seed), stars: [0, 0, 0, 0, 0, 0] }
    }

    pub open spec fn valid_spec(&self) -> bool {
        let g = self.game;
        &&& g.level < LEVELS
        &&& g.grid@.len() == LEN
        &&& g.frost@.len() == LEN
        &&& g.rng != 0
        &&& g.moves <= stage_spec(g.level as int).moves
        &&& g.score < 10_000_000
        &&& forall|k: int| 0 <= k < LEVELS ==> #[trigger] self.stars@[k] <= 3
        &&& forall|i: int| 0 <= i < LEN ==> #[trigger] cell_valid(g.grid@, g.frost@, g.level as int, i)
        &&& !has_line(g.grid@)
    }

    /// The save, when it holds a position the game could have reached: a stage, a full board
    /// with candies exactly on the active cells in the stage's colors, frosting of at most
    /// two and only on active cells, no unresolved line, sane counters and stars.
    pub fn valid(self) -> (r: Option<Self>)
        ensures
            r is Some <==> self.valid_spec(),
            r matches Some(s) ==> s == self,
    {
        let g = &self.game;
        if !(g.level < LEVELS && g.grid.len() == LEN && g.frost.len() == LEN && g.rng != 0) {
            return None;
        }
        let st = stage(g.level);
        if !(g.moves <= st.moves && g.score < 10_000_000) {
            return None;
        }
        let mut k: usize = 0;
        while k < LEVELS
            invariant
                k <= LEVELS,
                forall|j: int| 0 <= j < k ==> #[trigger] self.stars@[j] <= 3,
            decreases LEVELS - k,
        {
            if self.stars[k] > 3 {
                return None;
            }
            k += 1;
        }
        let mut i: usize = 0;
        while i < LEN
            invariant
                i <= LEN,
                g == &self.game,
                g.level < LEVELS,
                g.grid@.len() == LEN,
                g.frost@.len() == LEN,
                st == stage_spec(g.level as int),
                forall|j: int| 0 <= j < i ==> #[trigger] cell_valid(g.grid@, g.frost@, g.level as int, j),
            decreases LEN - i,
        {
            let on = active(g.level, i);
            let ok = match g.grid[i] {
                Some(c) => on && c.color < st.colors,
                None => !on,
            } && g.frost[i] <= 2 && (on || g.frost[i] == 0);
            if !ok {
                assert(!cell_valid(g.grid@, g.frost@, g.level as int, i as int));
                return None;
            }
            i += 1;
        }
        if g.groups().len() > 0 {
            return None;
        }
        Some(self)
    }
    /// Stage `level` is open: the first always, each other once the one before has a star.
    pub fn unlocked(&self, level: usize) -> (b: bool)
        requires
            level <= LEVELS,
        ensures
            b == (level == 0 || self.stars@[level - 1] > 0),
    {
        level == 0 || self.stars[level - 1] > 0
    }

    /// The stars after recording: a won level keeps the better of its stars and the game's.
    pub open spec fn recorded_stars(&self) -> Seq<u8> {
        if self.game.won_spec() {
            let i = self.game.level as int;
            let s = self.game.stars_spec();
            self.stars@.update(i, if self.stars@[i] >= s { self.stars@[i] } else { s })
        } else {
            self.stars@
        }
    }

    /// Keep the best stars of a won level.
    pub fn record(&mut self)
        requires
            old(self).game.level < LEVELS,
        ensures
            final(self).game == old(self).game,
            final(self).stars@ == old(self).recorded_stars(),
    {
        if self.game.won() {
            let i = self.game.level;
            let s = self.game.stars();
            if self.stars[i] < s {
                self.stars[i] = s;
            }
        }
    }
}

/// Recording never lowers the stars of any level, and changes only the played level's.
pub proof fn law_recorded_stars_never_drop(save: Save)
    requires
        save.game.level < LEVELS,
    ensures
        forall|k: int| 0 <= k < 6 ==> #[trigger] save.recorded_stars()[k] >= save.stars@[k],
        forall|k: int| 0 <= k < 6 && k != save.game.level ==> #[trigger] save.recorded_stars()[k] == save.stars@[k],
        save.game.won_spec() ==> save.recorded_stars()[save.game.level as int] >= save.game.stars_spec(),
{
}

/// The neighbor a drag from `from` points at: the next cell along a row when `horizontal`,
/// along a column otherwise, forward (right or down) or back; `None` past the grid's ends.
pub open spec fn pointed_at(from: int, horizontal: bool, forward: bool) -> Option<usize> {
    let step = if horizontal { 1int } else { N as int };
    let to = if forward { from + step } else { from - step };
    if 0 <= to <= usize::MAX { Some(to as usize) } else { None }
}

/// The cell a drag from `from` previews a swap with, if any: the neighbor it points at, when
/// the finger is still over the board and has gone far enough but not too far, the two cells
/// are neighbors (no wrapping into the next row), and the neighbor holds a piece.
pub fn preview_target(game: &Game, from: usize, horizontal: bool, forward: bool, inside: bool, in_reach: bool) -> (t: Option<usize>)
    requires
        game.wf(),
    ensures
        t == (match pointed_at(from as int, horizontal, forward) {
            Some(to) => if inside && in_reach && adjacent_spec(from as int, to as int) && game.grid@[to as int] is Some {
                Some(to)
            } else {
                None
            },
            None => None,
        }),
{
    let to = if horizontal {
        if forward { from.checked_add(1) } else { from.checked_sub(1) }
    } else if forward {
        from.checked_add(N)
    } else {
        from.checked_sub(N)
    };
    match to {
        Some(to) => {
            if inside && in_reach && Game::adjacent(from, to) && game.grid[to].is_some() {
                Some(to)
            } else {
                None
            }
        },
        None => None,
    }
}

} // verus!
