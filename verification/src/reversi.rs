//! Reversi rules on two 64-bit boards, and a bounded, deterministic computer opponent.
use vstd::prelude::*;
use crate::xorshift::{xorshift, xorshift_next};

verus! {

/// The discs of a side and whose turn it is.
#[derive(Clone, Copy, Debug, PartialEq, Eq, Structural)]
pub struct Board {
    pub black: u64,
    pub white: u64,
    /// true = black
    pub turn: bool,
}

impl Default for Board {
    fn default() -> (b: Board)
        ensures
            b.black == (1u64 << 28u64) | (1u64 << 35u64),
            b.white == (1u64 << 27u64) | (1u64 << 36u64),
            b.turn,
    {
        Board { black: (1u64 << 28u64) | (1u64 << 35u64), white: (1u64 << 27u64) | (1u64 << 36u64), turn: true }
    }
}

/// How many ones `x` has in binary.
pub open spec fn popcount(x: u64) -> nat
    decreases x,
{
    if x == 0 {
        0
    } else {
        popcount(x / 2) + (x % 2) as nat
    }
}

/// A number below `2^k` has at most `k` ones.
proof fn lemma_popcount_below(x: u64, k: nat)
    requires
        x < vstd::arithmetic::power2::pow2(k),
    ensures
        popcount(x) <= k,
    decreases k,
{
    if x > 0 {
        vstd::arithmetic::power2::lemma2_to64();
        assert(k > 0);
        vstd::arithmetic::power2::lemma_pow2_unfold(k);
        lemma_popcount_below(x / 2, (k - 1) as nat);
    }
}

/// The number of ones in `x`, one binary digit at a time.
fn count_ones(x: u64) -> (n: u32)
    ensures
        n == popcount(x),
{
    proof {
        vstd::arithmetic::power2::lemma2_to64();
        lemma_popcount_below(x, 64);
    }
    let mut y = x;
    let mut n: u32 = 0;
    while y > 0
        invariant
            n + popcount(y) == popcount(x),
            popcount(x) <= 64,
        decreases y,
    {
        n = n + (y % 2) as u32;
        y = y / 2;
    }
    n
}

/// Square `p` holds a disc of `bits`.
pub open spec fn has(bits: u64, p: int) -> bool {
    bits & (1u64 << (p as u64)) != 0
}

/// The eight directions a capture runs in, as (dx, dy).
pub open spec fn dir(k: int) -> (int, int) {
    if k == 0 {
        (-1, -1)
    } else if k == 1 {
        (0, -1)
    } else if k == 2 {
        (1, -1)
    } else if k == 3 {
        (-1, 0)
    } else if k == 4 {
        (1, 0)
    } else if k == 5 {
        (-1, 1)
    } else if k == 6 {
        (0, 1)
    } else {
        (1, 1)
    }
}

/// How many squares are left from (x, y) to the edge in direction (dx, dy).
pub open spec fn steps_left(x: int, y: int, dx: int, dy: int) -> int {
    if dx == 1 {
        8 - x
    } else if dx == -1 {
        x + 1
    } else if dy == 1 {
        8 - y
    } else {
        y + 1
    }
}

/// Walking from (x, y) in direction (dx, dy) over `other`'s discs, with `acc` the squares
/// passed so far: `Some` of all of them when a disc of `own` closes the run, `None` when an
/// empty square or the board's edge does.
pub open spec fn run_from(own: u64, other: u64, x: int, y: int, dx: int, dy: int, acc: u64) -> Option<u64>
    decreases steps_left(x, y, dx, dy),
{
    if !(-1 <= dx <= 1 && -1 <= dy <= 1) || (dx == 0 && dy == 0) || !(0 <= x < 8 && 0 <= y < 8) {
        None
    } else if has(other, y * 8 + x) {
        run_from(own, other, x + dx, y + dy, dx, dy, acc | (1u64 << ((y * 8 + x) as u64)))
    } else if has(own, y * 8 + x) {
        Some(acc)
    } else {
        None
    }
}

/// The discs captured in the first `k` directions from `square`, for `own` against `other`.
pub open spec fn captured(own: u64, other: u64, square: int, k: int) -> u64
    decreases k,
{
    if k <= 0 {
        0
    } else {
        let prev = captured(own, other, square, k - 1);
        match run_from(own, other, square % 8 + dir(k - 1).0, square / 8 + dir(k - 1).1, dir(k - 1).0, dir(k - 1).1, 0) {
            Some(r) => prev | r,
            None => prev,
        }
    }
}

impl Board {
    pub open spec fn discs_spec(self, black: bool) -> u64 {
        if black { self.black } else { self.white }
    }

    /// The discs a move on `square` by `black` captures: every straight run of the other
    /// side's discs that a disc of the mover's closes. None on an occupied or off-board square.
    pub open spec fn flips_spec(self, square: int, black: bool) -> u64 {
        if square >= 64 || square < 0 || (self.black | self.white) & (1u64 << (square as u64)) != 0 {
            0
        } else {
            captured(self.discs_spec(black), self.discs_spec(!black), square, 8)
        }
    }

    /// The squares below `n` where `black` may move, ascending.
    pub open spec fn legal_upto(self, black: bool, n: int) -> Seq<usize>
        decreases n,
    {
        if n <= 0 {
            Seq::empty()
        } else {
            self.legal_upto(black, n - 1) + if self.flips_spec(n - 1, black) != 0 {
                seq![(n - 1) as usize]
            } else {
                Seq::empty()
            }
        }
    }

    pub open spec fn legal_spec(self, black: bool) -> Seq<usize> {
        self.legal_upto(black, 64)
    }

    pub open spec fn finished_spec(self) -> bool {
        self.legal_spec(true).len() == 0 && self.legal_spec(false).len() == 0
    }

    /// The board after `square` is played with `flips` captured.
    pub open spec fn after(self, square: int, flips: u64) -> Board {
        let added = flips | (1u64 << (square as u64));
        let moved = if self.turn {
            Board { black: self.black | added, white: self.white & !flips, turn: !self.turn }
        } else {
            Board { white: self.white | added, black: self.black & !flips, turn: !self.turn }
        };
        if moved.legal_spec(moved.turn).len() == 0 {
            Board { turn: self.turn, ..moved }
        } else {
            moved
        }
    }

    pub fn discs(self, black: bool) -> (d: u64)
        ensures
            d == self.discs_spec(black),
    {
        if black { self.black } else { self.white }
    }

    pub fn count(self, black: bool) -> (n: u32)
        ensures
            n == popcount(self.discs_spec(black)),
    {
        count_ones(self.discs(black))
    }

    pub fn flips(self, square: usize, black: bool) -> (f: u64)
        ensures
            f == self.flips_spec(square as int, black),
    {
        if square >= 64 || (self.black | self.white) & (1u64 << square) != 0 {
            return 0;
        }
        let own = self.discs(black);
        let other = self.discs(!black);
        let mut flips: u64 = 0;
        let dirs: [(i32, i32); 8] = [(-1, -1), (0, -1), (1, -1), (-1, 0), (1, 0), (-1, 1), (0, 1), (1, 1)];
        let mut k: usize = 0;
        while k < 8
            invariant
                k <= 8,
                square < 64,
                own == self.discs_spec(black) && other == self.discs_spec(!black),
                flips == captured(own, other, square as int, k as int),
                forall|m: int| 0 <= m < 8 ==> (#[trigger] dirs@[m]).0 == dir(m).0 && dirs@[m].1 == dir(m).1,
            decreases 8 - k,
        {
            let (dx, dy) = dirs[k];
            let mut x: i32 = (square % 8) as i32 + dx;
            let mut y: i32 = (square / 8) as i32 + dy;
            let mut ray: u64 = 0;
            let ghost start = run_from(own, other, x as int, y as int, dx as int, dy as int, 0);
            let mut closed = false;
            let mut stop = false;
            while !stop && 0 <= x && x < 8 && 0 <= y && y < 8
                invariant
                    -1 <= dx <= 1 && -1 <= dy <= 1 && !(dx == 0 && dy == 0),
                    -1 <= x <= 8 && -1 <= y <= 8,
                    !stop ==> !closed && start == run_from(own, other, x as int, y as int, dx as int, dy as int, ray),
                    stop && closed ==> start == Some(ray),
                    stop && !closed ==> start is None,
                decreases steps_left(x as int, y as int, dx as int, dy as int), (if stop { 0int } else { 1int }),
            {
                let bit: u64 = 1u64 << ((y * 8 + x) as u64);
                if other & bit != 0 {
                    ray = ray | bit;
                    x += dx;
                    y += dy;
                } else {
                    if own & bit != 0 {
                        closed = true;
                    }
                    stop = true;
                }
            }
            if closed {
                flips = flips | ray;
            }
            proof {
                assert(closed ==> start == Some(ray));
                assert(!closed ==> start is None);
            }
            k += 1;
        }
        flips
    }
}

impl Board {
    pub fn legal(self, black: bool) -> (v: Vec<usize>)
        ensures
            v@ == self.legal_spec(black),
    {
        let mut v: Vec<usize> = Vec::new();
        let mut i: usize = 0;
        while i < 64
            invariant
                i <= 64,
                v@ == self.legal_upto(black, i as int),
            decreases 64 - i,
        {
            if self.flips(i, black) != 0 {
                v.push(i);
            }
            i += 1;
            proof {
                let t = if self.flips_spec(i - 1, black) != 0 { seq![(i - 1) as usize] } else { Seq::<usize>::empty() };
                assert(v@ =~= self.legal_upto(black, i as int - 1) + t);
            }
        }
        v
    }

    pub fn finished(self) -> (f: bool)
        ensures
            f == self.finished_spec(),
    {
        self.legal(true).len() == 0 && self.legal(false).len() == 0
    }

    /// Return the captured discs. A forced pass leaves the turn with the mover.
    pub fn play(&mut self, square: usize) -> (r: Option<u64>)
        ensures
            old(self).flips_spec(square as int, old(self).turn) == 0 ==> r is None && *final(self) == *old(self),
            old(self).flips_spec(square as int, old(self).turn) != 0 ==> {
                &&& r == Some(old(self).flips_spec(square as int, old(self).turn))
                &&& *final(self) == old(self).after(square as int, old(self).flips_spec(square as int, old(self).turn))
            },
    {
        let flips = self.flips(square, self.turn);
        if flips == 0 {
            return None;
        }
        let added = flips | (1u64 << square);
        if self.turn {
            self.black = self.black | added;
            self.white = self.white & !flips;
        } else {
            self.white = self.white | added;
            self.black = self.black & !flips;
        }
        self.turn = !self.turn;
        if self.legal(self.turn).len() == 0 {
            self.turn = !self.turn;
        }
        Some(flips)
    }
}

/// Adding one of `o`'s squares to a set inside `o` keeps it inside.
proof fn lemma_within_add(acc: u64, o: u64, p: u64)
    requires
        p < 64,
        acc & !o == 0,
        o & (1u64 << p) != 0,
    ensures
        (acc | (1u64 << p)) & !o == 0,
{
    assert((acc | (1u64 << p)) & !o == 0) by (bit_vector)
        requires p < 64, acc & !o == 0, o & (1u64 << p) != 0;
}

/// Two sets inside `o` join inside it, and the empty set is inside.
proof fn lemma_within_join(a: u64, b: u64, o: u64)
    ensures
        0u64 & !o == 0,
        a & !o == 0 && b & !o == 0 ==> (a | b) & !o == 0,
{
    assert(0u64 & !o == 0 && (a & !o == 0 && b & !o == 0 ==> (a | b) & !o == 0)) by (bit_vector);
}

/// A run's squares are all the other side's.
proof fn lemma_run_within(own: u64, other: u64, x: int, y: int, dx: int, dy: int, acc: u64)
    requires
        acc & !other == 0,
    ensures
        run_from(own, other, x, y, dx, dy, acc) matches Some(r) ==> r & !other == 0,
    decreases steps_left(x, y, dx, dy),
{
    if !(-1 <= dx <= 1 && -1 <= dy <= 1) || (dx == 0 && dy == 0) || !(0 <= x < 8 && 0 <= y < 8) {
    } else if has(other, y * 8 + x) {
        lemma_within_add(acc, other, (y * 8 + x) as u64);
        lemma_run_within(own, other, x + dx, y + dy, dx, dy, acc | (1u64 << ((y * 8 + x) as u64)));
    }
}

/// The discs captured are all the other side's.
proof fn lemma_captured_within(own: u64, other: u64, square: int, k: int)
    ensures
        captured(own, other, square, k) & !other == 0,
    decreases k,
{
    lemma_within_join(0, 0, other);
    if k > 0 {
        lemma_captured_within(own, other, square, k - 1);
        let d = dir(k - 1);
        lemma_run_within(own, other, square % 8 + d.0, square / 8 + d.1, d.0, d.1, 0);
        match run_from(own, other, square % 8 + d.0, square / 8 + d.1, d.0, d.1, 0) {
            Some(r) => lemma_within_join(captured(own, other, square, k - 1), r, other),
            None => {},
        }
    }
}

/// Moving onto an empty square and turning over discs of the other side keeps the two sides
/// apart, and the squares held are those held before and the new one.
proof fn lemma_move_bits(own: u64, other: u64, f: u64, s: u64)
    requires
        own & other == 0,
        f & !other == 0,
        (own | other) & s == 0,
    ensures
        (own | (f | s)) & (other & !f) == 0,
        (other & !f) & (own | (f | s)) == 0,
        (own | (f | s)) | (other & !f) == (own | other) | s,
        (other & !f) | (own | (f | s)) == (own | other) | s,
{
    assert((own | (f | s)) & (other & !f) == 0 && (other & !f) & (own | (f | s)) == 0
        && (own | (f | s)) | (other & !f) == (own | other) | s
        && (other & !f) | (own | (f | s)) == (own | other) | s) by (bit_vector)
        requires own & other == 0, f & !other == 0, (own | other) & s == 0;
}

/// And and or do not care which side comes first.
proof fn lemma_commute(a: u64, b: u64)
    ensures
        a & b == b & a,
        a | b == b | a,
{
    assert(a & b == b & a && a | b == b | a) by (bit_vector);
}

/// Setting a clear bit adds one to the count of ones.
proof fn lemma_popcount_add(x: u64, p: u64)
    requires
        p < 64,
        x & (1u64 << p) == 0,
    ensures
        popcount(x | (1u64 << p)) == popcount(x) + 1,
    decreases p,
{
    let y = x | (1u64 << p);
    if p == 0 {
        assert(y / 2 == x / 2 && y % 2 == 1 && x % 2 == 0 && y != 0) by (bit_vector)
            requires x & (1u64 << 0u64) == 0, y == x | (1u64 << 0u64);
    } else {
        assert(y / 2 == (x / 2) | (1u64 << ((p - 1) as u64)) && y % 2 == x % 2 && y != 0
            && (x / 2) & (1u64 << ((p - 1) as u64)) == 0) by (bit_vector)
            requires x & (1u64 << p) == 0, y == x | (1u64 << p), 0 < p < 64;
        lemma_popcount_add(x / 2, (p - 1) as u64);
    }
}

/// A legal move on a board where no square is held by both sides keeps it so, and adds
/// exactly one disc to the board.
pub proof fn law_a_move_adds_one_disc(b: Board, square: int)
    requires
        b.black & b.white == 0,
        b.flips_spec(square, b.turn) != 0,
    ensures
        b.after(square, b.flips_spec(square, b.turn)).black & b.after(square, b.flips_spec(square, b.turn)).white == 0,
        popcount(b.after(square, b.flips_spec(square, b.turn)).black | b.after(square, b.flips_spec(square, b.turn)).white)
            == popcount(b.black | b.white) + 1,
{
    let f = b.flips_spec(square, b.turn);
    let s = 1u64 << (square as u64);
    let own = b.discs_spec(b.turn);
    let other = b.discs_spec(!b.turn);
    lemma_captured_within(own, other, square, 8);
    lemma_commute(b.black, b.white);
    lemma_move_bits(own, other, f, s);
    lemma_popcount_add(b.black | b.white, square as u64);
}

/// A square's worth to the computer: corners most, the squares beside them least, then edges.
pub open spec fn weight_spec(i: int) -> int {
    let (x, y) = (i % 8, i / 8);
    if (x == 0 || x == 7) && (y == 0 || y == 7) {
        100
    } else if (x <= 1 || x >= 6) && (y <= 1 || y >= 6) {
        -25
    } else if x == 0 || x == 7 || y == 0 || y == 7 {
        8
    } else {
        1
    }
}

fn square_weight(i: usize) -> (w: i32)
    ensures
        w == weight_spec(i as int),
{
    let (x, y) = (i % 8, i / 8);
    if (x == 0 || x == 7) && (y == 0 || y == 7) {
        100
    } else if (x <= 1 || x >= 6) && (y <= 1 || y >= 6) {
        -25
    } else if x == 0 || x == 7 || y == 0 || y == 7 {
        8
    } else {
        1
    }
}

/// The squares of `s` worth `w`, in their order.
pub open spec fn worth(s: Seq<usize>, w: int) -> Seq<usize>
    decreases s.len(),
{
    if s.len() == 0 {
        Seq::empty()
    } else {
        worth(s.drop_last(), w) + if weight_spec(s.last() as int) == w { seq![s.last()] } else { Seq::empty() }
    }
}

/// `s` ordered by worth, best first, squares of equal worth in their order.
pub open spec fn by_worth(s: Seq<usize>) -> Seq<usize> {
    worth(s, 100) + worth(s, 8) + worth(s, 1) + worth(s, -25)
}

/// Append the squares of `s` worth `w`.
fn push_worth(out: &mut Vec<usize>, s: &Vec<usize>, w: i32)
    ensures
        final(out)@ == old(out)@ + worth(s@, w as int),
{
    let ghost o0 = out@;
    let mut k: usize = 0;
    while k < s.len()
        invariant
            k <= s@.len(),
            out@ == o0 + worth(s@.take(k as int), w as int),
        decreases s@.len() - k,
    {
        proof {
            assert(s@.take(k as int + 1).drop_last() =~= s@.take(k as int));
        }
        if square_weight(s[k]) == w {
            out.push(s[k]);
        }
        k += 1;
        proof {
            let t = if weight_spec(s@[k as int - 1] as int) == w { seq![s@[k as int - 1]] } else { Seq::<usize>::empty() };
            assert(worth(s@.take(k as int), w as int) == worth(s@.take(k as int - 1), w as int) + t);
            assert(out@ =~= o0 + worth(s@.take(k as int), w as int));
        }
    }
    proof {
        assert(s@.take(k as int) =~= s@);
    }
}

/// The moves in a stable order by worth, best first: the search looks at corners first.
fn order_by_worth(moves: &Vec<usize>) -> (out: Vec<usize>)
    ensures
        out@ == by_worth(moves@),
{
    let mut out: Vec<usize> = Vec::new();
    push_worth(&mut out, moves, 100);
    push_worth(&mut out, moves, 8);
    push_worth(&mut out, moves, 1);
    push_worth(&mut out, moves, -25);
    proof {
        assert(out@ =~= by_worth(moves@));
    }
    out
}

/// The positional score of the first `n` squares for `side`: a disc's worth for each of its
/// own, less it for each of the other side's.
pub open spec fn positional(b: Board, side: bool, n: int) -> int
    decreases n,
{
    if n <= 0 {
        0
    } else {
        positional(b, side, n - 1) + if has(b.discs_spec(side), n - 1) {
            weight_spec(n - 1)
        } else if has(b.discs_spec(!side), n - 1) {
            -weight_spec(n - 1)
        } else {
            0
        }
    }
}

/// Position and mobility: the positional score, and five for each move `side` has more
/// than the other.
pub open spec fn evaluation(b: Board, side: bool) -> int {
    positional(b, side, 64) + 5 * (b.legal_spec(side).len() - b.legal_spec(!side).len())
}

/// A finished game's score for `side`: ten thousand for a win (less for a loss), plus the
/// disc margin.
pub open spec fn final_score(b: Board, side: bool) -> int {
    let diff = popcount(b.discs_spec(side)) - popcount(b.discs_spec(!side));
    (if diff > 0 { 10_000int } else if diff < 0 { -10_000int } else { 0 }) + diff
}

proof fn lemma_legal_len(b: Board, black: bool, n: int)
    requires
        0 <= n,
    ensures
        b.legal_upto(black, n).len() <= n,
    decreases n,
{
    if n > 0 {
        lemma_legal_len(b, black, n - 1);
    }
}

proof fn lemma_popcount_bound(x: u64)
    ensures
        popcount(x) <= 64,
{
    vstd::arithmetic::power2::lemma2_to64();
    lemma_popcount_bits(x, 64);
}

/// A number below 2^k has at most k ones.
proof fn lemma_popcount_bits(x: u64, k: nat)
    requires
        x < vstd::arithmetic::power2::pow2(k),
    ensures
        popcount(x) <= k,
    decreases x,
{
    vstd::arithmetic::power2::lemma_pow2_pos(k);
    if x > 0 {
        if k == 0 {
            assert(vstd::arithmetic::power2::pow2(0) == 1) by {
                vstd::arithmetic::power2::lemma2_to64();
            }
        } else {
            vstd::arithmetic::power2::lemma_pow2_unfold(k);
            lemma_popcount_bits(x / 2, (k - 1) as nat);
        }
    }
}

fn evaluate(b: Board, side: bool) -> (v: i32)
    ensures
        v == evaluation(b, side),
        -6720 <= v <= 6720,
{
    let own = b.discs(side);
    let theirs = b.discs(!side);
    let mut positional_score: i32 = 0;
    let mut i: usize = 0;
    while i < 64
        invariant
            i <= 64,
            own == b.discs_spec(side) && theirs == b.discs_spec(!side),
            positional_score == positional(b, side, i as int),
            -100 * i <= positional_score <= 100 * i,
        decreases 64 - i,
    {
        let bit: u64 = 1u64 << i;
        if own & bit != 0 {
            positional_score = positional_score + square_weight(i);
        } else if theirs & bit != 0 {
            positional_score = positional_score - square_weight(i);
        }
        i += 1;
    }
    let mine = b.legal(side).len();
    let others = b.legal(!side).len();
    proof {
        lemma_legal_len(b, side, 64);
        lemma_legal_len(b, !side, 64);
    }
    positional_score + 5 * (mine as i32 - others as i32)
}

/// The board after `square` is played, unchanged when the move captures nothing.
pub open spec fn played(b: Board, square: int) -> Board {
    let f = b.flips_spec(square, b.turn);
    if f == 0 { b } else { b.after(square, f) }
}

/// The alpha-beta search's value for `side` and the budget left: a finished game scores its
/// result, a position at the depth or out of budget its evaluation; otherwise one unit of
/// budget is spent and the moves are tried best first.
pub open spec fn search_value(b: Board, side: bool, depth: nat, alpha: int, beta: int, budget: nat) -> (int, nat)
    decreases depth, 0nat,
{
    if b.finished_spec() {
        (final_score(b, side), budget)
    } else if depth == 0 || budget == 0 {
        (evaluation(b, side), budget)
    } else {
        let best: int = if b.turn == side { -100_000 } else { 100_000 };
        search_scan(b, side, (depth - 1) as nat, by_worth(b.legal_spec(b.turn)), 0, alpha, beta, best, (budget - 1) as nat)
    }
}

/// The search over `moves[k..]` from `b`, the children searched to depth `d`, with the best
/// value so far `best` and the window `alpha..beta`; it stops early once the window closes.
pub open spec fn search_scan(b: Board, side: bool, d: nat, moves: Seq<usize>, k: int, alpha: int, beta: int, best: int,
    budget: nat) -> (int, nat)
    decreases d, moves.len() - k + 1,
{
    if k < 0 || k >= moves.len() {
        (best, budget)
    } else {
        let (value, left) = search_value(played(b, moves[k] as int), side, d, alpha, beta, budget);
        let maximizing = b.turn == side;
        let best2 = if maximizing { if value > best { value } else { best } } else { if value < best { value } else { best } };
        let alpha2 = if maximizing && best2 > alpha { best2 } else { alpha };
        let beta2 = if !maximizing && best2 < beta { best2 } else { beta };
        if beta2 <= alpha2 { (best2, left) } else { search_scan(b, side, d, moves, k + 1, alpha2, beta2, best2, left) }
    }
}

/// The root move picked: each of `moves[k..]` searched to `depth - 1` with a budget of its
/// own, the first with the highest score kept.
pub open spec fn root_pick(b: Board, depth: nat, moves: Seq<usize>, k: int, best_score: int, best_move: usize) -> usize
    decreases moves.len() - k,
{
    if k < 0 || k >= moves.len() {
        best_move
    } else {
        let score = search_value(played(b, moves[k] as int), b.turn, (depth - 1) as nat, -100_000, 100_000, 500).0;
        if score > best_score {
            root_pick(b, depth, moves, k + 1, score, moves[k])
        } else {
            root_pick(b, depth, moves, k + 1, best_score, best_move)
        }
    }
}

/// What the root search keeps from `moves[k..]`, starting from `best_score` and `best_move`:
/// either nothing beats the start and the start stays, or a move of the list whose value for
/// the side to play beats the start and is at least every other's.
proof fn lemma_root_pick_best(b: Board, depth: nat, moves: Seq<usize>, k: int, best_score: int, best_move: usize)
    requires
        0 <= k <= moves.len(),
    ensures
        ({
            let r = root_pick(b, depth, moves, k, best_score, best_move);
            let value = |m: usize| search_value(played(b, m as int), b.turn, (depth - 1) as nat, -100_000, 100_000, 500).0;
            &&& forall|j: int| k <= j < moves.len() ==> #[trigger] value(moves[j]) <= best_score
                || value(moves[j]) <= value(r)
            &&& (r == best_move && forall|j: int| k <= j < moves.len() ==> #[trigger] value(moves[j]) <= best_score)
                || (exists|j: int| k <= j < moves.len() && #[trigger] moves[j] == r) && value(r) > best_score
        }),
    decreases moves.len() - k,
{
    if k < moves.len() {
        let score = search_value(played(b, moves[k] as int), b.turn, (depth - 1) as nat, -100_000, 100_000, 500).0;
        if score > best_score {
            lemma_root_pick_best(b, depth, moves, k + 1, score, moves[k]);
        } else {
            lemma_root_pick_best(b, depth, moves, k + 1, best_score, best_move);
        }
        let r = root_pick(b, depth, moves, k, best_score, best_move);
        let value = |m: usize| search_value(played(b, m as int), b.turn, (depth - 1) as nat, -100_000, 100_000, 500).0;
        assert(value(moves[k]) == score);
        if score > best_score {
            if r != moves[k] {
                let j = choose|j: int| k + 1 <= j < moves.len() && #[trigger] moves[j] == r;
                assert(k <= j < moves.len() && moves[j] == r);
            }
        } else {
            if !(r == best_move && forall|j: int| k + 1 <= j < moves.len() ==> #[trigger] value(moves[j]) <= best_score) {
                let j = choose|j: int| k + 1 <= j < moves.len() && #[trigger] moves[j] == r;
                assert(k <= j < moves.len() && moves[j] == r);
            }
        }
    }
}

/// The computer's searched move is the best for the side to play: it is one of the moves, and
/// every move whose searched value, scored for the side to play, is above the lowest `i32` is
/// worth no more than it. (That is every move: the search's values stay within +-100000.)
pub proof fn law_the_computer_plays_its_best_move(b: Board, depth: nat, moves: Seq<usize>)
    requires
        moves.len() > 0,
    ensures
        ({
            let r = root_pick(b, depth, moves, 0, i32::MIN as int, moves[0]);
            &&& moves.contains(r)
            &&& forall|j: int| 0 <= j < moves.len() && search_value(played(b, moves[j] as int), b.turn, (depth - 1) as nat,
                -100_000, 100_000, 500).0 > i32::MIN ==> #[trigger] search_value(played(b, moves[j] as int), b.turn,
                (depth - 1) as nat, -100_000, 100_000, 500).0 <= search_value(played(b, r as int), b.turn, (depth - 1) as nat,
                -100_000, 100_000, 500).0
        }),
{
    lemma_root_pick_best(b, depth, moves, 0, i32::MIN as int, moves[0]);
    let r = root_pick(b, depth, moves, 0, i32::MIN as int, moves[0]);
    if r == moves[0] {
        assert(moves.contains(r));
    } else {
        let j = choose|j: int| 0 <= j < moves.len() && #[trigger] moves[j] == r;
        assert(moves[j] == r);
    }
    let value = |m: usize| search_value(played(b, m as int), b.turn, (depth - 1) as nat, -100_000, 100_000, 500).0;
    assert forall|j: int| 0 <= j < moves.len() && search_value(played(b, moves[j] as int), b.turn, (depth - 1) as nat,
        -100_000, 100_000, 500).0 > i32::MIN implies #[trigger] search_value(played(b, moves[j] as int), b.turn,
        (depth - 1) as nat, -100_000, 100_000, 500).0 <= search_value(played(b, r as int), b.turn, (depth - 1) as nat,
        -100_000, 100_000, 500).0 by {
        assert(value(moves[j]) <= i32::MIN || value(moves[j]) <= value(r));
    }
}

/// Alpha-beta search to `depth`, scoring for `side`, spending one unit of `budget` for each
/// position it expands. A finished game scores its result; an unfinished one at the depth or
/// out of budget scores its evaluation.
fn search(b: Board, side: bool, depth: usize, alpha: i32, beta: i32, budget: &mut usize) -> (v: i32)
    ensures
        -100_000 <= v <= 100_000,
        *final(budget) <= *old(budget),
        b.finished_spec() ==> v == final_score(b, side) && *final(budget) == *old(budget),
        !b.finished_spec() && (depth == 0 || *old(budget) == 0) ==> v == evaluation(b, side) && *final(budget) == *old(budget),
        (v as int, *final(budget) as nat) == search_value(b, side, depth as nat, alpha as int, beta as int, *old(budget) as nat),
    decreases depth,
{
    if b.finished() {
        proof {
            lemma_popcount_bound(b.discs_spec(side));
            lemma_popcount_bound(b.discs_spec(!side));
        }
        let diff = b.count(side) as i32 - b.count(!side) as i32;
        let sign: i32 = if diff > 0 { 1 } else if diff < 0 { -1 } else { 0 };
        return sign * 10_000 + diff;
    }
    if depth == 0 || *budget == 0 {
        return evaluate(b, side);
    }
    *budget -= 1;
    let moves = order_by_worth(&b.legal(b.turn));
    let maximizing = b.turn == side;
    let mut alpha = alpha;
    let mut beta = beta;
    let mut best: i32 = if maximizing { -100_000 } else { 100_000 };
    let mut k: usize = 0;
    let ghost goal = search_value(b, side, depth as nat, alpha as int, beta as int, *old(budget) as nat);
    proof {
        assert(goal == search_scan(b, side, (depth - 1) as nat, moves@, 0, alpha as int, beta as int, best as int, *budget as nat));
    }
    while k < moves.len()
        invariant_except_break
            search_scan(b, side, (depth - 1) as nat, moves@, k as int, alpha as int, beta as int, best as int, *budget as nat) == goal,
        invariant
            k <= moves@.len(),
            depth > 0,
            -100_000 <= best <= 100_000,
            *budget <= *old(budget),
            maximizing == (b.turn == side),
        ensures
            -100_000 <= best <= 100_000,
            *budget <= *old(budget),
            (best as int, *budget as nat) == goal,
        decreases moves@.len() - k,
    {
        let mut next = b;
        next.play(moves[k]);
        let ghost bud = *budget as nat;
        let value = search(next, side, depth - 1, alpha, beta, budget);
        if maximizing {
            if value > best {
                best = value;
            }
            if best > alpha {
                alpha = best;
            }
        } else {
            if value < best {
                best = value;
            }
            if best < beta {
                beta = best;
            }
        }
        if beta <= alpha {
            break;
        }
        k += 1;
    }
    best
}

/// The durable game: the board, the mode, the computer's difficulty and its generator.
#[derive(Clone, Debug)]
pub struct SaveState {
    pub board: Board,
    /// 0 = computer, 1 = pass-and-play. The human plays black in solo games.
    pub mode: usize,
    /// 0 = easy, 1 = medium, 2 = hard.
    pub difficulty: usize,
    pub rng: u64,
}

impl SaveState {
    pub fn new(mode: usize, difficulty: usize, seed: u64) -> (s: SaveState)
        ensures
            s.board.black == (1u64 << 28u64) | (1u64 << 35u64),
            s.board.white == (1u64 << 27u64) | (1u64 << 36u64),
            s.board.turn,
            s.mode == mode && s.difficulty == difficulty,
            s.rng == seed | 1,
    {
        SaveState { board: Board::default(), mode, difficulty, rng: seed | 1 }
    }

    /// The saved game, or `None` when it is not one: a square held by both sides, an unknown
    /// mode or difficulty, or fewer discs than the opening's four. A side with no move passes.
    pub fn apply_save(self) -> (r: Option<SaveState>)
        ensures
            r is None <==> (self.board.black & self.board.white != 0 || self.mode > 1 || self.difficulty > 2
                || popcount(self.board.black | self.board.white) < 4),
            r matches Some(s) ==> {
                &&& s.board.black == self.board.black && s.board.white == self.board.white
                &&& s.board.turn == (if self.board.legal_spec(self.board.turn).len() == 0 { !self.board.turn } else { self.board.turn })
                &&& s.mode == self.mode && s.difficulty == self.difficulty
                &&& s.rng == self.rng | 1
            },
    {
        let mut s = self;
        if s.board.black & s.board.white != 0 || s.mode > 1 || s.difficulty > 2
            || count_ones(s.board.black | s.board.white) < 4 {
            return None;
        }
        if s.board.legal(s.board.turn).len() == 0 {
            s.board.turn = !s.board.turn;
        }
        s.rng = s.rng | 1;
        Some(s)
    }

    fn random(&mut self) -> (x: u64)
        ensures
            x == xorshift(old(self).rng),
            final(self).rng == x,
            final(self).board == old(self).board,
            final(self).mode == old(self).mode && final(self).difficulty == old(self).difficulty,
    {
        self.rng = xorshift_next(self.rng);
        self.rng
    }

    /// The computer's move for the side to play: `None` when it has none. Easy picks a legal
    /// move at random; medium and hard search two and four plies, each root move with a budget
    /// of its own, and take the first best.
    pub fn computer_move(&mut self) -> (m: Option<usize>)
        ensures
            final(self).board == old(self).board,
            final(self).mode == old(self).mode && final(self).difficulty == old(self).difficulty,
            m is None <==> old(self).board.legal_spec(old(self).board.turn).len() == 0,
            m matches Some(i) ==> old(self).board.legal_spec(old(self).board.turn).contains(i),
            old(self).difficulty == 0 && m is Some ==> {
                let moves = old(self).board.legal_spec(old(self).board.turn);
                &&& m == Some(moves[((xorshift(old(self).rng) as usize) % (moves.len() as usize)) as int])
                &&& final(self).rng == xorshift(old(self).rng)
            },
            old(self).difficulty != 0 || m is None ==> final(self).rng == old(self).rng,
            old(self).difficulty != 0 && m is Some ==> {
                let moves = by_worth(old(self).board.legal_spec(old(self).board.turn));
                let depth: nat = if old(self).difficulty == 1 { 2 } else { 4 };
                m == Some(root_pick(old(self).board, depth, moves, 0, i32::MIN as int, moves[0]))
            },
    {
        let legal = self.board.legal(self.board.turn);
        if legal.len() == 0 {
            return None;
        }
        if self.difficulty == 0 {
            let r = self.random();
            let pick = legal[r as usize % legal.len()];
            return Some(pick);
        }
        let moves = order_by_worth(&legal);
        proof {
            lemma_by_worth_same(legal@);
        }
        let depth: usize = if self.difficulty == 1 { 2 } else { 4 };
        let side = self.board.turn;
        let mut best_score: i32 = i32::MIN;
        let mut best_move: usize = moves[0];
        // Equal budgets per root move avoid favoring whichever branch consumed a global budget.
        let mut k: usize = 0;
        while k < moves.len()
            invariant
                k <= moves@.len(),
                moves@.len() > 0,
                depth >= 2,
                forall|j: int| 0 <= j < moves@.len() ==> legal@.contains(#[trigger] moves@[j]),
                legal@.contains(best_move),
                side == self.board.turn,
                moves@ == by_worth(self.board.legal_spec(self.board.turn)),
                root_pick(self.board, depth as nat, moves@, k as int, best_score as int, best_move)
                    == root_pick(self.board, depth as nat, moves@, 0, i32::MIN as int, moves@[0]),
            decreases moves@.len() - k,
        {
            let mut next = self.board;
            next.play(moves[k]);
            let mut budget: usize = 500;
            let score = search(next, side, depth - 1, -100_000, 100_000, &mut budget);
            if score > best_score {
                best_score = score;
                best_move = moves[k];
            }
            k += 1;
        }
        Some(best_move)
    }
}

/// Each square of the ordered moves is one of the moves, and the first is too.
proof fn lemma_by_worth_same(s: Seq<usize>)
    requires
        s.len() > 0,
    ensures
        by_worth(s).len() > 0,
        forall|j: int| 0 <= j < by_worth(s).len() ==> s.contains(#[trigger] by_worth(s)[j]),
{
    lemma_worth_within(s, 100);
    lemma_worth_within(s, 8);
    lemma_worth_within(s, 1);
    lemma_worth_within(s, -25);
    lemma_worth_total(s);
    let t = by_worth(s);
    assert forall|j: int| 0 <= j < t.len() implies s.contains(#[trigger] t[j]) by {
        let a = worth(s, 100);
        let b = worth(s, 8);
        let c = worth(s, 1);
        let d = worth(s, -25);
        if j < a.len() {
            assert(t[j] == a[j]);
        } else if j < a.len() + b.len() {
            assert(t[j] == b[j - a.len()]);
        } else if j < a.len() + b.len() + c.len() {
            assert(t[j] == c[j - a.len() - b.len()]);
        } else {
            assert(t[j] == d[j - a.len() - b.len() - c.len()]);
        }
    }
}

proof fn lemma_worth_within(s: Seq<usize>, w: int)
    ensures
        forall|j: int| 0 <= j < worth(s, w).len() ==> s.contains(#[trigger] worth(s, w)[j]),
    decreases s.len(),
{
    if s.len() > 0 {
        lemma_worth_within(s.drop_last(), w);
        let p = worth(s.drop_last(), w);
        let t = if weight_spec(s.last() as int) == w { seq![s.last()] } else { Seq::<usize>::empty() };
        assert forall|j: int| 0 <= j < worth(s, w).len() implies s.contains(#[trigger] worth(s, w)[j]) by {
            assert(worth(s, w) == p + t);
            if j < p.len() {
                assert(worth(s, w)[j] == p[j]);
                assert(s.drop_last().contains(p[j]));
                let m = choose|m: int| 0 <= m < s.drop_last().len() && s.drop_last()[m] == p[j];
                assert(s[m] == p[j]);
            } else {
                assert(worth(s, w)[j] == s.last());
                assert(s[s.len() - 1] == s.last());
            }
        }
    }
}

/// Every square has one of the four worths, so ordering by worth drops none.
proof fn lemma_worth_total(s: Seq<usize>)
    ensures
        worth(s, 100).len() + worth(s, 8).len() + worth(s, 1).len() + worth(s, -25).len() == s.len(),
    decreases s.len(),
{
    if s.len() > 0 {
        lemma_worth_total(s.drop_last());
        let w = weight_spec(s.last() as int);
        assert(w == 100 || w == 8 || w == 1 || w == -25);
    }
}

} // verus!
