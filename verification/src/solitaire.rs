//! Klondike: the deal, the rules and scoring, undo, and the depth-first solver behind
//! "winnable deals only". A win the solver finds is replayed through the game's own rules
//! before a deal counts as winnable, so a solver mistake can cost a deal but never deal an
//! unwinnable one.
use vstd::prelude::*;
use vstd::multiset::Multiset;
use crate::text::{decimal, push_char, push_decimal};

verus! {

/// Tableau columns.
pub const COLS: usize = 7;
/// Cards in the pack.
pub const DECK: usize = 52;
/// The most cards a column can hold: six face down under a full king-to-ace run.
pub const MAX_COL: usize = 19;
/// The most face-down cards a column starts with (and so can ever have).
pub const MAX_HIDDEN: usize = 6;
/// The most cards the stock and the waste hold between them.
pub const TALON: usize = 24;

/// Points, the classic scoring: a card from the waste to the tableau, any card to a
/// foundation, a tableau card turned face up, and a card taken back down from a foundation.
pub const SCORE_WASTE_TO_TABLEAU: i64 = 5;
pub const SCORE_TO_FOUNDATION: i64 = 10;
pub const SCORE_REVEAL: i64 = 5;
pub const SCORE_FOUNDATION_TO_TABLEAU: i64 = -15;
/// Undo reaches back this many moves.
pub const HISTORY: usize = 500;

/// A card: `suit * 13 + rank - 1`. The suits alternate color, spades, hearts, clubs,
/// diamonds, so an odd suit is red.
#[derive(Clone, Copy, PartialEq, Eq, Hash, Debug, Structural)]
pub struct Card(pub u8);

impl Card {
    pub open spec fn suit_spec(self) -> int {
        self.0 as int / 13
    }

    pub open spec fn rank_spec(self) -> int {
        self.0 as int % 13 + 1
    }

    pub open spec fn red_spec(self) -> bool {
        self.suit_spec() % 2 == 1
    }

    /// One rank lower and the other color.
    pub open spec fn stacks_on_spec(self, under: Card) -> bool {
        self.rank_spec() + 1 == under.rank_spec() && self.red_spec() != under.red_spec()
    }

    pub fn new(suit: u8, rank: u8) -> (c: Card)
        requires
            1 <= suit * 13 + rank <= 255,
        ensures
            c.0 == suit * 13 + rank - 1,
    {
        Card(suit * 13 + rank - 1)
    }

    pub fn suit(self) -> (s: u8)
        ensures
            s == self.suit_spec(),
    {
        self.0 / 13
    }

    /// 1 (ace) through 13 (king).
    pub fn rank(self) -> (r: u8)
        ensures
            r == self.rank_spec(),
            1 <= r <= 13,
    {
        self.0 % 13 + 1
    }

    pub fn red(self) -> (b: bool)
        ensures
            b == self.red_spec(),
    {
        let s = self.suit();
        assert((s & 1u8 == 1u8) == (s % 2 == 1)) by (bit_vector);
        s & 1 == 1
    }

    /// Whether this card can sit on `under` in the tableau: one rank lower, the other color.
    pub fn stacks_on(self, under: Card) -> (b: bool)
        ensures
            b == self.stacks_on_spec(under),
    {
        self.rank() + 1 == under.rank() && self.red() != under.red()
    }

    /// The save format's one letter per card: `A` to `Z`, then `a` to `z`.
    fn code(self) -> (ch: char)
        requires
            self.0 < 52,
        ensures
            ch == code_spec(self.0 as int),
    {
        if self.0 < 26 {
            (65u8 + self.0) as char
        } else {
            (97u8 + (self.0 - 26)) as char
        }
    }

    fn from_code(ch: char) -> (c: Option<Card>)
        ensures
            c == decode_card(ch),
    {
        if 'A' <= ch && ch <= 'Z' {
            Some(Card((ch as u32 - 65) as u8))
        } else if 'a' <= ch && ch <= 'z' {
            Some(Card((ch as u32 - 97 + 26) as u8))
        } else {
            None
        }
    }
}

/// The letter that stands for card `i`.
pub open spec fn code_spec(i: int) -> char {
    if i < 26 { (65 + i) as char } else { (97 + i - 26) as char }
}

/// The card a letter stands for.
pub open spec fn decode_card(ch: char) -> Option<Card> {
    if 'A' <= ch <= 'Z' {
        Some(Card((ch as int - 65) as u8))
    } else if 'a' <= ch <= 'z' {
        Some(Card((ch as int - 97 + 26) as u8))
    } else {
        None
    }
}

/// How many cards a turn of the stock deals onto the waste.
#[derive(Clone, Copy, PartialEq, Eq, Debug, Structural)]
pub enum DrawMode {
    One,
    Three,
}

impl DrawMode {
    pub open spec fn count_spec(self) -> int {
        match self {
            DrawMode::One => 1,
            DrawMode::Three => 3,
        }
    }

    pub fn count(self) -> (n: usize)
        ensures
            n == self.count_spec(),
    {
        match self {
            DrawMode::One => 1,
            DrawMode::Three => 3,
        }
    }

    /// A stable index for per-mode records.
    pub fn index(self) -> (i: usize)
        ensures
            i == (if self == DrawMode::One { 0int } else { 1int }),
    {
        match self {
            DrawMode::One => 0,
            DrawMode::Three => 1,
        }
    }

    pub open spec fn recycle_cost_spec(self) -> i64 {
        match self {
            DrawMode::One => 100,
            DrawMode::Three => 20,
        }
    }

    /// What turning the waste back over costs.
    pub fn recycle_cost(self) -> (c: i64)
        ensures
            c == self.recycle_cost_spec(),
    {
        match self {
            DrawMode::One => 100,
            DrawMode::Three => 20,
        }
    }
}

/// Both draw modes.
pub fn draw_modes() -> (m: [DrawMode; 2])
    ensures
        m@ == seq![DrawMode::One, DrawMode::Three],
{
    [DrawMode::One, DrawMode::Three]
}

/// The SplitMix64 finalizer: spreads every input bit over the whole word.
pub open spec fn mix_spec(z: u64) -> u64 {
    let a = vstd::wrapping::u64_specs::wrapping_mul(z ^ (z >> 30u64), 0xBF58_476D_1CE4_E5B9u64);
    let b = vstd::wrapping::u64_specs::wrapping_mul(a ^ (a >> 27u64), 0x94D0_49BB_1331_11EBu64);
    b ^ (b >> 31u64)
}

pub fn mix(z: u64) -> (r: u64)
    ensures
        r == mix_spec(z),
{
    let a = (z ^ (z >> 30)).wrapping_mul(0xBF58_476D_1CE4_E5B9);
    let b = (a ^ (a >> 27)).wrapping_mul(0x94D0_49BB_1331_11EB);
    b ^ (b >> 31)
}

/// The SplitMix64 step added to the state before mixing.
pub const GOLDEN: u64 = 0x9E37_79B9_7F4A_7C15;

/// SplitMix64: the deal's shuffle, identical on every platform for a given seed.
pub struct Rng(u64);

impl Rng {
    pub closed spec fn state(&self) -> u64 {
        self.0
    }

    pub fn new(seed: u64) -> (r: Rng)
        ensures
            r.state() == seed,
    {
        Rng(seed)
    }

    pub fn next(&mut self) -> (x: u64)
        ensures
            final(self).state() == vstd::wrapping::u64_specs::wrapping_add(old(self).state(), GOLDEN),
            x == mix_spec(final(self).state()),
    {
        self.0 = self.0.wrapping_add(GOLDEN);
        mix(self.0)
    }

    /// A number below `n` (zero when `n` is zero).
    pub fn below(&mut self, n: usize) -> (x: usize)
        ensures
            final(self).state() == vstd::wrapping::u64_specs::wrapping_add(old(self).state(), GOLDEN),
            x == mix_spec(final(self).state()) % (if n == 0 { 1 } else { n as u64 }),
            n > 0 ==> x < n,
            n == 0 ==> x == 0,
    {
        let m: u64 = if n == 0 { 1 } else { n as u64 };
        (self.next() % m) as usize
    }
}

/// Somewhere a card can be.
#[derive(Clone, Copy, PartialEq, Eq, Debug, Structural)]
pub enum Pile {
    Stock,
    Waste,
    Foundation(usize),
    Tableau(usize),
}

impl Pile {
    pub open spec fn valid_spec(self) -> bool {
        match self {
            Pile::Stock | Pile::Waste => true,
            Pile::Foundation(i) => i < 4,
            Pile::Tableau(i) => i < COLS,
        }
    }

    fn valid(self) -> (b: bool)
        ensures
            b == self.valid_spec(),
    {
        match self {
            Pile::Stock | Pile::Waste => true,
            Pile::Foundation(i) => i < 4,
            Pile::Tableau(i) => i < COLS,
        }
    }
}

/// One thing a player can do.
#[derive(Clone, Copy, PartialEq, Eq, Debug, Structural)]
pub enum Move {
    /// Turn cards from the stock onto the waste, or the waste back over when the stock is empty.
    Draw,
    /// Move the top `count` cards of `from` onto `to`.
    Shift { from: Pile, count: usize, to: Pile },
}

/// What a move did, for the score, the effects and the haptics.
#[derive(Clone, Copy, Debug, Default, PartialEq)]
pub struct Outcome {
    /// The score's change.
    pub gain: i64,
    /// Cards turned from the stock.
    pub drew: usize,
    /// The waste went back over as the stock.
    pub recycled: bool,
    /// A tableau column's card turned face up.
    pub revealed: Option<(usize, Card)>,
    /// A card reached a foundation.
    pub homed: Option<Card>,
    /// That card was a king: its suit is complete.
    pub suit_done: bool,
    /// A tableau column left empty.
    pub emptied: Option<usize>,
    pub won: bool,
}

/// Where every card is.
#[derive(Clone, PartialEq, Eq, Debug, Default)]
pub struct Table {
    pub tableau: [Vec<Card>; 7],
    /// How many cards at the bottom of each column are face down.
    pub hidden: [usize; 7],
    /// The stock, its top (the next card turned) last.
    pub stock: Vec<Card>,
    /// The waste, its top (the playable card) last.
    pub waste: Vec<Card>,
    pub foundations: [Vec<Card>; 4],
}

/// Row `r` of the deal, its first `n` cards: from column `r` on, one per column.
pub open spec fn row_cells(r: int, n: int) -> Seq<(usize, usize)> {
    Seq::new(n as nat, |i: int| ((r + i) as usize, r as usize))
}

/// The last `i + 1` cards of `deck` shuffled Fisher–Yates style from the top down with a
/// SplitMix generator at state `st`: position `i` swaps with a drawn position at most `i`.
pub open spec fn shuffle_from(deck: Seq<Card>, st: u64, i: int) -> Seq<Card>
    decreases i,
{
    if i < 1 {
        deck
    } else {
        let st2 = vstd::wrapping::u64_specs::wrapping_add(st, GOLDEN);
        let j = (mix_spec(st2) % ((i + 1) as u64)) as int;
        shuffle_from(deck.update(i, deck[j]).update(j, deck[i]), st2, i - 1)
    }
}

/// The pack in order, then shuffled from `seed`.
pub open spec fn dealt_deck(seed: u64) -> Seq<Card> {
    shuffle_from(Seq::new(52, |k: int| Card(k as u8)), seed, 51)
}

/// `t` is the table [`Table::deal`] lays out from `seed` (kept folded in proofs about the
/// hunt for a deal).
#[verifier::opaque]
pub open spec fn deals_as(t: Table, seed: u64) -> bool {
    &&& forall|i: int| 0 <= i < COLS ==> #[trigger] t.col(i).len() == i + 1 && t.hidden@[i] == i
    &&& forall|i: int| 0 <= i < 4 ==> #[trigger] t.fnd(i).len() == 0
    &&& t.stock@.len() == 24
    &&& t.waste@.len() == 0
    &&& forall|c: int, r: int| 0 <= c < COLS && 0 <= r <= c ==> #[trigger] t.col(c)[r] == dealt_deck(seed)[deal_index(c, r)]
    &&& forall|x: int| 0 <= x < 24 ==> #[trigger] t.stock@[x] == dealt_deck(seed)[51 - x]
}

/// Where in the shuffled pack row `r` of column `c` comes from: the rows are dealt across
/// the columns in turn, each row starting one column further on.
pub open spec fn deal_index(c: int, r: int) -> int {
    r * 7 - r * (r - 1) / 2 + (c - r)
}

/// The first `r` rows of the deal in turn, each from its own column to the last.
pub open spec fn dealt_rows(r: int) -> Seq<(usize, usize)>
    decreases r,
{
    if r <= 0 { Seq::empty() } else { dealt_rows(r - 1) + row_cells(r - 1, COLS - (r - 1)) }
}

/// The order a dealer lays the tableau out: across the columns a row at a time, each row one
/// column shorter, as `(column, row)`.
pub fn deal_order() -> (order: Vec<(usize, usize)>)
    ensures
        order@ == dealt_rows(COLS as int),
        order@.len() == 28,
        forall|k: int| 0 <= k < 28 ==> #[trigger] order@[k].0 < COLS && order@[k].1 <= order@[k].0,
{
    let mut order: Vec<(usize, usize)> = Vec::new();
    let mut row: usize = 0;
    while row < COLS
        invariant
            row <= COLS,
            order@ == dealt_rows(row as int),
            order@.len() == row * 7 - row * (row - 1) / 2,
            forall|k: int| 0 <= k < order@.len() ==> #[trigger] order@[k].0 < COLS && order@[k].1 <= order@[k].0,
        decreases COLS - row,
    {
        let mut col = row;
        let ghost before = order@;
        while col < COLS
            invariant
                row < COLS,
                row <= col <= COLS,
                before == dealt_rows(row as int),
                order@ == before + row_cells(row as int, col - row),
                order@.len() == row * 7 - row * (row - 1) / 2 + (col - row),
                forall|k: int| 0 <= k < order@.len() ==> #[trigger] order@[k].0 < COLS && order@[k].1 <= order@[k].0,
            decreases COLS - col,
        {
            proof {
                assert(row_cells(row as int, col - row + 1) =~= row_cells(row as int, col - row).push((col, row)));
            }
            order.push((col, row));
            col += 1;
        }
        proof {
            assert((row + 1) * 7 - (row + 1) * row / 2 == row * 7 - row * (row - 1) / 2 + (7 - row)) by (nonlinear_arith)
                requires row < 7;
        }
        row += 1;
    }
    assert(row == 7);
    assert(row * 7 - row * (row - 1) / 2 == 28) by (nonlinear_arith)
        requires row == 7;
    order
}

/// One turn of the stock: up to `n` cards from the stock's top onto the waste, or, when the
/// stock is empty, the waste turned back over as the stock.
pub open spec fn turn_spec(stock: Seq<Card>, waste: Seq<Card>, n: int) -> (Seq<Card>, Seq<Card>, bool) {
    if stock.len() == 0 {
        (waste.reverse(), Seq::empty(), true)
    } else {
        let m = if n < stock.len() { n } else { stock.len() as int };
        (stock.take(stock.len() - m), waste + stock.skip(stock.len() - m).reverse(), false)
    }
}

fn turn(stock: &mut Vec<Card>, waste: &mut Vec<Card>, n: usize) -> (recycled: bool)
    requires
        n >= 1,
    ensures
        (final(stock)@, final(waste)@, recycled) == turn_spec(old(stock)@, old(waste)@, n as int),
{
    if stock.len() == 0 {
        let ghost w0 = waste@;
        let mut k = waste.len();
        while k > 0
            invariant
                k <= w0.len(),
                waste@ == w0.take(k as int),
                stock@ == w0.skip(k as int).reverse(),
            decreases k,
        {
            let c = waste.pop().unwrap();
            stock.push(c);
            k -= 1;
            proof {
                assert(waste@ =~= w0.take(k as int));
                assert(stock@ =~= w0.skip(k as int).reverse());
            }
        }
        proof {
            assert(stock@ =~= w0.reverse());
            assert(waste@ =~= Seq::<Card>::empty());
        }
        return true;
    }
    let ghost s0 = stock@;
    let ghost w0 = waste@;
    let m = if n < stock.len() { n } else { stock.len() };
    let mut k: usize = 0;
    while k < m
        invariant
            m <= s0.len(),
            k <= m,
            stock@ == s0.take(s0.len() - k),
            waste@ == w0 + s0.skip(s0.len() - k).reverse(),
        decreases m - k,
    {
        let c = stock.pop().unwrap();
        waste.push(c);
        k += 1;
        proof {
            assert(stock@ =~= s0.take(s0.len() - k));
            assert(waste@ =~= w0 + s0.skip(s0.len() - k).reverse());
        }
    }
    false
}

/// The columns' cards, first column first, each bottom to top.
pub open spec fn flat(cols: Seq<Vec<Card>>) -> Seq<Card>
    decreases cols.len(),
{
    if cols.len() == 0 { Seq::empty() } else { flat(cols.drop_last()) + cols.last()@ }
}

/// Real cards, none twice.
pub open spec fn distinct_cards(s: Seq<Card>) -> bool {
    &&& forall|k: int| 0 <= k < s.len() ==> (#[trigger] s[k]).0 < 52
    &&& forall|j: int, k: int| 0 <= j < k < s.len() ==> #[trigger] s[j] != #[trigger] s[k]
}

/// A column that can arise in play: at most `MAX_COL` cards and `MAX_HIDDEN` face down, the
/// top card face up, and the face-up cards a built run.
pub open spec fn column_ok(col: Seq<Card>, hidden: int) -> bool {
    &&& col.len() <= MAX_COL
    &&& hidden <= MAX_HIDDEN
    &&& (if col.len() == 0 { hidden == 0 } else { hidden < col.len() })
    &&& forall|k: int| hidden <= k < col.len() - 1 ==> #[trigger] col[k + 1].stacks_on_spec(col[k])
}

/// A foundation: one suit, from the ace up.
pub open spec fn foundation_ok(f: Seq<Card>) -> bool {
    forall|k: int| 0 <= k < f.len() ==> (#[trigger] f[k]).suit_spec() == f[0].suit_spec() && f[k].rank_spec() == k + 1
}

/// Some foundation before `i` holds the suit `s`.
pub open spec fn suit_started_before(fs: Seq<Vec<Card>>, i: int, s: int) -> bool {
    exists|j: int| 0 <= j < i && fs[j]@.len() > 0 && #[trigger] fs[j]@[0].suit_spec() == s
}

/// `k` turns of the stock.
pub open spec fn turns(stock: Seq<Card>, waste: Seq<Card>, n: int, k: nat) -> (Seq<Card>, Seq<Card>)
    decreases k,
{
    if k == 0 {
        (stock, waste)
    } else {
        let prev = turns(stock, waste, n, (k - 1) as nat);
        let t = turn_spec(prev.0, prev.1, n);
        (t.0, t.1)
    }
}

/// `card` is the waste's top card.
pub open spec fn on_top(waste: Seq<Card>, card: Card) -> bool {
    waste.len() > 0 && waste.last() == card
}

/// The first foundation whose first card has suit `s`.
pub open spec fn first_started(fs: Seq<Vec<Card>>, s: int) -> Option<int> {
    if fs[0]@.len() > 0 && fs[0]@[0].suit_spec() == s {
        Some(0)
    } else if fs[1]@.len() > 0 && fs[1]@[0].suit_spec() == s {
        Some(1)
    } else if fs[2]@.len() > 0 && fs[2]@[0].suit_spec() == s {
        Some(2)
    } else if fs[3]@.len() > 0 && fs[3]@[0].suit_spec() == s {
        Some(3)
    } else {
        None
    }
}

/// The first empty foundation.
pub open spec fn first_empty(fs: Seq<Vec<Card>>) -> Option<int> {
    if fs[0]@.len() == 0 {
        Some(0)
    } else if fs[1]@.len() == 0 {
        Some(1)
    } else if fs[2]@.len() == 0 {
        Some(2)
    } else if fs[3]@.len() == 0 {
        Some(3)
    } else {
        None
    }
}

/// Record the cards of `cards` as seen, after those of `pre`; false at a card out of the
/// pack or one seen before.
fn scan_cards(cards: &Vec<Card>, seen: &mut Vec<bool>, count: &mut usize, Ghost(pre): Ghost<Seq<Card>>) -> (ok: bool)
    requires
        old(seen)@.len() == DECK,
        distinct_cards(pre),
        *old(count) == pre.len(),
        pre.len() <= DECK,
        forall|v: int| 0 <= v < DECK ==> (#[trigger] old(seen)@[v] <==> pre.contains(Card(v as u8))),
    ensures
        final(seen)@.len() == DECK,
        ok == distinct_cards(pre + cards@),
        ok ==> *final(count) == pre.len() + cards@.len() && *final(count) <= DECK,
        ok ==> forall|k: int| 0 <= k < cards@.len() ==> (#[trigger] cards@[k]).0 < 52,
        ok ==> forall|v: int| 0 <= v < DECK ==> (#[trigger] final(seen)@[v] <==> (pre + cards@).contains(Card(v as u8))),
{
    let mut k: usize = 0;
    while k < cards.len()
        invariant
            k <= cards@.len(),
            seen@.len() == DECK,
            distinct_cards(pre + cards@.take(k as int)),
            *count == pre.len() + k,
            *count <= DECK,
            forall|v: int| 0 <= v < DECK ==> (#[trigger] seen@[v] <==> (pre + cards@.take(k as int)).contains(Card(v as u8))),
        decreases cards@.len() - k,
    {
        let c = cards[k];
        let ghost sofar = pre + cards@.take(k as int);
        let ghost next = pre + cards@.take(k as int + 1);
        assert(next =~= sofar.push(c));
        if c.0 as usize >= DECK {
            assert(!distinct_cards(pre + cards@)) by {
                assert((pre + cards@)[pre.len() + k] == c);
            }
            return false;
        }
        if seen[c.0 as usize] {
            proof {
                assert(sofar.contains(Card(c.0)));
                let j = choose|j: int| 0 <= j < sofar.len() && sofar[j] == Card(c.0);
                assert(!distinct_cards(pre + cards@)) by {
                    assert((pre + cards@)[j] == sofar[j]);
                    assert((pre + cards@)[pre.len() + k] == c);
                }
            }
            return false;
        }
        proof {
            assert forall|j: int, m: int| 0 <= j < m < next.len() implies #[trigger] next[j] != #[trigger] next[m] by {
                if m == next.len() - 1 {
                    if next[j] == c {
                        assert(sofar[j] == Card(c.0));
                        assert(sofar.contains(Card(c.0)));
                    }
                } else {
                    assert(sofar[j] == next[j] && sofar[m] == next[m]);
                }
            }
            // A set of distinct cards below the pack size has room for one more only below it.
            lemma_distinct_bound(next);
        }
        seen.set(c.0 as usize, true);
        *count = *count + 1;
        k += 1;
        proof {
            assert forall|v: int| 0 <= v < DECK implies (#[trigger] seen@[v] <==> next.contains(Card(v as u8))) by {
                if v == c.0 as int {
                    assert(next[next.len() - 1] == c);
                } else {
                    if next.contains(Card(v as u8)) {
                        let j = choose|j: int| 0 <= j < next.len() && next[j] == Card(v as u8);
                        assert(j < sofar.len());
                        assert(sofar[j] == Card(v as u8));
                    }
                    if sofar.contains(Card(v as u8)) {
                        let j = choose|j: int| 0 <= j < sofar.len() && sofar[j] == Card(v as u8);
                        assert(next[j] == Card(v as u8));
                    }
                }
            }
        }
    }
    proof {
        assert(cards@.take(k as int) =~= cards@);
        assert forall|m: int| 0 <= m < cards@.len() implies (#[trigger] cards@[m]).0 < 52 by {
            assert((pre + cards@)[pre.len() + m] == cards@[m]);
        }
    }
    true
}

/// A prefix of distinct cards is distinct.
proof fn lemma_distinct_prefix(a: Seq<Card>, b: Seq<Card>)
    requires
        distinct_cards(a + b),
    ensures
        distinct_cards(a),
{
    assert forall|k: int| 0 <= k < a.len() implies (#[trigger] a[k]).0 < 52 by {
        assert((a + b)[k] == a[k]);
    }
    assert forall|j: int, k: int| 0 <= j < k < a.len() implies #[trigger] a[j] != #[trigger] a[k] by {
        assert((a + b)[j] == a[j] && (a + b)[k] == a[k]);
    }
}

/// Exchanging two cards keeps a pack's cards distinct.
proof fn lemma_swap_distinct(s: Seq<Card>, i: int, j: int)
    requires
        distinct_cards(s),
        0 <= i < s.len(),
        0 <= j < s.len(),
    ensures
        distinct_cards(s.update(i, s[j]).update(j, s[i])),
{
    let u = s.update(i, s[j]).update(j, s[i]);
    let f = |p: int| if p == i { j } else if p == j { i } else { p };
    assert forall|p: int| 0 <= p < u.len() implies u[p] == s[f(p)] by {}
    assert forall|p: int| 0 <= p < u.len() implies (#[trigger] u[p]).0 < 52 by {
        assert(u[p] == s[f(p)]);
    }
    assert forall|p: int, q: int| 0 <= p < q < u.len() implies #[trigger] u[p] != #[trigger] u[q] by {
        assert(u[p] == s[f(p)] && u[q] == s[f(q)]);
        if f(p) < f(q) {
            assert(s[f(p)] != s[f(q)]);
        } else {
            assert(s[f(q)] != s[f(p)]);
        }
    }
}

/// Putting one card on top of pile `c` adds that card to the cards of the piles.
proof fn lemma_flat_push(a: Seq<Vec<Card>>, b: Seq<Vec<Card>>, c: int, x: Card)
    requires
        a.len() == b.len(),
        0 <= c < a.len(),
        forall|i: int| 0 <= i < a.len() && i != c ==> (#[trigger] b[i])@ == a[i]@,
        b[c]@ == a[c]@.push(x),
    ensures
        flat(b).to_multiset() == flat(a).to_multiset().insert(x),
    decreases a.len(),
{
    broadcast use vstd::seq_lib::group_seq_properties;
    broadcast use vstd::multiset::group_multiset_axioms;
    let n = a.len() - 1;
    if c == n {
        assert forall|i: int| 0 <= i < a.drop_last().len() implies (#[trigger] a.drop_last()[i])@ == b.drop_last()[i]@ by {
            assert(b[i]@ == a[i]@);
        }
        lemma_flat_same(a.drop_last(), b.drop_last());
        vstd::seq_lib::lemma_multiset_commutative(flat(a.drop_last()), a.last()@);
        vstd::seq_lib::lemma_multiset_commutative(flat(b.drop_last()), b.last()@);
        assert(flat(b) == flat(b.drop_last()) + b.last()@);
        assert(flat(a) == flat(a.drop_last()) + a.last()@);
    } else {
        assert forall|i: int| 0 <= i < a.drop_last().len() && i != c implies (#[trigger] b.drop_last()[i])@ == a.drop_last()[i]@ by {
            assert(b[i]@ == a[i]@);
        }
        lemma_flat_push(a.drop_last(), b.drop_last(), c, x);
        assert(b.last()@ == a.last()@);
        vstd::seq_lib::lemma_multiset_commutative(flat(a.drop_last()), a.last()@);
        vstd::seq_lib::lemma_multiset_commutative(flat(b.drop_last()), b.last()@);
        assert(flat(b) == flat(b.drop_last()) + b.last()@);
        assert(flat(a) == flat(a.drop_last()) + a.last()@);
    }
}

/// Piles with nothing in them hold no cards.
proof fn lemma_flat_none(a: Seq<Vec<Card>>)
    requires
        forall|i: int| 0 <= i < a.len() ==> (#[trigger] a[i])@.len() == 0,
    ensures
        flat(a) == Seq::<Card>::empty(),
    decreases a.len(),
{
    if a.len() > 0 {
        lemma_flat_none(a.drop_last());
        assert(a.last()@ =~= Seq::<Card>::empty());
        assert(flat(a) =~= Seq::<Card>::empty());
    }
}

/// Cards that are those of a pack of distinct cards, each as often, are distinct too.
proof fn lemma_same_cards_distinct(s: Seq<Card>, u: Seq<Card>)
    requires
        distinct_cards(s),
        u.to_multiset() == s.to_multiset(),
    ensures
        distinct_cards(u),
        u.len() == s.len(),
{
    broadcast use vstd::seq_lib::group_seq_properties;
    broadcast use vstd::multiset::group_multiset_axioms;
    assert(s.no_duplicates()) by {
        assert forall|i: int, j: int| 0 <= i < s.len() && 0 <= j < s.len() && i != j implies s[i] != s[j] by {
            if i < j {
                assert(s[i] != s[j]);
            } else {
                assert(s[j] != s[i]);
            }
        }
    }
    s.lemma_multiset_has_no_duplicates();
    u.lemma_multiset_has_no_duplicates_conv();
    s.to_multiset_ensures();
    u.to_multiset_ensures();
    assert forall|k: int| 0 <= k < u.len() implies (#[trigger] u[k]).0 < 52 by {
        assert(u.contains(u[k]));
        assert(u.to_multiset().count(u[k]) > 0);
        assert(s.contains(u[k]));
        let p = choose|p: int| 0 <= p < s.len() && s[p] == u[k];
        assert(s[p].0 < 52);
    }
    assert forall|i: int, j: int| 0 <= i < j < u.len() implies #[trigger] u[i] != #[trigger] u[j] by {}
}

proof fn lemma_flat_split(cols: Seq<Vec<Card>>, i: int)
    requires
        0 <= i <= cols.len(),
    ensures
        flat(cols) == flat(cols.take(i)) + flat(cols.skip(i)),
    decreases cols.len(),
{
    if cols.len() == 0 {
        assert(cols.take(i) =~= cols && cols.skip(i) =~= cols);
        assert(flat(cols.take(i)) + flat(cols.skip(i)) =~= Seq::<Card>::empty());
    } else if i == cols.len() {
        assert(cols.take(i) =~= cols);
        assert(cols.skip(i) =~= Seq::<Vec<Card>>::empty());
        assert(flat(cols) + Seq::<Card>::empty() =~= flat(cols));
    } else {
        lemma_flat_split(cols.drop_last(), i);
        assert(cols.drop_last().take(i) =~= cols.take(i));
        assert(cols.skip(i).drop_last() =~= cols.drop_last().skip(i));
        assert(cols.skip(i).last() == cols.last());
        assert(flat(cols) =~= flat(cols.take(i)) + flat(cols.skip(i)));
    }
}

proof fn lemma_flat_step(cols: Seq<Vec<Card>>, i: int)
    requires
        0 <= i < cols.len(),
    ensures
        flat(cols.take(i + 1)) == flat(cols.take(i)) + cols[i]@,
{
    assert(cols.take(i + 1).drop_last() =~= cols.take(i));
}

/// Distinct real cards number at most the pack.
proof fn lemma_distinct_bound(s: Seq<Card>)
    requires
        distinct_cards(s),
    ensures
        s.len() <= DECK,
{
    let f = |c: Card| c.0 as int;
    let vals = s.map_values(f).to_set();
    assert(vals.subset_of(Set::new(|v: int| 0 <= v < 52)));
    assert(Set::new(|v: int| 0 <= v < 52) =~= vstd::set_lib::set_int_range(0, 52));
    vstd::set_lib::lemma_int_range(0, 52);
    vstd::set_lib::lemma_len_subset(vals, vstd::set_lib::set_int_range(0, 52));
    assert(s.map_values(f).no_duplicates()) by {
        assert forall|j: int, k: int| 0 <= j < s.len() && 0 <= k < s.len() && j != k implies
            s.map_values(f)[j] != s.map_values(f)[k] by {
            if j < k {
                assert(s[j] != s[k]);
            } else {
                assert(s[k] != s[j]);
            }
        }
    }
    s.map_values(f).unique_seq_to_set();
}

impl Table {
    #[verifier::inline]
    pub open spec fn col(&self, i: int) -> Seq<Card> {
        self.tableau@[i]@
    }

    #[verifier::inline]
    pub open spec fn fnd(&self, i: int) -> Seq<Card> {
        self.foundations@[i]@
    }

    /// Every card on the table, columns first, then the stock, the waste and the foundations.
    pub open spec fn all_cards(&self) -> Seq<Card> {
        flat(self.tableau@) + self.stock@ + self.waste@ + flat(self.foundations@)
    }

    /// Every card exactly once, columns that could arise in play, and foundations that build
    /// up by suit from the ace.
    pub open spec fn valid_spec(&self) -> bool {
        &&& distinct_cards(self.all_cards())
        &&& self.all_cards().len() == DECK
        &&& self.stock@.len() + self.waste@.len() <= TALON
        &&& forall|i: int| 0 <= i < COLS ==> #[trigger] column_ok(self.col(i), self.hidden@[i] as int)
        &&& forall|i: int| 0 <= i < 4 ==> #[trigger] foundation_ok(self.fnd(i))
        &&& forall|i: int| 0 <= i < 4 && self.fnd(i).len() > 0 ==> !#[trigger] suit_started_before(self.foundations@, i,
            self.fnd(i)[0].suit_spec())
    }

    pub open spec fn pile_spec(&self, p: Pile) -> Seq<Card> {
        match p {
            Pile::Stock => self.stock@,
            Pile::Waste => self.waste@,
            Pile::Foundation(i) => if i < 4 { self.fnd(i as int) } else { Seq::empty() },
            Pile::Tableau(i) => if i < COLS { self.col(i as int) } else { Seq::empty() },
        }
    }

    pub open spec fn won_spec(&self) -> bool {
        &&& self.fnd(0).len() == 13
        &&& self.fnd(1).len() == 13
        &&& self.fnd(2).len() == 13
        &&& self.fnd(3).len() == 13
    }

    pub open spec fn slot_spec(&self, card: Card) -> Option<usize> {
        match first_started(self.foundations@, card.suit_spec()) {
            Some(i) => if self.fnd(i).last().rank_spec() + 1 == card.rank_spec() { Some(i as usize) } else { None },
            None => if card.rank_spec() == 1 {
                match first_empty(self.foundations@) {
                    Some(i) => Some(i as usize),
                    None => None,
                }
            } else {
                None
            },
        }
    }

    /// An empty table.
    pub fn empty() -> (t: Table)
        ensures
            forall|i: int| 0 <= i < COLS ==> #[trigger] t.col(i).len() == 0,
            forall|i: int| 0 <= i < COLS ==> #[trigger] t.hidden@[i] == 0,
            forall|i: int| 0 <= i < 4 ==> #[trigger] t.fnd(i).len() == 0,
            t.stock@.len() == 0,
            t.waste@.len() == 0,
    {
        Table {
            tableau: [Vec::new(), Vec::new(), Vec::new(), Vec::new(), Vec::new(), Vec::new(), Vec::new()],
            hidden: [0, 0, 0, 0, 0, 0, 0],
            stock: Vec::new(),
            waste: Vec::new(),
            foundations: [Vec::new(), Vec::new(), Vec::new(), Vec::new()],
        }
    }

    /// A shuffled pack dealt out: a column of one to seven cards, only the last face up, and
    /// the rest in the stock.
    #[verifier::spinoff_prover]
    pub fn deal(seed: u64) -> (t: Table)
        ensures
            forall|i: int| 0 <= i < COLS ==> #[trigger] t.col(i).len() == i + 1 && t.hidden@[i] == i,
            forall|i: int| 0 <= i < 4 ==> #[trigger] t.fnd(i).len() == 0,
            t.stock@.len() == 24,
            t.waste@.len() == 0,
            t.searchable(),
            t.valid_spec(),
            forall|c: int, r: int| 0 <= c < COLS && 0 <= r <= c ==> #[trigger] t.col(c)[r] == dealt_deck(seed)[deal_index(c, r)],
            forall|x: int| 0 <= x < 24 ==> #[trigger] t.stock@[x] == dealt_deck(seed)[51 - x],
            deals_as(t, seed),
    {
        let mut deck: Vec<Card> = Vec::new();
        let mut i: usize = 0;
        while i < DECK
            invariant
                i <= DECK,
                deck@.len() == i,
                forall|k: int| 0 <= k < deck@.len() ==> (#[trigger] deck@[k]).0 < 52 && deck@[k].0 == k,
            decreases DECK - i,
        {
            deck.push(Card(i as u8));
            i += 1;
        }
        proof {
            assert forall|p: int, q: int| 0 <= p < q < deck@.len() implies #[trigger] deck@[p] != #[trigger] deck@[q] by {
                assert(deck@[p].0 == p && deck@[q].0 == q);
            }
        }
        let mut rng = Rng::new(seed);
        let mut i: usize = DECK - 1;
        proof {
            assert(deck@ =~= Seq::new(52, |k: int| Card(k as u8)));
        }
        while i >= 1
            invariant
                i < DECK,
                deck@.len() == DECK,
                forall|k: int| 0 <= k < deck@.len() ==> (#[trigger] deck@[k]).0 < 52,
                distinct_cards(deck@),
                shuffle_from(deck@, rng.state(), i as int) == dealt_deck(seed),
            decreases i,
        {
            let ghost d0 = deck@;
            let ghost st0 = rng.state();
            let j = rng.below(i + 1);
            proof {
                lemma_swap_distinct(deck@, i as int, j as int);
            }
            let a = deck[i];
            let b = deck[j];
            deck.set(i, b);
            deck.set(j, a);
            proof {
                assert(deck@ =~= d0.update(i as int, d0[j as int]).update(j as int, d0[i as int]));
                assert(shuffle_from(d0, st0, i as int) == shuffle_from(deck@, rng.state(), i - 1));
            }
            i -= 1;
        }
        proof {
            assert(shuffle_from(deck@, rng.state(), i as int) == deck@);
        }
        let mut t = Table::empty();
        let mut k: usize = 0;
        let mut row: usize = 0;
        proof {
            lemma_flat_none(t.tableau@);
            assert(deck@.take(0) =~= flat(t.tableau@));
        }
        while row < COLS
            invariant
                row <= COLS,
                deck@.len() == DECK,
                k == row * 7 - row * (row - 1) / 2,
                k <= 28,
                distinct_cards(deck@),
                flat(t.tableau@).to_multiset() == deck@.take(k as int).to_multiset(),
                forall|k2: int| 0 <= k2 < deck@.len() ==> (#[trigger] deck@[k2]).0 < 52,
                forall|c: int, j: int| 0 <= c < COLS && 0 <= j < t.col(c).len() ==> (#[trigger] t.col(c)[j]).0 < 52,
                forall|c: int| 0 <= c < COLS ==> #[trigger] t.col(c).len() == (if c < row { c + 1 } else { row as int }),
                forall|c: int, r: int| 0 <= c < COLS && 0 <= r < t.col(c).len() ==> #[trigger] t.col(c)[r] == deck@[deal_index(c, r)],
                deck@ == dealt_deck(seed),
                forall|c: int| 0 <= c < COLS ==> #[trigger] t.hidden@[c] == 0,
                forall|c: int| 0 <= c < 4 ==> #[trigger] t.fnd(c).len() == 0,
                t.stock@.len() == 0,
                t.waste@.len() == 0,
            decreases COLS - row,
        {
            let mut col = row;
            proof {
                lemma_row_start(row as int);
            }
            while col < COLS
                invariant
                    row < COLS,
                    row <= col <= COLS,
                    deck@.len() == DECK,
                    k == row * 7 - row * (row - 1) / 2 + (col - row),
                    row * 7 - row * (row - 1) / 2 + (7 - row) <= 28,
                    distinct_cards(deck@),
                    flat(t.tableau@).to_multiset() == deck@.take(k as int).to_multiset(),
                    forall|k2: int| 0 <= k2 < deck@.len() ==> (#[trigger] deck@[k2]).0 < 52,
                    forall|c: int, j: int| 0 <= c < COLS && 0 <= j < t.col(c).len() ==> (#[trigger] t.col(c)[j]).0 < 52,
                    forall|c: int| 0 <= c < COLS ==> #[trigger] t.col(c).len() == (if c < row { c + 1 } else if c < col { row + 1 } else { row as int }),
                    forall|c: int, r: int| 0 <= c < COLS && 0 <= r < t.col(c).len() ==> #[trigger] t.col(c)[r] == deck@[deal_index(c, r)],
                    deck@ == dealt_deck(seed),
                    forall|c: int| 0 <= c < COLS ==> #[trigger] t.hidden@[c] == 0,
                    forall|c: int| 0 <= c < 4 ==> #[trigger] t.fnd(c).len() == 0,
                    t.stock@.len() == 0,
                    t.waste@.len() == 0,
                decreases COLS - col,
            {
                let c = deck[k];
                let ghost before = t.tableau@;
                t.tableau[col].push(c);
                proof {
                    assert(k == deal_index(col as int, row as int));
                    assert forall|c2: int, r: int| 0 <= c2 < COLS && 0 <= r < t.col(c2).len() implies #[trigger] t.col(c2)[r] == deck@[deal_index(c2, r)] by {
                        if c2 != col {
                            assert(t.col(c2) == before[c2]@);
                        } else if r < row {
                            assert(t.col(c2)[r] == before[c2]@[r]);
                        }
                    }
                    lemma_flat_push(before, t.tableau@, col as int, c);
                    assert(deck@.take(k as int + 1) =~= deck@.take(k as int).push(c));
                    vstd::seq_lib::to_multiset_build(deck@.take(k as int), c);
                }
                k += 1;
                col += 1;
            }
            proof {
                assert((row + 1) * 7 - (row + 1) * row / 2 == row * 7 - row * (row - 1) / 2 + (7 - row)) by (nonlinear_arith)
                    requires row < 7;
            }
            row += 1;
        }
        assert(k == 28) by (nonlinear_arith)
            requires k == row * 7 - row * (row - 1) / 2, row == 7;
        let mut c: usize = 0;
        while c < COLS
            invariant
                c <= COLS,
                forall|c2: int, j: int| 0 <= c2 < COLS && 0 <= j < t.col(c2).len() ==> (#[trigger] t.col(c2)[j]).0 < 52,
                forall|j: int| 0 <= j < COLS ==> #[trigger] t.col(j).len() == j + 1,
                forall|j: int| 0 <= j < COLS ==> #[trigger] t.hidden@[j] == (if j < c { j } else { 0 }),
                forall|c2: int, r: int| 0 <= c2 < COLS && 0 <= r < t.col(c2).len() ==> #[trigger] t.col(c2)[r] == deck@[deal_index(c2, r)],
                deck@ == dealt_deck(seed),
                distinct_cards(deck@),
                deck@.len() == DECK,
                flat(t.tableau@).to_multiset() == deck@.take(28).to_multiset(),
                forall|j: int| 0 <= j < 4 ==> #[trigger] t.fnd(j).len() == 0,
                t.stock@.len() == 0,
                t.waste@.len() == 0,
            decreases COLS - c,
        {
            t.hidden[c] = c;
            c += 1;
        }
        // The rest of the pack goes face down with its next card on top.
        let mut m: usize = DECK;
        proof {
            assert(deck@.subrange(DECK as int, DECK as int) =~= t.stock@);
        }
        while m > 28
            invariant
                28 <= m <= DECK,
                deck@.len() == DECK,
                t.stock@.len() == DECK - m,
                forall|k2: int| 0 <= k2 < deck@.len() ==> (#[trigger] deck@[k2]).0 < 52,
                forall|k2: int| 0 <= k2 < t.stock@.len() ==> (#[trigger] t.stock@[k2]).0 < 52,
                forall|c2: int, j: int| 0 <= c2 < COLS && 0 <= j < t.col(c2).len() ==> (#[trigger] t.col(c2)[j]).0 < 52,
                forall|j: int| 0 <= j < COLS ==> #[trigger] t.col(j).len() == j + 1 && t.hidden@[j] == j,
                forall|j: int| 0 <= j < 4 ==> #[trigger] t.fnd(j).len() == 0,
                t.waste@.len() == 0,
                distinct_cards(deck@),
                flat(t.tableau@).to_multiset() == deck@.take(28).to_multiset(),
                t.stock@.to_multiset() == deck@.subrange(m as int, DECK as int).to_multiset(),
                forall|c2: int, r: int| 0 <= c2 < COLS && 0 <= r < t.col(c2).len() ==> #[trigger] t.col(c2)[r] == deck@[deal_index(c2, r)],
                deck@ == dealt_deck(seed),
                forall|x: int| 0 <= x < t.stock@.len() ==> #[trigger] t.stock@[x] == deck@[51 - x],
            decreases m,
        {
            m -= 1;
            proof {
                assert(deck@.subrange(m as int, DECK as int) =~= deck@.subrange(m as int + 1, DECK as int).insert(0, deck@[m as int]));
                vstd::seq_lib::to_multiset_insert(deck@.subrange(m as int + 1, DECK as int), 0, deck@[m as int]);
                vstd::seq_lib::to_multiset_build(t.stock@, deck@[m as int]);
            }
            t.stock.push(deck[m]);
        }
        proof {
            lemma_flat_none(t.foundations@);
            let all = t.all_cards();
            assert(all =~= flat(t.tableau@) + t.stock@);
            vstd::seq_lib::lemma_multiset_commutative(flat(t.tableau@), t.stock@);
            assert(deck@ =~= deck@.take(28) + deck@.subrange(28, DECK as int));
            vstd::seq_lib::lemma_multiset_commutative(deck@.take(28), deck@.subrange(28, DECK as int));
            lemma_same_cards_distinct(deck@, all);
            assert forall|i: int| 0 <= i < COLS implies #[trigger] column_ok(t.col(i), t.hidden@[i] as int) by {
                assert(t.col(i).len() == i + 1 && t.hidden@[i] == i);
            }
            assert forall|i: int| 0 <= i < 4 implies #[trigger] foundation_ok(t.fnd(i)) by {}
            assert(t.valid_spec());
            lemma_valid_searchable(t);
            reveal(deals_as);
        }
        t
    }


    /// Scan the cards of `piles` after `pre`, in order.
    fn scan_piles(piles: &[Vec<Card>], seen: &mut Vec<bool>, count: &mut usize, Ghost(pre): Ghost<Seq<Card>>) -> (ok: bool)
        requires
            old(seen)@.len() == DECK,
            distinct_cards(pre),
            *old(count) == pre.len(),
            pre.len() <= DECK,
            forall|v: int| 0 <= v < DECK ==> (#[trigger] old(seen)@[v] <==> pre.contains(Card(v as u8))),
        ensures
            final(seen)@.len() == DECK,
            ok == distinct_cards(pre + flat(piles@)),
            ok ==> *final(count) == pre.len() + flat(piles@).len() && *final(count) <= DECK,
            ok ==> forall|v: int| 0 <= v < DECK ==> (#[trigger] final(seen)@[v] <==> (pre + flat(piles@)).contains(Card(v as u8))),
            ok ==> forall|i: int, k: int| 0 <= i < piles@.len() && 0 <= k < piles@[i]@.len() ==> (#[trigger] piles@[i]@[k]).0 < 52,
    {
        let mut i: usize = 0;
        let ghost mut sofar = pre;
        proof {
            assert(piles@.take(0) =~= Seq::<Vec<Card>>::empty());
            assert(pre + flat(piles@.take(0)) =~= pre);
        }
        while i < piles.len()
            invariant
                i <= piles@.len(),
                seen@.len() == DECK,
                sofar == pre + flat(piles@.take(i as int)),
                distinct_cards(sofar),
                *count == sofar.len(),
                *count <= DECK,
                forall|v: int| 0 <= v < DECK ==> (#[trigger] seen@[v] <==> sofar.contains(Card(v as u8))),
                forall|j: int, k: int| 0 <= j < i && 0 <= k < piles@[j]@.len() ==> (#[trigger] piles@[j]@[k]).0 < 52,
            decreases piles@.len() - i,
        {
            proof {
                lemma_flat_step(piles@, i as int);
                lemma_flat_split(piles@, i as int + 1);
                assert(pre + flat(piles@) =~= (sofar + piles@[i as int]@) + flat(piles@.skip(i as int + 1)));
            }
            if !scan_cards(&piles[i], seen, count, Ghost(sofar)) {
                proof {
                    if distinct_cards(pre + flat(piles@)) {
                        lemma_distinct_prefix(sofar + piles@[i as int]@, flat(piles@.skip(i as int + 1)));
                    }
                }
                return false;
            }
            proof {
                sofar = sofar + piles@[i as int]@;
                assert(sofar =~= pre + flat(piles@.take(i as int + 1)));
            }
            i += 1;
        }
        proof {
            assert(piles@.take(i as int) =~= piles@);
        }
        true
    }

    /// Every card exactly once, columns that could arise in play, and foundations that build
    /// up by suit from the ace.
    #[verifier::spinoff_prover]
    pub fn valid(&self) -> (b: bool)
        ensures
            b == self.valid_spec(),
    {
        let mut seen: Vec<bool> = vec![false; DECK];
        let mut count: usize = 0;
        proof {
            assert forall|v: int| 0 <= v < DECK implies (#[trigger] seen@[v] <==> Seq::<Card>::empty().contains(Card(v as u8))) by {}
        }
        let ghost all = self.all_cards();
        let ghost t0 = flat(self.tableau@);
        let ghost t1 = t0 + self.stock@;
        let ghost t2 = t1 + self.waste@;
        proof {
            assert(all == t2 + flat(self.foundations@));
        }
        if !Self::scan_piles(self.tableau.as_slice(), &mut seen, &mut count, Ghost(Seq::empty())) {
            proof {
                assert(Seq::<Card>::empty() + t0 =~= t0);
                if distinct_cards(all) {
                    assert(all =~= t0 + (self.stock@ + self.waste@ + flat(self.foundations@)));
                    lemma_distinct_prefix(t0, self.stock@ + self.waste@ + flat(self.foundations@));
                }
            }
            return false;
        }
        proof {
            assert(Seq::<Card>::empty() + t0 =~= t0);
        }
        if !scan_cards(&self.stock, &mut seen, &mut count, Ghost(t0)) {
            proof {
                if distinct_cards(all) {
                    assert(all =~= t1 + (self.waste@ + flat(self.foundations@)));
                    lemma_distinct_prefix(t1, self.waste@ + flat(self.foundations@));
                }
            }
            return false;
        }
        if !scan_cards(&self.waste, &mut seen, &mut count, Ghost(t1)) {
            proof {
                if distinct_cards(all) {
                    lemma_distinct_prefix(t2, flat(self.foundations@));
                }
            }
            return false;
        }
        if !Self::scan_piles(self.foundations.as_slice(), &mut seen, &mut count, Ghost(t2)) {
            return false;
        }
        if count != DECK || self.stock.len() + self.waste.len() > TALON {
            return false;
        }
        let mut i: usize = 0;
        while i < COLS
            invariant
                i <= COLS,
                forall|j: int| 0 <= j < i ==> #[trigger] column_ok(self.col(j), self.hidden@[j] as int),
            decreases COLS - i,
        {
            let col = &self.tableau[i];
            let hidden = self.hidden[i];
            let bad_count = col.len() > MAX_COL || hidden > MAX_HIDDEN;
            let bad_face = if col.len() == 0 { hidden != 0 } else { hidden >= col.len() };
            if bad_count || bad_face {
                assert(!column_ok(self.col(i as int), hidden as int));
                return false;
            }
            let mut k = hidden;
            while k + 1 < col.len()
                invariant
                    hidden <= k,
                    col@.len() <= MAX_COL,
                    k <= col@.len(),
                    hidden <= MAX_HIDDEN,
                    i < COLS,
                    hidden == self.hidden@[i as int],
                    hidden < col@.len() || col@.len() == 0,
                    col@ == self.col(i as int),
                    forall|m: int| hidden <= m < k ==> #[trigger] col@[m + 1].stacks_on_spec(col@[m]),
                decreases col@.len() - k,
            {
                if !col[k + 1].stacks_on(col[k]) {
                    assert(!column_ok(self.col(i as int), hidden as int)) by {
                        assert(!col@[k as int + 1].stacks_on_spec(col@[k as int]));
                    }
                    return false;
                }
                k += 1;
            }
            i += 1;
        }
        let mut suits: [bool; 4] = [false, false, false, false];
        let mut i: usize = 0;
        while i < 4
            invariant
                i <= 4,
                forall|j: int, k: int| 0 <= j < 4 && 0 <= k < self.fnd(j).len() ==> (#[trigger] self.fnd(j)[k]).0 < 52,
                forall|s: int| 0 <= s < 4 ==> (#[trigger] suits@[s] <==> suit_started_before(self.foundations@, i as int, s)),
                forall|j: int| 0 <= j < i ==> #[trigger] foundation_ok(self.fnd(j)),
                forall|j: int| 0 <= j < i && self.fnd(j).len() > 0 ==> !#[trigger] suit_started_before(self.foundations@, j,
                    self.fnd(j)[0].suit_spec()),
            decreases 4 - i,
        {
            let f = &self.foundations[i];
            if f.len() > 0 {
                let first = f[0];
                let s = first.suit() as usize;
                if suits[s] {
                    return false;
                }
                let mut k: usize = 0;
                while k < f.len()
                    invariant
                        k <= f@.len(),
                        f@ == self.fnd(i as int),
                        i < 4,
                        first == f@[0],
                        forall|m: int| 0 <= m < k ==> (#[trigger] f@[m]).suit_spec() == f@[0].suit_spec() && f@[m].rank_spec() == m + 1,
                    decreases f@.len() - k,
                {
                    let c = f[k];
                    if c.suit() != first.suit() || c.rank() as usize != k + 1 {
                        assert(!foundation_ok(self.fnd(i as int))) by {
                            assert(f@[k as int] == c);
                        }
                        return false;
                    }
                    k += 1;
                }
                suits[s] = true;
            }
            proof {
                assert forall|s: int| 0 <= s < 4 implies (#[trigger] suits@[s] <==> suit_started_before(self.foundations@, i as int + 1, s)) by {
                    if suit_started_before(self.foundations@, i as int + 1, s) && !suit_started_before(self.foundations@, i as int, s) {
                        let j = choose|j: int| 0 <= j < i + 1 && self.foundations@[j]@.len() > 0 && #[trigger] self.foundations@[j]@[0].suit_spec() == s;
                        assert(j == i);
                    }
                    if suit_started_before(self.foundations@, i as int, s) {
                        let j = choose|j: int| 0 <= j < i && self.foundations@[j]@.len() > 0 && #[trigger] self.foundations@[j]@[0].suit_spec() == s;
                        assert(0 <= j < i + 1 && self.foundations@[j]@.len() > 0 && self.foundations@[j]@[0].suit_spec() == s);
                    }
                }
            }
            i += 1;
        }
        true
    }

    /// The cards of a pile, bottom first (none for a pile that does not exist).
    pub fn pile(&self, p: Pile) -> (cards: &[Card])
        ensures
            cards@ == self.pile_spec(p),
    {
        match p {
            Pile::Stock => self.stock.as_slice(),
            Pile::Waste => self.waste.as_slice(),
            Pile::Foundation(i) => if i < 4 { self.foundations[i].as_slice() } else { &[] },
            Pile::Tableau(i) => if i < COLS { self.tableau[i].as_slice() } else { &[] },
        }
    }

    /// Face-up cards in a column.
    pub fn face_up(&self, col: usize) -> (n: usize)
        requires
            col < COLS,
            self.hidden@[col as int] <= self.col(col as int).len(),
        ensures
            n == self.col(col as int).len() - self.hidden@[col as int],
    {
        self.tableau[col].len() - self.hidden[col]
    }

    /// The foundation `card` can go on now: its suit's pile once one is started, otherwise the
    /// first empty one for an ace.
    pub fn foundation_slot(&self, card: Card) -> (slot: Option<usize>)
        ensures
            slot == self.slot_spec(card),
            slot matches Some(i) ==> i < 4,
    {
        let s = card.suit();
        let mut i: usize = 0;
        while i < 4
            invariant
                i <= 4,
                s == card.suit_spec(),
                forall|j: int| 0 <= j < i ==> !(#[trigger] self.fnd(j).len() > 0 && self.fnd(j)[0].suit_spec() == s),
            decreases 4 - i,
        {
            if self.foundations[i].len() > 0 && self.foundations[i][0].suit() == s {
                let top = self.foundations[i][self.foundations[i].len() - 1];
                proof {
                    assert(first_started(self.foundations@, s as int) == Some(i as int));
                }
                if top.rank() + 1 == card.rank() {
                    return Some(i);
                } else {
                    return None;
                }
            }
            i += 1;
        }
        proof {
            assert(first_started(self.foundations@, s as int) is None);
        }
        if card.rank() != 1 {
            return None;
        }
        let mut i: usize = 0;
        while i < 4
            invariant
                i <= 4,
                forall|j: int| 0 <= j < i ==> #[trigger] self.fnd(j).len() > 0,
                first_started(self.foundations@, card.suit_spec()) is None,
                card.rank_spec() == 1,
            decreases 4 - i,
        {
            if self.foundations[i].len() == 0 {
                return Some(i);
            }
            i += 1;
        }
        None
    }

    /// Every suit complete.
    pub fn won(&self) -> (b: bool)
        ensures
            b == self.won_spec(),
    {
        self.foundations[0].len() == 13 && self.foundations[1].len() == 13 && self.foundations[2].len() == 13
            && self.foundations[3].len() == 13
    }

    /// How many turns of the stock bring `card` to the top of the waste, if any number does:
    /// two whole passes show every card any number of turns can.
    pub fn draws_to(&self, card: Card, mode: DrawMode) -> (r: Option<usize>)
        ensures
            r == Some(0usize) <==> on_top(self.waste@, card),
            r matches Some(n) ==> (n > 0 ==> n <= 2 * (TALON + 2)
                && on_top(turns(self.stock@, self.waste@, mode.count_spec(), n as nat).1, card)
                && (self.stock@.contains(card) || self.waste@.contains(card))
                && forall|j: int| 1 <= j < n ==> !on_top(#[trigger] turns(self.stock@, self.waste@, mode.count_spec(), j as nat).1, card)),
            r is None ==> !on_top(self.waste@, card) && (!(self.stock@.contains(card) || self.waste@.contains(card))
                || forall|j: int| 1 <= j <= 2 * (TALON + 2) ==> !on_top(#[trigger] turns(self.stock@, self.waste@, mode.count_spec(), j as nat).1, card)),
            match r {
                Some(n) => draws_to_spec(*self, card, mode.count_spec()) == Some(n as int),
                None => draws_to_spec(*self, card, mode.count_spec()) is None,
            },
            r is None && self.stock@.len() + self.waste@.len() <= TALON ==> forall|j: nat| j >= 1
                ==> !#[trigger] on_top(turns(self.stock@, self.waste@, mode.count_spec(), j).1, card),
    {
        if self.waste.len() > 0 && self.waste[self.waste.len() - 1] == card {
            return Some(0);
        }
        if !contains_card(&self.stock, card) && !contains_card(&self.waste, card) {
            proof {
                if self.stock@.len() + self.waste@.len() <= TALON {
                    lemma_never_on_top(self.stock@, self.waste@, mode.count_spec(), card);
                }
            }
            return None;
        }
        let mut stock = copy_cards(&self.stock);
        let mut waste = copy_cards(&self.waste);
        let n_turn = mode.count();
        let mut n: usize = 1;
        while n <= 2 * (TALON + 2)
            invariant
                1 <= n <= 2 * (TALON + 2) + 1,
                n_turn == mode.count_spec(),
                (stock@, waste@) == turns(self.stock@, self.waste@, n_turn as int, (n - 1) as nat),
                forall|j: int| 1 <= j < n ==> !on_top(#[trigger] turns(self.stock@, self.waste@, mode.count_spec(), j as nat).1, card),
                !on_top(self.waste@, card),
                self.stock@.contains(card) || self.waste@.contains(card),
            decreases 2 * (TALON + 2) + 1 - n,
        {
            turn(&mut stock, &mut waste, n_turn);
            proof {
                assert((stock@, waste@) == turns(self.stock@, self.waste@, n_turn as int, n as nat));
            }
            if waste.len() > 0 && waste[waste.len() - 1] == card {
                proof {
                    assert(first_turn_to(*self, card, n_turn as int, n as int));
                    let k = choose|k: int| first_turn_to(*self, card, n_turn as int, k);
                    lemma_first_turn_unique(*self, card, n_turn as int, k, n as int);
                }
                return Some(n);
            }
            n += 1;
        }
        proof {
            if exists|k: int| first_turn_to(*self, card, n_turn as int, k) {
                let k = choose|k: int| first_turn_to(*self, card, n_turn as int, k);
                assert(!on_top(turns(self.stock@, self.waste@, mode.count_spec(), k as nat).1, card));
            }
            if self.stock@.len() + self.waste@.len() <= TALON {
                lemma_never_on_top(self.stock@, self.waste@, mode.count_spec(), card);
            }
        }
        None
    }
}


/// `k` is the first number of turns, up to two whole passes, that brings `card` to the top of
/// the waste.
pub open spec fn first_turn_to(t: Table, card: Card, n: int, k: int) -> bool {
    &&& 1 <= k <= 2 * (TALON + 2)
    &&& on_top(turns(t.stock@, t.waste@, n, k as nat).1, card)
    &&& forall|j: int| 1 <= j < k ==> !on_top(#[trigger] turns(t.stock@, t.waste@, n, j as nat).1, card)
}

/// The waste's length after `k` turns of a stock and waste of `l` cards in all, `w` of them
/// on the waste, dealing `n` at a time: each turn deals up to `n` more, and a turn of an
/// empty stock turns the waste back over.
pub open spec fn waste_after(w: int, l: int, n: int, k: nat) -> int
    decreases k,
{
    if k == 0 {
        w
    } else {
        let p = waste_after(w, l, n, (k - 1) as nat);
        if p >= l { 0 } else if p + n < l { p + n } else { l }
    }
}

/// Turning keeps the order of the pack: the waste from the bottom up followed by the stock
/// from the top down. After `k` turns the waste is the first `w` cards of that order and the
/// stock the rest, top last.
proof fn lemma_turns_deck(stock: Seq<Card>, waste: Seq<Card>, n: int, k: nat)
    requires
        n >= 1,
    ensures
        0 <= waste_after(waste.len() as int, (waste + stock.reverse()).len() as int, n, k) <= (waste + stock.reverse()).len(),
        turns(stock, waste, n, k) == ((waste + stock.reverse()).skip(waste_after(waste.len() as int,
            (waste + stock.reverse()).len() as int, n, k)).reverse(), (waste + stock.reverse()).take(waste_after(
            waste.len() as int, (waste + stock.reverse()).len() as int, n, k))),
    decreases k,
{
    let d = waste + stock.reverse();
    let l = d.len() as int;
    if k == 0 {
        assert(d.skip(waste.len() as int).reverse() =~= stock);
        assert(d.take(waste.len() as int) =~= waste);
    } else {
        lemma_turns_deck(stock, waste, n, (k - 1) as nat);
        let w = waste_after(waste.len() as int, l, n, (k - 1) as nat);
        let s = d.skip(w).reverse();
        let wa = d.take(w);
        if s.len() == 0 {
            assert(wa.reverse() =~= d.skip(0).reverse());
            assert(Seq::<Card>::empty() =~= d.take(0));
        } else {
            let m = if n < s.len() { n } else { s.len() as int };
            assert(s.take(s.len() - m) =~= d.skip(w + m).reverse());
            assert(wa + s.skip(s.len() - m).reverse() =~= d.take(w + m));
        }
    }
}

/// `a` turns and then `b` more are `a + b` turns.
proof fn lemma_waste_after_add(w: int, l: int, n: int, a: nat, b: nat)
    ensures
        waste_after(w, l, n, a + b) == waste_after(waste_after(w, l, n, a), l, n, b),
    decreases b,
{
    if b > 0 {
        lemma_waste_after_add(w, l, n, a, (b - 1) as nat);
        assert((a + b - 1) as nat == a + (b - 1) as nat);
    }
}

/// Turns until the waste is next turned back over, from a waste of `w` cards.
pub open spec fn turns_to_empty(w: int, l: int, n: int) -> nat
    decreases l - w,
{
    if w >= l || n < 1 { 1 } else { 1 + turns_to_empty(if w + n < l { w + n } else { l }, l, n) }
}

proof fn lemma_turns_to_empty(w: int, l: int, n: int)
    requires
        0 <= w <= l,
        n >= 1,
    ensures
        1 <= turns_to_empty(w, l, n) <= l - w + 1,
        waste_after(w, l, n, turns_to_empty(w, l, n)) == 0,
    decreases l - w,
{
    if w < l {
        let w2 = if w + n < l { w + n } else { l };
        lemma_turns_to_empty(w2, l, n);
        assert(waste_after(w, l, n, 0) == w);
        assert(waste_after(w, l, n, 1) == w2);
        lemma_waste_after_add(w, l, n, 1, turns_to_empty(w2, l, n));
        assert(1 + turns_to_empty(w2, l, n) == turns_to_empty(w, l, n));
    } else {
        assert(waste_after(w, l, n, 0) == w);
        assert(waste_after(w, l, n, 1) == 0);
    }
}

/// From an empty waste the turns repeat every `turns_to_empty(0, l, n)` turns.
proof fn lemma_waste_after_period(l: int, n: int, x: nat)
    requires
        0 <= l,
        n >= 1,
    ensures
        waste_after(0, l, n, x) == waste_after(0, l, n, (x % turns_to_empty(0, l, n)) as nat),
    decreases x,
{
    let p = turns_to_empty(0, l, n);
    lemma_turns_to_empty(0, l, n);
    if x >= p {
        lemma_waste_after_period(l, n, (x - p) as nat);
        lemma_waste_after_add(0, l, n, p, (x - p) as nat);
        assert((x - p) as nat % p == x % p) by (nonlinear_arith)
            requires x >= p, p >= 1;
        assert(p + (x - p) as nat == x);
    } else {
        assert(x % p == x) by (nonlinear_arith)
            requires x < p, p >= 1, x >= 0;
    }
}

/// Every waste any number of turns shows, a turn from one to `2 * l + 1` shows too.
proof fn lemma_turns_recur(stock: Seq<Card>, waste: Seq<Card>, n: int, j: nat) -> (j2: nat)
    requires
        n >= 1,
        j >= 1,
    ensures
        1 <= j2 <= 2 * (stock.len() + waste.len()) + 1,
        turns(stock, waste, n, j2).1 == turns(stock, waste, n, j).1,
{
    let d = waste + stock.reverse();
    let l = d.len() as int;
    let w0 = waste.len() as int;
    lemma_turns_deck(stock, waste, n, j);
    lemma_turns_to_empty(w0, l, n);
    lemma_turns_to_empty(0, l, n);
    let j1 = turns_to_empty(w0, l, n);
    let p = turns_to_empty(0, l, n);
    if j < j1 + p {
        j
    } else {
        let x = (j - j1) as nat;
        lemma_waste_after_add(w0, l, n, j1, x);
        assert(j1 + x == j);
        lemma_waste_after_period(l, n, x);
        let r = (x % p) as nat;
        assert(r < p) by (nonlinear_arith)
            requires r == x % p, p >= 1;
        let j2 = j1 + r;
        lemma_waste_after_add(w0, l, n, j1, r);
        lemma_turns_deck(stock, waste, n, j2);
        j2
    }
}

/// No turn of a stock and waste of at most [`TALON`] cards brings `card` to the top once
/// none of the first `2 * (TALON + 2)` does, or when the card is in neither.
proof fn lemma_never_on_top(stock: Seq<Card>, waste: Seq<Card>, n: int, card: Card)
    requires
        n >= 1,
        stock.len() + waste.len() <= TALON,
        !(stock.contains(card) || waste.contains(card))
            || forall|j: int| 1 <= j <= 2 * (TALON + 2) ==> !on_top(#[trigger] turns(stock, waste, n, j as nat).1, card),
    ensures
        forall|j: nat| j >= 1 ==> !on_top(#[trigger] turns(stock, waste, n, j).1, card),
{
    assert forall|j: nat| j >= 1 implies !on_top(#[trigger] turns(stock, waste, n, j).1, card) by {
        let d = waste + stock.reverse();
        lemma_turns_deck(stock, waste, n, j);
        let w = waste_after(waste.len() as int, d.len() as int, n, j);
        if on_top(turns(stock, waste, n, j).1, card) {
            if !(stock.contains(card) || waste.contains(card)) {
                assert(d[w - 1] == card);
                if w - 1 < waste.len() {
                    assert(waste[w - 1] == card);
                } else {
                    assert(stock[stock.len() - 1 - (w - 1 - waste.len())] == card);
                }
            } else {
                let j2 = lemma_turns_recur(stock, waste, n, j);
                let ji: int = j2 as int;
                assert(1 <= ji <= 2 * (TALON + 2));
                assert(!on_top(turns(stock, waste, n, ji as nat).1, card));
                assert(ji as nat == j2);
            }
        }
    }
}

/// How many turns of the stock, dealing `n` at a time, bring `card` to the top of the waste.
pub open spec fn draws_to_spec(t: Table, card: Card, n: int) -> Option<int> {
    if on_top(t.waste@, card) {
        Some(0)
    } else if !(t.stock@.contains(card) || t.waste@.contains(card)) {
        None
    } else if exists|k: int| first_turn_to(t, card, n, k) {
        Some(choose|k: int| first_turn_to(t, card, n, k))
    } else {
        None
    }
}

proof fn lemma_first_turn_unique(t: Table, card: Card, n: int, a: int, b: int)
    requires
        first_turn_to(t, card, n, a),
        first_turn_to(t, card, n, b),
    ensures
        a == b,
{
    if a < b {
        assert(!on_top(turns(t.stock@, t.waste@, n, a as nat).1, card));
    } else if b < a {
        assert(!on_top(turns(t.stock@, t.waste@, n, b as nat).1, card));
    }
}

/// Whether `cards` holds `card`.
fn contains_card(cards: &Vec<Card>, card: Card) -> (b: bool)
    ensures
        b == cards@.contains(card),
{
    let mut k: usize = 0;
    while k < cards.len()
        invariant
            k <= cards@.len(),
            forall|j: int| 0 <= j < k ==> cards@[j] != card,
        decreases cards@.len() - k,
    {
        if cards[k] == card {
            return true;
        }
        k += 1;
    }
    false
}

/// Where row `row` of the deal starts in the pack, and that the next row fits in the first 28.
proof fn lemma_row_start(row: int)
    requires
        0 <= row < 7,
    ensures
        row * 7 - row * (row - 1) / 2 + (7 - row) <= 28,
        (row + 1) * 7 - (row + 1) * row / 2 == row * 7 - row * (row - 1) / 2 + (7 - row),
{
    if row == 0 {
    } else if row == 1 {
    } else if row == 2 {
    } else if row == 3 {
    } else if row == 4 {
    } else if row == 5 {
    } else {
    }
}

/// A copy of `cards`.
fn copy_cards(cards: &Vec<Card>) -> (c: Vec<Card>)
    ensures
        c@ == cards@,
{
    let mut c: Vec<Card> = Vec::new();
    let mut k: usize = 0;
    while k < cards.len()
        invariant
            k <= cards@.len(),
            c@ == cards@.take(k as int),
        decreases cards@.len() - k,
    {
        c.push(cards[k]);
        k += 1;
        proof {
            assert(c@ =~= cards@.take(k as int));
        }
    }
    proof {
        assert(cards@.take(k as int) =~= cards@);
    }
    c
}

/// A built run: each card one rank below the one under it, in the other color.
pub open spec fn built(run: Seq<Card>) -> bool {
    forall|k: int| 0 <= k < run.len() - 1 ==> #[trigger] run[k + 1].stacks_on_spec(run[k])
}

/// Both tables hold the same cards in the same places.
pub open spec fn same_table(a: Table, b: Table) -> bool {
    &&& forall|i: int| 0 <= i < COLS ==> #[trigger] a.col(i) == b.col(i)
    &&& a.hidden@ == b.hidden@
    &&& a.stock@ == b.stock@
    &&& a.waste@ == b.waste@
    &&& forall|i: int| 0 <= i < 4 ==> #[trigger] a.fnd(i) == b.fnd(i)
}

/// The points a shift earns before any card turns up: waste to tableau, anything home, and
/// a card worried back down from its foundation.
pub open spec fn shift_points(from: Pile, to: Pile) -> i64 {
    match (from, to) {
        (Pile::Waste, Pile::Tableau(_)) => SCORE_WASTE_TO_TABLEAU,
        (_, Pile::Foundation(_)) => SCORE_TO_FOUNDATION,
        (Pile::Foundation(_), Pile::Tableau(_)) => SCORE_FOUNDATION_TO_TABLEAU,
        _ => 0,
    }
}

/// Table `b` is table `a` after a turn of the stock dealing `n`.
pub open spec fn drawn_table(a: Table, b: Table, n: int) -> bool {
    let t = turn_spec(a.stock@, a.waste@, n);
    &&& b.stock@ == t.0
    &&& b.waste@ == t.1
    &&& b.hidden@ == a.hidden@
    &&& forall|i: int| 0 <= i < COLS ==> #[trigger] b.col(i) == a.col(i)
    &&& forall|i: int| 0 <= i < 4 ==> #[trigger] b.fnd(i) == a.fnd(i)
}

/// Table `b` is table `a` with the top `count` cards of `from` moved onto `to`, and the
/// column left behind turning its new top card up when it was face down.
pub open spec fn shifted_table(a: Table, b: Table, from: Pile, count: int, to: Pile) -> bool {
    let src = a.pile_spec(from);
    &&& b.pile_spec(from) == src.take(src.len() - count)
    &&& b.pile_spec(to) == a.pile_spec(to) + src.skip(src.len() - count)
    &&& forall|p: Pile| p.valid_spec() && p != from && p != to ==> #[trigger] b.pile_spec(p) == a.pile_spec(p)
    &&& forall|c: int| 0 <= c < COLS && from != Pile::Tableau(c as usize) ==> #[trigger] b.hidden@[c] == a.hidden@[c]
    &&& from matches Pile::Tableau(c) ==> b.hidden@[c as int] == (if b.col(c as int).len() > 0
        && a.hidden@[c as int] == b.col(c as int).len() { a.hidden@[c as int] - 1 } else { a.hidden@[c as int] as int })
}

/// Tables that differ at most in their face-down counts have the same piles.
proof fn lemma_same_piles(a: Table, b: Table)
    requires
        a.tableau == b.tableau,
        a.stock == b.stock,
        a.waste == b.waste,
        a.foundations == b.foundations,
    ensures
        forall|p: Pile| #[trigger] b.pile_spec(p) == a.pile_spec(p),
{
}

/// A position undo can return to.
#[derive(Clone, Debug, PartialEq)]
pub struct Snap {
    pub table: Table,
    pub score: i64,
    pub moves: u32,
    pub recycles: u32,
}

/// `s` records the position of `m`.
pub open spec fn snap_of(s: Snap, m: Model) -> bool {
    same_table(s.table, m.table) && s.score == m.score && s.moves == m.moves && s.recycles == m.recycles
}

/// A game in progress. (The play clock and its win bonus are kept by the host.)
#[derive(Clone, Debug)]
pub struct Model {
    pub table: Table,
    pub mode: DrawMode,
    pub score: i64,
    pub moves: u32,
    pub recycles: u32,
    pub won: bool,
    /// The deal was proven winnable before it was dealt.
    pub proven: bool,
    /// The positions undo can return to, the last one last.
    pub history: Vec<Snap>,
}

/// What a legal move `m` did to the game: `b` is `a` after it, `o` what it reported.
pub open spec fn moved(a: Model, b: Model, m: Move, o: Outcome) -> bool {
    let raw: int = match m {
        Move::Draw => if turn_spec(a.table.stock@, a.table.waste@, a.mode.count_spec()).2 { -a.mode.recycle_cost_spec() } else { 0 },
        Move::Shift { from, count, to } => shift_points(from, to) + if o.revealed is Some { SCORE_REVEAL as int } else { 0 },
    };
    &&& b.mode == a.mode
    &&& b.proven == a.proven
    &&& b.moves == a.moves + 1
    &&& o.gain == (if raw >= -a.score { raw } else { -a.score })
    &&& b.score == a.score + o.gain
    &&& b.won == b.table.won_spec()
    &&& o.won == b.won
    &&& b.history@.len() > 0
    &&& snap_of(b.history@.last(), a)
    &&& b.history@.len() == (if a.history@.len() + 1 > HISTORY { a.history@.len() as int } else { a.history@.len() + 1int })
    &&& match m {
        Move::Draw => {
            let t = turn_spec(a.table.stock@, a.table.waste@, a.mode.count_spec());
            &&& drawn_table(a.table, b.table, a.mode.count_spec())
            &&& o.recycled == t.2
            &&& b.recycles == if t.2 { a.recycles + 1 } else { a.recycles as int }
            &&& o.drew == if t.2 { 0 } else { t.1.len() - a.table.waste@.len() }
            &&& o.revealed is None && o.homed is None && !o.suit_done && o.emptied is None
        },
        Move::Shift { from, count, to } => {
            let src = a.table.pile_spec(from);
            let first = src[src.len() - count];
            &&& shifted_table(a.table, b.table, from, count as int, to)
            &&& b.recycles == a.recycles
            &&& o.drew == 0 && !o.recycled
            &&& o.revealed == (match from {
                Pile::Tableau(c) => if b.table.col(c as int).len() > 0 && a.table.hidden@[c as int] == b.table.col(c as int).len() {
                    Some((c, b.table.col(c as int).last()))
                } else {
                    None
                },
                _ => None,
            })
            &&& o.emptied == (match from {
                Pile::Tableau(c) => if b.table.col(c as int).len() == 0 { Some(c) } else { None },
                _ => None,
            })
            &&& o.homed == (if to is Foundation { Some(first) } else { None })
            &&& o.suit_done == (to is Foundation && first.rank_spec() == 13)
        },
    }
}

/// How a draw scores: turning cards from the stock is free, and turning the waste back over
/// as the stock costs 100 when drawing one at a time and 20 when drawing three, the score
/// never dropping below zero.
pub proof fn law_a_draw_costs_only_a_recycle(a: Model, b: Model, o: Outcome)
    requires
        moved(a, b, Move::Draw, o),
        a.score >= 0,
    ensures
        ({
            let cost: int = if !o.recycled { 0 } else if a.mode == DrawMode::One { 100 } else { 20 };
            &&& cost <= a.score ==> o.gain == -cost && b.score == a.score - cost
            &&& cost > a.score ==> o.gain == -a.score && b.score == 0
        }),
        o.recycled ==> o.drew == 0 && b.recycles == a.recycles + 1,
        !o.recycled ==> b.recycles == a.recycles,
{
}

/// How a legal shift scores: a card from the waste onto a column earns 5, any card onto a
/// foundation 10, a card taken back down from a foundation onto a column costs 15, and any
/// other shift nothing; a face-down card turned up by it earns 5 more; and the score never
/// drops below zero, the gain cut short where it would.
pub proof fn law_a_shift_scores_by_where_it_goes(a: Model, b: Model, from: Pile, count: usize, to: Pile, o: Outcome)
    requires
        moved(a, b, Move::Shift { from, count, to }, o),
        a.score >= 0,
    ensures
        ({
            let base: int = if from is Waste && to is Tableau {
                5
            } else if to is Foundation {
                10
            } else if from is Foundation && to is Tableau {
                -15
            } else {
                0
            };
            let raw: int = base + if o.revealed is Some { 5int } else { 0int };
            &&& raw >= -a.score ==> o.gain == raw && b.score == a.score + raw
            &&& raw < -a.score ==> o.gain == -a.score && b.score == 0
        }),
        b.score >= 0,
        b.moves == a.moves + 1,
{
}

/// `b` is `a` with its last move taken back.
pub open spec fn taken_back(a: Model, b: Model) -> bool {
    let s = a.history@.last();
    &&& same_table(b.table, s.table)
    &&& b.score == s.score
    &&& b.moves == s.moves
    &&& b.recycles == s.recycles
    &&& b.history@ == a.history@.drop_last()
    &&& b.mode == a.mode
    &&& b.won == a.won
    &&& b.proven == a.proven
}

/// Undo takes back a move: after a legal move that does not win, undo returns the table, the
/// score, the move count and the recycles to what they were before it.
pub proof fn law_undo_takes_back_a_move(a: Model, b: Model, c: Model, m: Move, o: Outcome)
    requires
        moved(a, b, m, o),
        !b.won,
        taken_back(b, c),
    ensures
        same_table(c.table, a.table),
        c.score == a.score,
        c.moves == a.moves,
        c.recycles == a.recycles,
        c.mode == a.mode,
{
    let s = b.history@.last();
    assert(same_table(s.table, a.table));
    assert forall|i: int| 0 <= i < COLS implies #[trigger] c.table.col(i) == a.table.col(i) by {
        assert(c.table.col(i) == s.table.col(i));
        assert(s.table.col(i) == a.table.col(i));
    }
    assert forall|i: int| 0 <= i < 4 implies #[trigger] c.table.fnd(i) == a.table.fnd(i) by {
        assert(c.table.fnd(i) == s.table.fnd(i));
        assert(s.table.fnd(i) == a.table.fnd(i));
    }
}

/// A copy of `t`.
fn copy_table(t: &Table) -> (c: Table)
    ensures
        same_table(c, *t),
{
    Table {
        tableau: [copy_cards(&t.tableau[0]), copy_cards(&t.tableau[1]), copy_cards(&t.tableau[2]),
            copy_cards(&t.tableau[3]), copy_cards(&t.tableau[4]), copy_cards(&t.tableau[5]),
            copy_cards(&t.tableau[6])],
        hidden: t.hidden,
        stock: copy_cards(&t.stock),
        waste: copy_cards(&t.waste),
        foundations: [copy_cards(&t.foundations[0]), copy_cards(&t.foundations[1]),
            copy_cards(&t.foundations[2]), copy_cards(&t.foundations[3])],
    }
}

/// Take the top `count` cards off `v`.
fn take_top(v: &mut Vec<Card>, count: usize) -> (run: Vec<Card>)
    requires
        count <= old(v)@.len(),
    ensures
        final(v)@ == old(v)@.take(old(v)@.len() - count),
        run@ == old(v)@.skip(old(v)@.len() - count),
{
    let at = v.len() - count;
    let mut run: Vec<Card> = Vec::new();
    let mut k = at;
    while k < v.len()
        invariant
            at <= k <= v@.len(),
            run@ == v@.subrange(at as int, k as int),
        decreases v@.len() - k,
    {
        run.push(v[k]);
        k += 1;
        proof {
            assert(run@ =~= v@.subrange(at as int, k as int));
        }
    }
    proof {
        assert(run@ =~= v@.skip(at as int));
    }
    v.truncate(at);
    proof {
        assert(v@ =~= old(v)@.take(at as int));
    }
    run
}

/// Put `run` on top of `v`.
fn put_on(v: &mut Vec<Card>, run: &Vec<Card>)
    ensures
        final(v)@ == old(v)@ + run@,
{
    let ghost v0 = v@;
    let mut k: usize = 0;
    while k < run.len()
        invariant
            k <= run@.len(),
            v@ == v0 + run@.take(k as int),
        decreases run@.len() - k,
    {
        v.push(run[k]);
        k += 1;
        proof {
            assert(v@ =~= v0 + run@.take(k as int));
        }
    }
    proof {
        assert(run@.take(k as int) =~= run@);
    }
}

impl Table {
    /// Each column shows no more face-down cards than it holds.
    pub open spec fn sane(&self) -> bool {
        forall|c: int| 0 <= c < COLS ==> #[trigger] self.hidden@[c] <= self.col(c).len()
    }

    /// The cards a shift of `count` from `from` would carry, when they may move together.
    pub open spec fn run_spec(&self, from: Pile, count: int) -> Option<Seq<Card>> {
        let pile = self.pile_spec(from);
        if !from.valid_spec() || count == 0 {
            None
        } else {
            match from {
                Pile::Stock => None,
                Pile::Waste | Pile::Foundation(_) => if count == 1 && pile.len() > 0 { Some(pile.skip(pile.len() - 1)) } else { None },
                Pile::Tableau(c) => if count > pile.len() - self.hidden@[c as int] {
                    None
                } else if built(pile.skip(pile.len() - count)) {
                    Some(pile.skip(pile.len() - count))
                } else {
                    None
                },
            }
        }
    }

    /// Take the top `count` cards of pile `p`, turning up a column's new top when it was face
    /// down.
    fn take_from(&mut self, p: Pile, count: usize) -> (run: Vec<Card>)
        requires
            p.valid_spec(),
            p != Pile::Stock,
            count <= old(self).pile_spec(p).len(),
        ensures
            run@ == old(self).pile_spec(p).skip(old(self).pile_spec(p).len() - count),
            final(self).pile_spec(p) == old(self).pile_spec(p).take(old(self).pile_spec(p).len() - count),
            forall|q: Pile| q.valid_spec() && q != p ==> #[trigger] final(self).pile_spec(q) == old(self).pile_spec(q),
            final(self).hidden@ == old(self).hidden@,
    {
        match p {
            Pile::Stock => take_top(&mut self.stock, count),
            Pile::Waste => take_top(&mut self.waste, count),
            Pile::Foundation(i) => take_top(&mut self.foundations[i], count),
            Pile::Tableau(i) => take_top(&mut self.tableau[i], count),
        }
    }

    /// Put `run` on top of pile `p`.
    fn put_onto(&mut self, p: Pile, run: &Vec<Card>)
        requires
            p.valid_spec(),
        ensures
            final(self).pile_spec(p) == old(self).pile_spec(p) + run@,
            forall|q: Pile| q.valid_spec() && q != p ==> #[trigger] final(self).pile_spec(q) == old(self).pile_spec(q),
            final(self).hidden@ == old(self).hidden@,
    {
        match p {
            Pile::Stock => put_on(&mut self.stock, run),
            Pile::Waste => put_on(&mut self.waste, run),
            Pile::Foundation(i) => put_on(&mut self.foundations[i], run),
            Pile::Tableau(i) => put_on(&mut self.tableau[i], run),
        }
    }
}

impl Model {
    /// Every column sane, in the table and in each position undo can return to, and the undo
    /// history within its reach.
    pub open spec fn wf(&self) -> bool {
        &&& self.table.sane()
        &&& forall|k: int| 0 <= k < self.history@.len() ==> (#[trigger] self.history@[k]).table.sane()
    }

    pub open spec fn can_draw_spec(&self) -> bool {
        !self.won && !(self.table.stock@.len() == 0 && self.table.waste@.len() == 0)
    }

    pub open spec fn can_shift_spec(&self, from: Pile, count: int, to: Pile) -> bool {
        &&& !self.won
        &&& from != to
        &&& to.valid_spec()
        &&& self.table.run_spec(from, count) is Some
        &&& {
            let first = self.table.run_spec(from, count)->0[0];
            match to {
                Pile::Foundation(i) => count == 1 && !(from is Foundation) && self.table.slot_spec(first) == Some(i),
                Pile::Tableau(c) => if self.table.col(c as int).len() == 0 {
                    first.rank_spec() == 13
                } else {
                    first.stacks_on_spec(self.table.col(c as int).last())
                },
                _ => false,
            }
        }
    }

    pub open spec fn legal_spec(&self, m: Move) -> bool {
        match m {
            Move::Draw => self.can_draw_spec(),
            Move::Shift { from, count, to } => self.can_shift_spec(from, count as int, to),
        }
    }

    /// A game on `table`, before its first move.
    pub fn new(mode: DrawMode, table: Table, proven: bool) -> (m: Model)
        ensures
            same_table(m.table, table),
            m.mode == mode,
            m.score == 0,
            m.moves == 0,
            m.recycles == 0,
            m.won == table.won_spec(),
            m.proven == proven,
            m.history@.len() == 0,
    {
        let won = table.won();
        Model { table, mode, score: 0, moves: 0, recycles: 0, won, proven, history: Vec::new() }
    }

    /// Whether the clock runs: from the first move until the win.
    pub fn started(&self) -> (b: bool)
        ensures
            b == (self.moves > 0 && !self.won),
    {
        self.moves > 0 && !self.won
    }

    pub fn can_draw(&self) -> (b: bool)
        ensures
            b == self.can_draw_spec(),
    {
        !self.won && !(self.table.stock.len() == 0 && self.table.waste.len() == 0)
    }

    /// The cards a shift of `count` from `from` would carry, when they may move together.
    pub fn run(&self, from: Pile, count: usize) -> (r: Option<&[Card]>)
        requires
            self.table.sane(),
        ensures
            match r {
                Some(cards) => self.table.run_spec(from, count as int) == Some(cards@),
                None => self.table.run_spec(from, count as int) is None,
            },
    {
        if !from.valid() || count == 0 {
            return None;
        }
        let pile = self.table.pile(from);
        match from {
            Pile::Stock => None,
            Pile::Waste | Pile::Foundation(_) => {
                if count == 1 && pile.len() > 0 {
                    let r = slice_from(pile, pile.len() - 1);
                    Some(r)
                } else {
                    None
                }
            },
            Pile::Tableau(c) => {
                if count > self.table.face_up(c) {
                    return None;
                }
                let run = slice_from(pile, pile.len() - count);
                let mut k: usize = 0;
                while k < run.len() - 1
                    invariant
                        k <= run@.len() - 1,
                        run@.len() == count,
                        count >= 1,
                        from == Pile::Tableau(c),
                        c < COLS,
                        self.table.sane(),
                        count <= self.table.col(c as int).len() - self.table.hidden@[c as int],
                        run@ == self.table.pile_spec(from).skip(self.table.pile_spec(from).len() - count),
                        forall|j: int| 0 <= j < k ==> #[trigger] run@[j + 1].stacks_on_spec(run@[j]),
                    decreases run@.len() - k,
                {
                    if !run[k + 1].stacks_on(run[k]) {
                        assert(!built(run@)) by {
                            assert(!run@[k as int + 1].stacks_on_spec(run@[k as int]));
                        }
                        return None;
                    }
                    k += 1;
                }
                Some(run)
            },
        }
    }

    pub fn can_shift(&self, from: Pile, count: usize, to: Pile) -> (b: bool)
        requires
            self.table.sane(),
        ensures
            b == self.can_shift_spec(from, count as int, to),
    {
        if self.won || from == to || !to.valid() {
            return false;
        }
        let run = match self.run(from, count) {
            Some(r) => r,
            None => return false,
        };
        let first = run[0];
        match to {
            Pile::Foundation(i) => count == 1 && !matches!(from, Pile::Foundation(_))
                && match self.table.foundation_slot(first) {
                    Some(s) => s == i,
                    None => false,
                },
            Pile::Tableau(c) => {
                let col = &self.table.tableau[c];
                if col.len() == 0 {
                    first.rank() == 13
                } else {
                    first.stacks_on(col[col.len() - 1])
                }
            },
            Pile::Stock | Pile::Waste => false,
        }
    }

    pub fn legal(&self, m: Move) -> (b: bool)
        requires
            self.table.sane(),
        ensures
            b == self.legal_spec(m),
    {
        match m {
            Move::Draw => self.can_draw(),
            Move::Shift { from, count, to } => self.can_shift(from, count, to),
        }
    }

    /// Make a move; `None` when it is not legal here. A move that wins sets `won`; the host
    /// adds the time bonus for it.
    #[verifier::spinoff_prover]
    pub fn apply(&mut self, m: Move) -> (out: Option<Outcome>)
        requires
            old(self).wf(),
            i64::MIN < old(self).score <= i64::MAX - 20,
            old(self).moves < u32::MAX,
            old(self).recycles < u32::MAX,
        ensures
            out is Some <==> old(self).legal_spec(m),
            out is None ==> *final(self) == *old(self),
            out matches Some(o) ==> moved(*old(self), *final(self), m, o),
            final(self).wf(),
    {
        if !self.legal(m) {
            return None;
        }
        let ghost m0 = *self;
        let snap = Snap { table: copy_table(&self.table), score: self.score, moves: self.moves, recycles: self.recycles };
        let mut out = Outcome {
            gain: 0,
            drew: 0,
            recycled: false,
            revealed: None,
            homed: None,
            suit_done: false,
            emptied: None,
            won: false,
        };
        match m {
            Move::Draw => {
                let before = self.table.waste.len();
                let n = self.mode.count();
                if turn(&mut self.table.stock, &mut self.table.waste, n) {
                    out.recycled = true;
                    self.recycles = self.recycles + 1;
                    out.gain = -self.mode.recycle_cost();
                } else {
                    out.drew = self.table.waste.len() - before;
                }
                proof {
                    assert(drawn_table(m0.table, self.table, m0.mode.count_spec()));
                    assert forall|c: int| 0 <= c < COLS implies #[trigger] self.table.hidden@[c] <= self.table.col(c).len() by {
                        assert(m0.table.hidden@[c] <= m0.table.col(c).len());
                    }
                }
            },
            Move::Shift { from, count, to } => {
                let ghost t0 = self.table;
                let run = self.table.take_from(from, count);
                let first = run[0];
                self.table.put_onto(to, &run);
                out.gain = match (from, to) {
                    (Pile::Waste, Pile::Tableau(_)) => SCORE_WASTE_TO_TABLEAU,
                    (_, Pile::Foundation(_)) => SCORE_TO_FOUNDATION,
                    (Pile::Foundation(_), Pile::Tableau(_)) => SCORE_FOUNDATION_TO_TABLEAU,
                    _ => 0,
                };
                let ghost t1 = self.table;
                if let Pile::Tableau(c) = from {
                    let len = self.table.tableau[c].len();
                    if len == 0 {
                        out.emptied = Some(c);
                    } else if self.table.hidden[c] == len {
                        self.table.hidden[c] = self.table.hidden[c] - 1;
                        out.revealed = Some((c, self.table.tableau[c][len - 1]));
                        out.gain = out.gain + SCORE_REVEAL;
                    }
                }
                if let Pile::Foundation(_) = to {
                    out.homed = Some(first);
                    out.suit_done = first.rank() == 13;
                }
                proof {
                    lemma_same_piles(t1, self.table);
                    let src = t0.pile_spec(from);
                    assert(self.table.pile_spec(from) == src.take(src.len() - count));
                    assert(self.table.pile_spec(to) == t0.pile_spec(to) + src.skip(src.len() - count));
                    assert(forall|p: Pile| p.valid_spec() && p != from && p != to ==> #[trigger] self.table.pile_spec(p) == t0.pile_spec(p));
                    assert(forall|c: int| 0 <= c < COLS && from != Pile::Tableau(c as usize) ==> #[trigger] self.table.hidden@[c] == t0.hidden@[c]);
                    assert(shifted_table(t0, self.table, from, count as int, to));
                    assert forall|c: int| 0 <= c < COLS implies #[trigger] self.table.hidden@[c] <= self.table.col(c).len() by {
                        let p = Pile::Tableau(c as usize);
                        assert(t0.hidden@[c] <= t0.col(c).len());
                        assert(self.table.pile_spec(p) == self.table.col(c));
                        assert(t0.pile_spec(p) == t0.col(c));
                        if from == p {
                        } else if to == p {
                        } else {
                            assert(self.table.pile_spec(p) == t0.pile_spec(p));
                        }
                    }
                }
            },
        }
        // The score never goes below zero.
        if out.gain < -self.score {
            out.gain = -self.score;
        }
        self.score = self.score + out.gain;
        self.moves = self.moves + 1;
        proof {
            assert(snap.table.sane()) by {
                assert forall|c: int| 0 <= c < COLS implies #[trigger] snap.table.hidden@[c] <= snap.table.col(c).len() by {
                    assert(m0.table.hidden@[c] <= m0.table.col(c).len());
                    assert(snap.table.col(c) == m0.table.col(c));
                }
            }
        }
        let ghost h0 = self.history@;
        self.history.push(snap);
        proof {
            assert forall|k: int| 0 <= k < self.history@.len() implies (#[trigger] self.history@[k]).table.sane() by {
                if k < h0.len() {
                    assert(self.history@[k] == h0[k]);
                }
            }
        }
        if self.history.len() > HISTORY {
            let ghost h1 = self.history@;
            self.history.remove(0);
            proof {
                assert forall|k: int| 0 <= k < self.history@.len() implies (#[trigger] self.history@[k]).table.sane() by {
                    assert(self.history@[k] == h1[k + 1]);
                }
            }
        }
        if self.table.won() {
            self.won = true;
            out.won = true;
        }
        Some(out)
    }

    pub fn can_undo(&self) -> (b: bool)
        ensures
            b == (!self.won && self.history@.len() > 0),
    {
        !self.won && self.history.len() > 0
    }

    /// Take back the last move.
    pub fn undo(&mut self) -> (done: bool)
        requires
            old(self).wf(),
        ensures
            done == (!old(self).won && old(self).history@.len() > 0),
            done ==> taken_back(*old(self), *final(self)),
            !done ==> *final(self) == *old(self),
            final(self).wf(),
    {
        if !self.can_undo() {
            return false;
        }
        let s = self.history.pop().unwrap();
        self.table = s.table;
        self.score = s.score;
        self.moves = s.moves;
        self.recycles = s.recycles;
        true
    }
}

/// The cards of `s` from index `at` on.
fn slice_from(s: &[Card], at: usize) -> (r: &[Card])
    requires
        at <= s@.len(),
    ensures
        r@ == s@.skip(at as int),
{
    let (_, r) = s.split_at(at);
    assert(r@ =~= s@.skip(at as int));
    r
}

/// One move of the search, in the order it names cards and columns. A talon step names its
/// card; [`Model::moves_for`] works out the turns of the stock it takes.
#[derive(Clone, Copy, PartialEq, Eq, Debug, Structural)]
pub enum Step {
    TalonHome(u8),
    TalonTo(u8, u8),
    ColHome(u8),
    ColTo { from: u8, count: u8, to: u8 },
    HomeTo { suit: u8, to: u8 },
}

/// `n` turns of the stock, then the waste's top card onto `to`.
pub open spec fn talon_moves(n: int, to: Pile) -> Seq<Move> {
    Seq::new(n as nat, |i: int| Move::Draw).push(Move::Shift { from: Pile::Waste, count: 1, to })
}

/// The first column from `k` on that a shift of `count` from `from` may go to, holding cards
/// (`filled`) or empty.
pub open spec fn first_target(m: Model, from: Pile, count: int, filled: bool, k: int) -> Option<int>
    decreases COLS - k,
{
    if k >= COLS {
        None
    } else if m.can_shift_spec(from, count, Pile::Tableau(k as usize)) && (m.table.col(k).len() > 0) == filled {
        Some(k)
    } else {
        first_target(m, from, count, filled, k + 1)
    }
}

/// The foundation whose first card has suit `s`, when one is started.
pub open spec fn home_of(t: Table, s: int) -> Option<int> {
    first_started(t.foundations@, s)
}

/// Some sequence of legal moves from a fresh game on `table` wins it: `ms` are the positions,
/// `mvs` the moves and `os` what each reported.
pub open spec fn wins_by(table: Table, mode: DrawMode, ms: Seq<Model>, mvs: Seq<Move>, os: Seq<Outcome>) -> bool {
    &&& ms.len() == mvs.len() + 1
    &&& os.len() == mvs.len()
    &&& same_table(ms[0].table, table)
    &&& ms[0].mode == mode
    &&& ms[0].won == table.won_spec()
    &&& forall|k: int| 0 <= k < mvs.len() ==> (#[trigger] ms[k]).legal_spec(mvs[k]) && moved(ms[k], ms[k + 1], mvs[k], os[k])
    &&& ms.last().won
}

/// The game can be won from `table`: the game's own rules allow a winning line.
pub open spec fn winnable(table: Table, mode: DrawMode) -> bool {
    exists|ms: Seq<Model>, mvs: Seq<Move>, os: Seq<Outcome>| #[trigger] wins_by(table, mode, ms, mvs, os)
}

impl Model {
    /// The foundation a tap sends a single card to, when it can go home.
    pub open spec fn home_target(&self, from: Pile, count: int) -> Option<usize> {
        let pile = self.table.pile_spec(from);
        if count == 1 && pile.len() > 0 {
            match self.table.slot_spec(pile.last()) {
                Some(s) => if self.can_shift_spec(from, 1, Pile::Foundation(s)) { Some(s) } else { None },
                None => None,
            }
        } else {
            None
        }
    }

    /// Where a tap sends the top `count` cards of `from`: home when a single card can go, else
    /// onto another column, an empty one only for a king that is not already heading one.
    pub fn best_target(&self, from: Pile, count: usize) -> (r: Option<Pile>)
        requires
            self.table.sane(),
            from.valid_spec(),
        ensures
            ({
                let home = self.home_target(from, count as int);
                let bare_king = match from {
                    Pile::Tableau(c) => self.table.hidden@[c as int] == 0 && self.table.col(c as int).len() == count,
                    _ => false,
                };
                r == (match home {
                    Some(s) => Some(Pile::Foundation(s)),
                    None => match first_target(*self, from, count as int, true, 0) {
                        Some(c) => Some(Pile::Tableau(c as usize)),
                        None => match first_target(*self, from, count as int, false, 0) {
                            Some(c) => if bare_king { None } else { Some(Pile::Tableau(c as usize)) },
                            None => None,
                        },
                    },
                })
            }),
    {
        if count == 1 {
            let pile = self.table.pile(from);
            if pile.len() > 0 {
                let c = pile[pile.len() - 1];
                if let Some(slot) = self.table.foundation_slot(c) {
                    if self.can_shift(from, 1, Pile::Foundation(slot)) {
                        return Some(Pile::Foundation(slot));
                    }
                }
            }
        }
        let mut empty: Option<usize> = None;
        let mut c: usize = 0;
        while c < COLS
            invariant
                c <= COLS,
                self.table.sane(),
                self.home_target(from, count as int) is None,
                first_target(*self, from, count as int, true, 0) == first_target(*self, from, count as int, true, c as int),
                match empty {
                    Some(e) => first_target(*self, from, count as int, false, 0) == Some(e as int),
                    None => first_target(*self, from, count as int, false, 0) == first_target(*self, from, count as int, false, c as int),
                },
            decreases COLS - c,
        {
            let to = Pile::Tableau(c);
            if self.can_shift(from, count, to) {
                if self.table.tableau[c].len() > 0 {
                    return Some(to);
                }
                if empty.is_none() {
                    empty = Some(c);
                }
            }
            c += 1;
        }
        let bare_king = match from {
            Pile::Tableau(c) => self.table.hidden[c] == 0 && self.table.tableau[c].len() == count,
            _ => false,
        };
        match empty {
            Some(e) => if bare_king { None } else { Some(Pile::Tableau(e)) },
            None => None,
        }
    }

    /// Nothing left to uncover or turn: every remaining card can go home in order.
    pub fn can_finish(&self) -> (b: bool)
        ensures
            b == (!self.won && self.table.stock@.len() == 0 && self.table.waste@.len() == 0
                && forall|c: int| 0 <= c < COLS ==> #[trigger] self.table.hidden@[c] == 0),
    {
        if self.won || self.table.stock.len() > 0 || self.table.waste.len() > 0 {
            return false;
        }
        let mut c: usize = 0;
        while c < COLS
            invariant
                c <= COLS,
                forall|j: int| 0 <= j < c ==> #[trigger] self.table.hidden@[j] == 0,
            decreases COLS - c,
        {
            if self.table.hidden[c] != 0 {
                return false;
            }
            c += 1;
        }
        true
    }

    /// The next card home while finishing: the lowest column top that can go (the leftmost
    /// among equals).
    pub fn finish_move(&self) -> (r: Option<Move>)
        ensures
            r is None <==> forall|c: int| 0 <= c < COLS ==> !(#[trigger] self.table.col(c).len() > 0
                && self.table.slot_spec(self.table.col(c).last()) is Some),
            r matches Some(mv) ==> exists|c: int| {
                &&& 0 <= c < COLS
                &&& #[trigger] self.table.col(c).len() > 0
                &&& self.table.slot_spec(self.table.col(c).last()) is Some
                &&& mv == Move::Shift { from: Pile::Tableau(c as usize), count: 1,
                    to: Pile::Foundation(self.table.slot_spec(self.table.col(c).last())->0) }
                &&& forall|d: int| 0 <= d < COLS && #[trigger] self.table.col(d).len() > 0
                    && self.table.slot_spec(self.table.col(d).last()) is Some ==> self.table.col(c).last().rank_spec()
                    < self.table.col(d).last().rank_spec() || (self.table.col(c).last().rank_spec()
                    == self.table.col(d).last().rank_spec() && c <= d)
            },
    {
        let mut best: Option<(u8, usize, usize)> = None;
        let mut c: usize = 0;
        while c < COLS
            invariant
                c <= COLS,
                best is None ==> forall|j: int| 0 <= j < c ==> !(#[trigger] self.table.col(j).len() > 0
                    && self.table.slot_spec(self.table.col(j).last()) is Some),
                best matches Some(b) ==> {
                    &&& b.1 < c
                    &&& self.table.col(b.1 as int).len() > 0
                    &&& self.table.slot_spec(self.table.col(b.1 as int).last()) == Some(b.2)
                    &&& b.0 == self.table.col(b.1 as int).last().rank_spec()
                    &&& forall|d: int| 0 <= d < c && #[trigger] self.table.col(d).len() > 0
                        && self.table.slot_spec(self.table.col(d).last()) is Some ==> b.0
                        < self.table.col(d).last().rank_spec() || (b.0 == self.table.col(d).last().rank_spec() && b.1 <= d)
                },
            decreases COLS - c,
        {
            let col = &self.table.tableau[c];
            if col.len() > 0 {
                let card = col[col.len() - 1];
                if let Some(slot) = self.table.foundation_slot(card) {
                    let r = card.rank();
                    let better = match best {
                        None => true,
                        Some(b) => r < b.0,
                    };
                    if better {
                        best = Some((r, c, slot));
                    }
                }
            }
            c += 1;
        }
        match best {
            Some(b) => Some(Move::Shift { from: Pile::Tableau(b.1), count: 1, to: Pile::Foundation(b.2) }),
            None => None,
        }
    }

    pub open spec fn moves_for_spec(&self, step: Step) -> Option<Seq<Move>> {
        let t = self.table;
        let n = self.mode.count_spec();
        match step {
            Step::TalonHome(c) => match t.slot_spec(Card(c)) {
                Some(s) => match draws_to_spec(t, Card(c), n) {
                    Some(k) => Some(talon_moves(k, Pile::Foundation(s))),
                    None => None,
                },
                None => None,
            },
            Step::TalonTo(c, col) => match draws_to_spec(t, Card(c), n) {
                Some(k) => Some(talon_moves(k, Pile::Tableau(col as usize))),
                None => None,
            },
            Step::ColHome(col) => if col < COLS && t.col(col as int).len() > 0 {
                match t.slot_spec(t.col(col as int).last()) {
                    Some(s) => Some(seq![Move::Shift { from: Pile::Tableau(col as usize), count: 1, to: Pile::Foundation(s) }]),
                    None => None,
                }
            } else {
                None
            },
            Step::ColTo { from, count, to } => Some(seq![Move::Shift {
                from: Pile::Tableau(from as usize),
                count: count as usize,
                to: Pile::Tableau(to as usize),
            }]),
            Step::HomeTo { suit, to } => match home_of(t, suit as int) {
                Some(s) => Some(seq![Move::Shift { from: Pile::Foundation(s as usize), count: 1, to: Pile::Tableau(to as usize) }]),
                None => None,
            },
        }
    }

    /// The moves that carry out one solver step from here: turns of the stock until a stock
    /// card is on the waste, then the shift.
    pub fn moves_for(&self, step: Step) -> (r: Option<Vec<Move>>)
        ensures
            match r {
                Some(v) => self.moves_for_spec(step) == Some(v@),
                None => self.moves_for_spec(step) is None,
            },
    {
        match step {
            Step::TalonHome(c) => {
                let card = Card(c);
                match self.table.foundation_slot(card) {
                    Some(s) => self.from_talon(card, Pile::Foundation(s)),
                    None => None,
                }
            },
            Step::TalonTo(c, col) => self.from_talon(Card(c), Pile::Tableau(col as usize)),
            Step::ColHome(col) => {
                if (col as usize) < COLS && self.table.tableau[col as usize].len() > 0 {
                    let column = &self.table.tableau[col as usize];
                    let card = column[column.len() - 1];
                    match self.table.foundation_slot(card) {
                        Some(s) => {
                            let v = vec![Move::Shift { from: Pile::Tableau(col as usize), count: 1, to: Pile::Foundation(s) }];
                            proof {
                                assert(v@ =~= seq![Move::Shift { from: Pile::Tableau(col as usize), count: 1, to: Pile::Foundation(s) }]);
                            }
                            Some(v)
                        },
                        None => None,
                    }
                } else {
                    None
                }
            },
            Step::ColTo { from, count, to } => {
                let v = vec![Move::Shift { from: Pile::Tableau(from as usize), count: count as usize, to: Pile::Tableau(to as usize) }];
                proof {
                    assert(v@ =~= seq![Move::Shift { from: Pile::Tableau(from as usize), count: count as usize, to: Pile::Tableau(to as usize) }]);
                }
                Some(v)
            },
            Step::HomeTo { suit, to } => {
                let mut i: usize = 0;
                while i < 4
                    invariant
                        i <= 4,
                        step == (Step::HomeTo { suit, to }),
                        forall|j: int| 0 <= j < i ==> !(#[trigger] self.table.fnd(j).len() > 0 && self.table.fnd(j)[0].suit_spec() == suit),
                    decreases 4 - i,
                {
                    let f = &self.table.foundations[i];
                    if f.len() > 0 && f[0].suit() == suit {
                        let v = vec![Move::Shift { from: Pile::Foundation(i), count: 1, to: Pile::Tableau(to as usize) }];
                        proof {
                            assert(home_of(self.table, suit as int) == Some(i as int));
                            assert(v@ =~= seq![Move::Shift { from: Pile::Foundation(i), count: 1, to: Pile::Tableau(to as usize) }]);
                            assert(self.moves_for_spec(step) == Some(v@));
                        }
                        return Some(v);
                    }
                    i += 1;
                }
                None
            },
        }
    }

    fn from_talon(&self, card: Card, to: Pile) -> (r: Option<Vec<Move>>)
        ensures
            match r {
                Some(v) => match draws_to_spec(self.table, card, self.mode.count_spec()) {
                    Some(k) => v@ == talon_moves(k, to),
                    None => false,
                },
                None => draws_to_spec(self.table, card, self.mode.count_spec()) is None,
            },
    {
        match self.table.draws_to(card, self.mode) {
            Some(n) => {
                let mut v: Vec<Move> = Vec::new();
                let mut k: usize = 0;
                while k < n
                    invariant
                        k <= n,
                        v@ == Seq::new(k as nat, |i: int| Move::Draw),
                    decreases n - k,
                {
                    v.push(Move::Draw);
                    k += 1;
                    proof {
                        assert(v@ =~= Seq::new(k as nat, |i: int| Move::Draw));
                    }
                }
                v.push(Move::Shift { from: Pile::Waste, count: 1, to });
                Some(v)
            },
            None => None,
        }
    }
}

/// The moves a step stands for in position `m` (kept folded in proofs about whole plays).
#[verifier::opaque]
pub open spec fn step_moves(m: Model, step: Step) -> Option<Seq<Move>> {
    m.moves_for_spec(step)
}

/// Positions `ms` follow one another by the legal moves `mvs`, with outcomes `os` (kept
/// folded in proofs about whole plays).
#[verifier::opaque]
pub open spec fn played(ms: Seq<Model>, mvs: Seq<Move>, os: Seq<Outcome>) -> bool {
    &&& ms.len() == mvs.len() + 1
    &&& os.len() == mvs.len()
    &&& forall|k: int| 0 <= k < mvs.len() ==> (#[trigger] ms[k]).legal_spec(mvs[k]) && moved(ms[k], ms[k + 1], mvs[k], os[k])
}

/// A record of `steps` played from `table` by the game's own rules, as far as they go:
/// positions `ms`, moves `mvs` and outcomes `os`, with step `j`'s moves starting at move
/// `cuts[j]`. Either every step is played in full, or the play breaks off at the first step
/// that has no moves or whose next move is refused.
pub open spec fn replay_record(table: Table, mode: DrawMode, steps: Seq<Step>, ms: Seq<Model>, mvs: Seq<Move>,
    os: Seq<Outcome>, cuts: Seq<int>) -> bool {
    &&& played(ms, mvs, os)
    &&& ms.len() == mvs.len() + 1
    &&& same_table(ms[0].table, table)
    &&& ms[0].mode == mode
    &&& ms[0].won == table.won_spec()
    &&& 1 <= cuts.len() <= steps.len() + 1
    &&& cuts[0] == 0
    &&& 0 <= cuts.last() <= mvs.len()
    &&& forall|j: int| 0 <= j < cuts.len() - 1 ==> 0 <= #[trigger] cuts[j] <= cuts[j + 1]
        && step_moves(ms[cuts[j]], steps[j]) == Some(mvs.subrange(cuts[j], cuts[j + 1]))
    &&& cuts.len() == steps.len() + 1 ==> cuts.last() == mvs.len()
    &&& cuts.len() <= steps.len() ==> match step_moves(ms[cuts.last()], steps[cuts.len() - 1]) {
        None => mvs.len() == cuts.last(),
        Some(v) => {
            &&& mvs.len() - cuts.last() < v.len()
            &&& mvs.subrange(cuts.last(), mvs.len() as int) == v.take(mvs.len() - cuts.last())
            &&& !ms.last().legal_spec(v[mvs.len() - cuts.last()])
        },
    }
}

/// Some line of steps, played from `table` by the game's own rules, goes through in full
/// and wins (kept folded in proofs about the hunt for a deal).
#[verifier::opaque]
pub open spec fn replays_won(table: Table, mode: DrawMode) -> bool {
    exists|steps: Seq<Step>, ms: Seq<Model>, mvs: Seq<Move>, os: Seq<Outcome>, cuts: Seq<int>|
        #[trigger] replay_record(table, mode, steps, ms, mvs, os, cuts) && record_wins(steps, ms, cuts)
}

/// The play recorded went through every step and ended with the game won.
pub open spec fn record_wins(steps: Seq<Step>, ms: Seq<Model>, cuts: Seq<int>) -> bool {
    cuts.len() == steps.len() + 1 && ms.last().won
}

/// One more legal move extends a play, and keeps each finished step's record.
proof fn lemma_replay_grow(ms0: Seq<Model>, mvs0: Seq<Move>, os0: Seq<Outcome>, m: Model, mv: Move, o: Outcome,
    cuts: Seq<int>, steps: Seq<Step>)
    requires
        played(ms0, mvs0, os0),
        ms0.last().legal_spec(mv),
        moved(ms0.last(), m, mv, o),
        forall|i: int| 0 <= i < cuts.len() - 1 ==> 0 <= #[trigger] cuts[i] <= cuts[i + 1] <= mvs0.len()
            && step_moves(ms0[cuts[i]], steps[i]) == Some(mvs0.subrange(cuts[i], cuts[i + 1])),
    ensures
        played(ms0.push(m), mvs0.push(mv), os0.push(o)),
        forall|i: int| 0 <= i < cuts.len() - 1 ==> 0 <= #[trigger] cuts[i] <= cuts[i + 1] <= mvs0.len() + 1
            && step_moves(ms0.push(m)[cuts[i]], steps[i]) == Some(mvs0.push(mv).subrange(cuts[i], cuts[i + 1])),
{
    reveal(played);
    let ms = ms0.push(m);
    let mvs = mvs0.push(mv);
    let os = os0.push(o);
    assert forall|i: int| 0 <= i < mvs.len() implies (#[trigger] ms[i]).legal_spec(mvs[i]) && moved(ms[i], ms[i + 1], mvs[i], os[i]) by {
        if i < mvs0.len() {
            assert(ms[i] == ms0[i] && ms[i + 1] == ms0[i + 1] && mvs[i] == mvs0[i] && os[i] == os0[i]);
        } else {
            assert(ms[i] == ms0.last());
        }
    }
    assert forall|i: int| 0 <= i < cuts.len() - 1 implies 0 <= #[trigger] cuts[i] <= cuts[i + 1] <= mvs.len()
        && step_moves(ms[cuts[i]], steps[i]) == Some(mvs.subrange(cuts[i], cuts[i + 1])) by {
        assert(ms[cuts[i]] == ms0[cuts[i]]);
        assert(mvs.subrange(cuts[i], cuts[i + 1]) =~= mvs0.subrange(cuts[i], cuts[i + 1]));
    }
}

/// A record of play that breaks off at a refused move.
proof fn lemma_record_break(table: Table, mode: DrawMode, steps: Seq<Step>, ms: Seq<Model>, mvs: Seq<Move>, os: Seq<Outcome>,
    cuts: Seq<int>, k: int, c0: int, moves: Seq<Move>, j: int)
    requires
        0 <= c0,
        0 <= k < steps.len(),
        0 <= j < moves.len(),
        played(ms, mvs, os),
        ms.len() == mvs.len() + 1,
        same_table(ms[0].table, table),
        ms[0].mode == mode,
        ms[0].won == table.won_spec(),
        cuts.len() == k + 1,
        cuts[0] == 0,
        cuts.last() == c0,
        mvs.len() == c0 + j,
        step_moves(ms[c0], steps[k]) == Some(moves),
        mvs.subrange(c0, mvs.len() as int) == moves.take(j),
        forall|i: int| 0 <= i < cuts.len() - 1 ==> 0 <= #[trigger] cuts[i] <= cuts[i + 1] <= mvs.len()
            && step_moves(ms[cuts[i]], steps[i]) == Some(mvs.subrange(cuts[i], cuts[i + 1])),
        !ms.last().legal_spec(moves[j]),
    ensures
        replay_record(table, mode, steps, ms, mvs, os, cuts),
        !record_wins(steps, ms, cuts),
{
}

/// Playing the next move of a step extends the moves recorded for it.
proof fn lemma_take_push(mvs0: Seq<Move>, mv: Move, c0: int, moves: Seq<Move>, j: int)
    requires
        0 <= c0 <= mvs0.len(),
        0 <= j < moves.len(),
        moves[j] == mv,
        mvs0.subrange(c0, mvs0.len() as int) == moves.take(j),
    ensures
        mvs0.push(mv).subrange(c0, mvs0.len() + 1int) == moves.take(j + 1),
{
    assert(mvs0.push(mv).subrange(c0, mvs0.len() + 1int) =~= mvs0.subrange(c0, mvs0.len() as int).push(mv));
    assert(moves.take(j + 1) =~= moves.take(j).push(mv));
}

/// Play `steps` through the game's own rules from `table`; true when they win it. A step
/// takes at most 53 moves (turns of the stock, then the move), so a line of at most
/// [`MAX_LINE`] steps keeps the game's `u32` move counter from overflowing.
#[verifier::spinoff_prover]
#[verifier::rlimit(80)]
pub fn replays_to_win(table: &Table, mode: DrawMode, steps: &[Step]) -> (won: bool)
    requires
        table.sane(),
        steps@.len() <= MAX_LINE,
    ensures
        won ==> winnable(*table, mode),
        won ==> replays_won(*table, mode),
        exists|ms: Seq<Model>, mvs: Seq<Move>, os: Seq<Outcome>, cuts: Seq<int>|
            #[trigger] replay_record(*table, mode, steps@, ms, mvs, os, cuts) && won == record_wins(steps@, ms, cuts),
{
    let mut m = Model::new(mode, copy_table(table), false);
    let ghost mut ms: Seq<Model> = seq![m];
    let ghost mut mvs: Seq<Move> = Seq::empty();
    let ghost mut os: Seq<Outcome> = Seq::empty();
    let ghost mut cuts: Seq<int> = seq![0int];
    proof {
        reveal(played);
    }
    let mut k: usize = 0;
    while k < steps.len()
        invariant
            k <= steps@.len() <= 80_000_000,
            m.wf(),
            0 <= m.score <= 15 * m.moves,
            m.recycles <= m.moves,
            m.moves <= 53 * k,
            played(ms, mvs, os),
            ms.len() == mvs.len() + 1,
            same_table(ms[0].table, *table),
            ms[0].mode == mode,
            ms[0].won == table.won_spec(),
            ms.last() == m,
            cuts.len() == k + 1,
            cuts[0] == 0,
            cuts.last() == mvs.len(),
            forall|j: int| 0 <= j < cuts.len() - 1 ==> 0 <= #[trigger] cuts[j] <= cuts[j + 1] <= mvs.len()
                && step_moves(ms[cuts[j]], steps@[j]) == Some(mvs.subrange(cuts[j], cuts[j + 1])),
        decreases steps@.len() - k,
    {
        let moves = match m.moves_for(steps[k]) {
            Some(v) => v,
            None => {
                proof {
                    assert(step_moves(m, steps@[k as int]) is None) by {
                        reveal(step_moves);
                    }
                    assert(replay_record(*table, mode, steps@, ms, mvs, os, cuts));
                }
                return false;
            },
        };
        proof {
            assert(step_moves(m, steps@[k as int]) == Some(moves@)) by {
                reveal(step_moves);
            }
            assert(moves@.len() <= 53) by {
                lemma_moves_for_len(m, steps@[k as int]);
            }
        }
        let ghost c0 = mvs.len() as int;
        let mut j: usize = 0;
        while j < moves.len()
            invariant
                j <= moves@.len() <= 53,
                k < steps@.len() <= 80_000_000,
                m.wf(),
                0 <= m.score <= 15 * m.moves,
                m.recycles <= m.moves,
                m.moves <= 53 * k + j,
                played(ms, mvs, os),
                ms.len() == mvs.len() + 1,
                same_table(ms[0].table, *table),
                ms[0].mode == mode,
                ms[0].won == table.won_spec(),
                ms.last() == m,
                cuts.len() == k + 1,
                cuts[0] == 0,
                cuts.last() == c0,
                0 <= c0,
                mvs.len() == c0 + j,
                step_moves(ms[c0], steps@[k as int]) == Some(moves@),
                mvs.subrange(c0, mvs.len() as int) == moves@.take(j as int),
                forall|i: int| 0 <= i < cuts.len() - 1 ==> 0 <= #[trigger] cuts[i] <= cuts[i + 1] <= mvs.len()
                    && step_moves(ms[cuts[i]], steps@[i]) == Some(mvs.subrange(cuts[i], cuts[i + 1])),
            decreases moves@.len() - j,
        {
            let mv = moves[j];
            match m.apply(mv) {
                Some(o) => {
                    proof {
                        lemma_replay_grow(ms, mvs, os, m, mv, o, cuts, steps@);
                        lemma_take_push(mvs, mv, c0, moves@, j as int);
                        let ms0 = ms;
                        ms = ms.push(m);
                        mvs = mvs.push(mv);
                        os = os.push(o);
                        assert(ms[c0] == ms0[c0]);
                    }
                },
                None => {
                    proof {
                        lemma_record_break(*table, mode, steps@, ms, mvs, os, cuts, k as int, c0, moves@, j as int);
                    }
                    return false;
                },
            }
            j += 1;
        }
        proof {
            let cuts0 = cuts;
            cuts = cuts.push(mvs.len() as int);
            assert(moves@.take(j as int) =~= moves@);
            assert forall|i: int| 0 <= i < cuts.len() - 1 implies 0 <= #[trigger] cuts[i] <= cuts[i + 1] <= mvs.len()
                && step_moves(ms[cuts[i]], steps@[i]) == Some(mvs.subrange(cuts[i], cuts[i + 1])) by {
                if i < cuts0.len() - 1 {
                    assert(cuts[i] == cuts0[i] && cuts[i + 1] == cuts0[i + 1]);
                } else {
                    assert(cuts[i] == c0);
                }
            }
        }
        k += 1;
    }
    proof {
        assert(replay_record(*table, mode, steps@, ms, mvs, os, cuts));
        reveal(played);
        if m.won {
            assert(wins_by(*table, mode, ms, mvs, os));
            reveal(replays_won);
            assert(replay_record(*table, mode, steps@, ms, mvs, os, cuts) && record_wins(steps@, ms, cuts));
        }
    }
    m.won
}

/// A step takes at most two whole passes of turns and one shift.
proof fn lemma_moves_for_len(m: Model, step: Step)
    requires
        m.moves_for_spec(step) is Some,
    ensures
        m.moves_for_spec(step)->0.len() <= 53,
{
    let t = m.table;
    let n = m.mode.count_spec();
    match step {
        Step::TalonHome(c) => {
            lemma_draws_to_bound(t, Card(c), n);
        },
        Step::TalonTo(c, col) => {
            lemma_draws_to_bound(t, Card(c), n);
        },
        _ => {},
    }
}

proof fn lemma_draws_to_bound(t: Table, card: Card, n: int)
    ensures
        draws_to_spec(t, card, n) matches Some(k) ==> 0 <= k <= 52,
{
    if !on_top(t.waste@, card) && (t.stock@.contains(card) || t.waste@.contains(card)) && exists|k: int| first_turn_to(t, card, n, k) {
        let k = choose|k: int| first_turn_to(t, card, n, k);
    }
}

pub const FNV_OFFSET: u64 = 0xCBF2_9CE4_8422_2325;
pub const FNV_PRIME: u64 = 0x0100_0000_01B3;

/// `x` rotated left by `k` bits.
fn rotl(x: u64, k: u32) -> (r: u64)
    requires
        0 < k < 64,
    ensures
        r == ((x << k) | (x >> ((64 - k) as u32))),
{
    (x << k) | (x >> (64 - k))
}

fn rank_of(c: u8) -> (r: u8)
    ensures
        r == Card(c).rank_spec(),
        1 <= r <= 13,
{
    c % 13 + 1
}

fn suit_of(c: u8) -> (s: usize)
    ensures
        s == Card(c).suit_spec(),
{
    (c / 13) as usize
}

fn red_of(c: u8) -> (b: bool)
    ensures
        b == Card(c).red_spec(),
{
    Card(c).red()
}

fn stacks(c: u8, under: u8) -> (b: bool)
    ensures
        b == Card(c).stacks_on_spec(Card(under)),
{
    Card(c).stacks_on(Card(under))
}

/// FNV-1a over `bytes`, from `h`.
pub open spec fn fnv_bytes(h: u64, bytes: Seq<u8>) -> u64
    decreases bytes.len(),
{
    if bytes.len() == 0 {
        h
    } else {
        vstd::wrapping::u64_specs::wrapping_mul(fnv_bytes(h, bytes.drop_last()) ^ (bytes.last() as u64), FNV_PRIME)
    }
}

/// A column's key: its face-down count, length and cards, hashed.
pub open spec fn col_key_spec(c: SCol) -> u64 {
    mix_spec(fnv_bytes(FNV_OFFSET ^ (((c.hidden as u64) << 8u64) | c.len as u64), c.cards@.take(c.len as int)))
}

/// A column for the search: fixed storage, so a position copies without allocating.
#[derive(Clone, Copy)]
pub struct SCol {
    pub cards: [u8; 19],
    pub len: u8,
    pub hidden: u8,
}

impl SCol {
    /// At most `MAX_COL` real cards, the top one face up.
    pub open spec fn wf(&self) -> bool {
        &&& self.len <= MAX_COL
        &&& (self.len == 0 ==> self.hidden == 0)
        &&& (self.len > 0 ==> self.hidden < self.len)
        &&& self.hidden <= MAX_HIDDEN
        &&& forall|k: int| 0 <= k < self.len ==> #[trigger] self.cards@[k] < 52
    }

    fn empty() -> (c: SCol)
        ensures
            c.wf(),
            c.len == 0,
            c.hidden == 0,
            c.cards@ == Seq::new(19, |k: int| 0u8),
    {
        SCol { cards: [0; 19], len: 0, hidden: 0 }
    }

    fn top(&self) -> (t: Option<u8>)
        requires
            self.len <= MAX_COL,
        ensures
            t == (if self.len > 0 { Some(self.cards@[self.len - 1]) } else { None }),
    {
        if self.len > 0 { Some(self.cards[self.len as usize - 1]) } else { None }
    }

    fn up(&self) -> (n: usize)
        requires
            self.hidden <= self.len,
        ensures
            n == self.len - self.hidden,
    {
        (self.len - self.hidden) as usize
    }

    /// Add a card on top, when there is room.
    fn push(&mut self, c: u8)
        requires
            old(self).len <= MAX_COL,
        ensures
            old(self).len < MAX_COL ==> final(self).len == old(self).len + 1 && final(self).cards@
                == old(self).cards@.update(old(self).len as int, c),
            old(self).len == MAX_COL ==> *final(self) == *old(self),
            final(self).hidden == old(self).hidden,
            col_view(*final(self)) == laid(col_view(*old(self)), c),
    {
        if (self.len as usize) < MAX_COL {
            let ghost before = self.cards@;
            self.cards[self.len as usize] = c;
            self.len = self.len + 1;
            proof {
                assert(self.cards@.take(self.len as int) =~= before.take(self.len - 1).push(c));
            }
        }
    }

    /// Turn the top card up when the cards over it have gone.
    fn settle(&mut self)
        ensures
            final(self).len == old(self).len,
            final(self).cards == old(self).cards,
            final(self).hidden == (if old(self).len > 0 && old(self).hidden == old(self).len { old(self).hidden - 1 } else { old(self).hidden as int }),
    {
        if self.len > 0 && self.hidden == self.len {
            self.hidden = self.hidden - 1;
        }
    }

    fn key(&self) -> (r: u64)
        requires
            self.len <= MAX_COL,
        ensures
            r == col_key_spec(*self),
    {
        let mut h: u64 = FNV_OFFSET ^ (((self.hidden as u64) << 8) | self.len as u64);
        let ghost h0 = h;
        let mut k: usize = 0;
        while k < self.len as usize
            invariant
                self.len <= MAX_COL,
                k <= self.len,
                h == fnv_bytes(h0, self.cards@.take(k as int)),
            decreases self.len - k,
        {
            proof {
                assert(self.cards@.take(k as int + 1).drop_last() =~= self.cards@.take(k as int));
            }
            h = (h ^ self.cards[k] as u64).wrapping_mul(FNV_PRIME);
            k += 1;
        }
        mix(h)
    }
}

/// A position for the search. The stock and waste are one sequence in the order the stock
/// turns them up: the waste is `talon[..w]`, its top at `w - 1`, and the stock follows.
#[derive(Clone, Copy)]
pub struct SState {
    pub cols: [SCol; 7],
    /// Each suit's foundation height, by suit.
    pub found: [u8; 4],
    pub talon: [u8; 24],
    pub tlen: u8,
    pub w: u8,
}

/// Blake and Gent's first dominance for card `c`: its rank is at most two, or at most two
/// above both foundations of the other color and three above the other foundation of its own.
pub open spec fn safe_spec(s: SState, c: u8) -> bool {
    let r = Card(c).rank_spec();
    let su = Card(c).suit_spec() as usize;
    let a = s.found@[(su ^ 1usize) as int];
    let b = s.found@[(su ^ 3usize) as int];
    let low = if a < b { a } else { b };
    r <= 2 || (r <= low + 2 && r <= s.found@[(su ^ 2usize) as int] + 3)
}

/// The last card of each turn of three from talon position `q`, the turns so far ending at
/// `p`: the positions from `q` up to `p` one short of a multiple of three past `q`, and `p`'s
/// last.
pub open spec fn marks_from(q: int, p: int, b: int) -> bool {
    q <= b < p && ((b - q + 1) % 3 == 0 || b == p - 1)
}

/// Talon position `p` (of `len`) comes to the top of the waste when the stock turns three at a
/// time from a waste of `w` cards: the waste's top, the last card of each turn from there on,
/// and, once the waste is turned back over, the last card of each turn from the start.
pub open spec fn three_reaches(len: int, w: int, p: int) -> bool {
    ||| (w > 0 && p == w - 1)
    ||| marks_from(w, len, p)
    ||| marks_from(0, len, p)
}

/// Setting bit `x` sets that bit and keeps the others.
proof fn lemma_or_bit(m: u32, x: u32)
    requires
        x < 32,
    ensures
        forall|b: u32| b < 32 ==> ((#[trigger] ((m | (1u32 << x)) >> b)) & 1u32 == 1u32) == (((m >> b) & 1u32 == 1u32) || b == x),
{
    assert forall|b: u32| b < 32 implies ((#[trigger] ((m | (1u32 << x)) >> b)) & 1u32 == 1u32) == (((m >> b) & 1u32 == 1u32) || b == x) by {
        assert(x < 32 && b < 32 ==> ((((m | (1u32 << x)) >> b) & 1u32 == 1u32) == (((m >> b) & 1u32 == 1u32) || b == x))) by (bit_vector);
    }
}

/// No bit of zero is set.
proof fn lemma_no_bits()
    ensures
        forall|b: u32| b < 32 ==> ((#[trigger] (0u32 >> b)) & 1u32 == 1u32) == false,
{
    assert forall|b: u32| b < 32 implies ((#[trigger] (0u32 >> b)) & 1u32 == 1u32) == false by {
        assert(((0u32 >> b) & 1u32) == 0u32) by (bit_vector);
    }
}

/// The mask of the `l` low bits sets exactly the bits below `l`.
proof fn lemma_low_bits(l: u32, mask: u32)
    requires
        l <= 24,
        mask + 1 == (1u32 << l),
    ensures
        forall|b: u32| b < 32 ==> ((#[trigger] (mask >> b)) & 1u32 == 1u32) == (b < l),
{
    assert forall|b: u32| b < 32 implies ((#[trigger] (mask >> b)) & 1u32 == 1u32) == (b < l) by {
        assert(l <= 24 && b < 32 && mask + 1 == (1u32 << l) ==> (((mask >> b) & 1u32 == 1u32) == (b < l))) by (bit_vector);
    }
}

/// A step that sends a card to its foundation.
pub open spec fn goes_home(st: Step) -> bool {
    st is ColHome || st is TalonHome
}

/// What the search's dominances allow of a step: part of a built run moves only to free the
/// card beneath it for its foundation, and no foundation card comes back down that the first
/// dominance would send straight home.
pub open spec fn dominance_ok(s: SState, st: Step) -> bool {
    match st {
        Step::ColTo { from, count, to } => {
            let c = s.cols@[from as int];
            count == c.len - c.hidden || homes_spec(s, c.cards@[c.len - count - 1])
        },
        Step::HomeTo { suit, to } => !safe_spec(s, (suit * 13 + s.found@[suit as int] - 1) as u8),
        _ => true,
    }
}

/// The search sends card `c` home by itself: it can go home now, and the first dominance
/// says doing so is never a mistake.
pub open spec fn sends_home(s: SState, c: u8) -> bool {
    homes_spec(s, c) && safe_spec(s, c)
}

/// Card `c` can go on its foundation now.
pub open spec fn homes_spec(s: SState, c: u8) -> bool {
    s.found@[Card(c).suit_spec()] + 1 == Card(c).rank_spec()
}

/// Cards home, over all four foundations.
pub open spec fn found_sum(s: SState) -> int {
    s.found@[0] + s.found@[1] + s.found@[2] + s.found@[3]
}

/// A step the search can make from `s` without breaking it.
pub open spec fn step_ok(s: SState, step: Step) -> bool {
    match step {
        Step::TalonHome(c) => c < 52 && homes_spec(s, c),
        Step::TalonTo(c, to) => c < 52 && to < COLS,
        Step::ColHome(i) => i < COLS && s.cols@[i as int].len > 0 && homes_spec(s, s.cols@[i as int].cards@[s.cols@[i as int].len - 1]),
        Step::ColTo { from, count, to } => from < COLS && to < COLS && from != to && 1 <= count
            && count <= s.cols@[from as int].len - s.cols@[from as int].hidden,
        Step::HomeTo { suit, to } => suit < 4 && to < COLS && s.found@[suit as int] > 0,
    }
}

/// A column as the search reads it: the cards really there, bottom first, and how many of
/// them lie face down.
pub open spec fn col_view(c: SCol) -> (Seq<u8>, u8) {
    (c.cards@.take(c.len as int), c.hidden)
}

/// Column `v` with card `x` laid on top, when there is room for it.
pub open spec fn laid(v: (Seq<u8>, u8), x: u8) -> (Seq<u8>, u8) {
    if v.0.len() < MAX_COL { (v.0.push(x), v.1) } else { v }
}

/// Column `v` with the cards of `run` laid on top one after another, bottom first.
pub open spec fn laid_run(v: (Seq<u8>, u8), run: Seq<u8>) -> (Seq<u8>, u8)
    decreases run.len(),
{
    if run.len() == 0 { v } else { laid(laid_run(v, run.drop_last()), run.last()) }
}

/// Column `v` cut down to its first `n` cards, the new top turned up if it lay face down.
pub open spec fn cut(v: (Seq<u8>, u8), n: int) -> (Seq<u8>, u8) {
    (v.0.take(n), if n > 0 && v.1 == n { (v.1 - 1) as u8 } else { v.1 })
}

/// The talon as the search reads it: its cards in turning order, and how many are the waste.
pub open spec fn talon_view(s: SState) -> (Seq<u8>, u8) {
    (s.talon@.take(s.tlen as int), s.w)
}

/// `p` is where card `c` first lies in `t`, or `t.len()` when it is not there.
pub open spec fn first_of(t: Seq<u8>, c: u8, p: int) -> bool {
    &&& 0 <= p <= t.len()
    &&& forall|j: int| 0 <= j < p ==> t[j] != c
    &&& p < t.len() ==> t[p] == c
}

/// The talon with card `c` played from it: the stock turned until `c` is the waste's top,
/// `c` taken, and the waste left as what lay below it. Unchanged when `c` is not there.
pub open spec fn taken(v: (Seq<u8>, u8), c: u8) -> (Seq<u8>, u8) {
    let p = choose|p: int| first_of(v.0, c, p);
    if p < v.0.len() { (v.0.remove(p), p as u8) } else { v }
}

/// A position as the search reads it: its columns, its foundation heights by suit, and its
/// talon. Storage past a column's or the talon's end is no part of it.
pub open spec fn pos_view(s: SState) -> (Seq<(Seq<u8>, u8)>, Seq<u8>, (Seq<u8>, u8)) {
    (s.cols@.map_values(|c: SCol| col_view(c)), s.found@, talon_view(s))
}

/// The position the search reaches from `s` by `step`.
pub open spec fn next_view(s: SState, step: Step) -> (Seq<(Seq<u8>, u8)>, Seq<u8>, (Seq<u8>, u8)) {
    let cols = pos_view(s).0;
    let found = s.found@;
    let talon = talon_view(s);
    match step {
        Step::TalonHome(c) => {
            let su = Card(c).suit_spec();
            (cols, found.update(su, (found[su] + 1) as u8), taken(talon, c))
        },
        Step::TalonTo(c, to) => (cols.update(to as int, laid(cols[to as int], c)), found, taken(talon, c)),
        Step::ColHome(i) => {
            let v = cols[i as int];
            let su = Card(v.0.last()).suit_spec();
            (cols.update(i as int, cut(v, v.0.len() - 1)), found.update(su, (found[su] + 1) as u8), talon)
        },
        Step::ColTo { from, count, to } => {
            let v = cols[from as int];
            let n = v.0.len() - count;
            (cols.update(to as int, laid_run(cols[to as int], v.0.skip(n))).update(from as int, cut(v, n)), found, talon)
        },
        Step::HomeTo { suit, to } => {
            let c = (suit * 13 + found[suit as int] - 1) as u8;
            (cols.update(to as int, laid(cols[to as int], c)), found.update(suit as int, (found[suit as int] - 1) as u8), talon)
        },
    }
}

/// `ms` are the positions that `steps`, played by the search's rules from `a`, pass through
/// on the way to `b`: each step is allowed where it is made, and leads to the next.
pub open spec fn passes(a: SState, steps: Seq<Step>, ms: Seq<SState>, b: SState) -> bool {
    &&& ms.len() == steps.len() + 1
    &&& pos_view(ms[0]) == pos_view(a)
    &&& pos_view(ms.last()) == pos_view(b)
    &&& forall|i: int| 0 <= i < steps.len() ==> (#[trigger] ms[i]).wf() && step_ok(ms[i], steps[i])
        && pos_view(ms[i + 1]) == next_view(ms[i], steps[i])
}

/// `steps`, played by the search's rules one after another from `a`, reach `b`'s position.
pub open spec fn leads(a: SState, steps: Seq<Step>, b: SState) -> bool {
    exists|ms: Seq<SState>| passes(a, steps, ms, b)
}

/// `steps` played from `a` by the search's rules end with every card home.
pub open spec fn wins_from(a: SState, steps: Seq<Step>) -> bool {
    exists|b: SState| leads(a, steps, b) && b.won_spec()
}

/// No steps lead from a position to itself.
proof fn lemma_leads_nil(a: SState)
    ensures
        leads(a, Seq::empty(), a),
{
    assert(passes(a, Seq::empty(), seq![a], a));
}

/// One more step extends a line.
proof fn lemma_leads_snoc(a: SState, p: Seq<Step>, m: SState, st: Step, b: SState)
    requires
        leads(a, p, m),
        m.wf(),
        step_ok(m, st),
        pos_view(b) == next_view(m, st),
    ensures
        leads(a, p.push(st), b),
{
    let ms = choose|ms: Seq<SState>| passes(a, p, ms, m);
    let ms2 = ms.update(ms.len() - 1, m).push(b);
    let q = p.push(st);
    assert forall|i: int| 0 <= i < q.len() implies (#[trigger] ms2[i]).wf() && step_ok(ms2[i], q[i])
        && pos_view(ms2[i + 1]) == next_view(ms2[i], q[i]) by {
        if i < p.len() {
            assert(ms[i].wf() && step_ok(ms[i], p[i]) && pos_view(ms[i + 1]) == next_view(ms[i], p[i]));
        }
    }
    assert(passes(a, q, ms2, b));
}

/// A line ending where another starts runs on into it.
proof fn lemma_leads_concat(a: SState, p: Seq<Step>, m: SState, q: Seq<Step>, b: SState)
    requires
        leads(a, p, m),
        leads(m, q, b),
    ensures
        leads(a, p + q, b),
{
    let ms = choose|ms: Seq<SState>| passes(a, p, ms, m);
    let ns = choose|ns: Seq<SState>| passes(m, q, ns, b);
    let all = ms.drop_last() + ns;
    let pq = p + q;
    let n = p.len();
    assert forall|i: int| 0 <= i < pq.len() implies (#[trigger] all[i]).wf() && step_ok(all[i], pq[i])
        && pos_view(all[i + 1]) == next_view(all[i], pq[i]) by {
        if i < n {
            assert(all[i] == ms[i]);
            assert(pq[i] == p[i]);
            assert(ms[i].wf() && step_ok(ms[i], p[i]) && pos_view(ms[i + 1]) == next_view(ms[i], p[i]));
            if i + 1 < n {
                assert(all[i + 1] == ms[i + 1]);
            } else {
                assert(all[i + 1] == ns[0]);
            }
        } else {
            assert(all[i] == ns[i - n]);
            assert(pq[i] == q[i - n]);
            assert(all[i + 1] == ns[i - n + 1]);
            assert(ns[i - n].wf() && step_ok(ns[i - n], q[i - n]) && pos_view(ns[i - n + 1]) == next_view(ns[i - n], q[i - n]));
        }
    }
    if n == 0 {
        assert(all[0] == ns[0]);
    } else {
        assert(all[0] == ms[0]);
    }
    assert(all.last() == ns.last());
    assert(passes(a, pq, all, b));
}

/// The height the search gives suit `su`: the top card's rank of the last of the first `i`
/// foundations topped by that suit, else zero.
pub open spec fn found_from(t: Table, su: int, i: int) -> int
    decreases i,
{
    if i <= 0 {
        0
    } else if t.fnd(i - 1).len() > 0 && t.fnd(i - 1).last().suit_spec() == su {
        t.fnd(i - 1).last().rank_spec()
    } else {
        found_from(t, su, i - 1)
    }
}

/// `s` holds table `t`'s columns, face-down counts and foundation heights, as the search
/// keeps them.
pub open spec fn mirrors(s: SState, t: Table) -> bool {
    &&& forall|i: int| 0 <= i < COLS ==> (#[trigger] s.cols@[i]).len == t.col(i).len()
        && s.cols@[i].hidden == (if t.hidden@[i] < t.col(i).len() { t.hidden@[i] as int } else { t.col(i).len() as int })
        && forall|k: int| 0 <= k < t.col(i).len() ==> s.cols@[i].cards@[k] == (#[trigger] t.col(i)[k]).0
    &&& forall|su: int| 0 <= su < 4 ==> #[trigger] s.found@[su] == found_from(t, su, 4)
}

/// The search's talon for table `t`: the waste from the bottom up, then the stock from its
/// top down, as far as the talon reaches.
pub open spec fn talon_cards(t: Table) -> Seq<u8> {
    let all = t.waste@.map_values(|c: Card| c.0) + t.stock@.reverse().map_values(|c: Card| c.0);
    if all.len() <= TALON { all } else { all.take(TALON as int) }
}

/// `s` is the search's picture of table `t`, every unused slot zero.
pub open spec fn loaded(s: SState, t: Table) -> bool {
    &&& mirrors(s, t)
    &&& forall|i: int, m: int| 0 <= i < COLS && s.cols@[i].len <= m < MAX_COL ==> #[trigger] s.cols@[i].cards@[m] == 0
    &&& s.tlen == talon_cards(t).len()
    &&& s.w == (if t.waste@.len() < TALON { t.waste@.len() as int } else { TALON as int })
    &&& forall|m: int| 0 <= m < s.tlen ==> #[trigger] s.talon@[m] == talon_cards(t)[m]
    &&& forall|m: int| s.tlen <= m < TALON ==> #[trigger] s.talon@[m] == 0
}

/// The search's picture of table `t`.
pub open spec fn table_state(t: Table) -> SState {
    choose|s: SState| loaded(s, t)
}

/// A table has one picture.
proof fn lemma_loaded_unique(a: SState, b: SState, t: Table)
    requires
        loaded(a, t),
        loaded(b, t),
    ensures
        a == b,
{
    assert forall|i: int| 0 <= i < COLS implies #[trigger] a.cols@[i] == b.cols@[i] by {
        let ca = a.cols@[i];
        let cb = b.cols@[i];
        assert forall|m: int| 0 <= m < MAX_COL implies ca.cards@[m] == cb.cards@[m] by {
            if m < ca.len {
                assert(ca.cards@[m] == t.col(i)[m].0);
            }
        }
        assert(ca.cards =~= cb.cards);
    }
    assert(a.cols =~= b.cols);
    assert forall|su: int| 0 <= su < 4 implies a.found@[su] == b.found@[su] by {}
    assert(a.found =~= b.found);
    assert forall|m: int| 0 <= m < TALON implies a.talon@[m] == b.talon@[m] by {}
    assert(a.talon =~= b.talon);
}

/// Whether a step can be made depends only on what the search keeps of the table.
proof fn lemma_mirrors_step_ok(a: SState, b: SState, t: Table, st: Step)
    requires
        mirrors(a, t),
        mirrors(b, t),
        step_ok(a, st),
    ensures
        step_ok(b, st),
{
    assert(a.found@ =~= b.found@);
    match st {
        Step::ColHome(i) => {
            let n = a.cols@[i as int].len - 1;
            assert(a.cols@[i as int].cards@[n] == t.col(i as int)[n].0);
        },
        Step::ColTo { from, count, to } => {
            assert(a.cols@[from as int].len == b.cols@[from as int].len);
        },
        _ => {},
    }
}

impl SState {
    /// Columns, foundations and talon within their storage, every card real.
    pub open spec fn wf(&self) -> bool {
        &&& forall|i: int| 0 <= i < COLS ==> (#[trigger] self.cols@[i]).wf()
        &&& forall|s: int| 0 <= s < 4 ==> #[trigger] self.found@[s] <= 13
        &&& self.tlen <= TALON
        &&& self.w <= self.tlen
        &&& forall|k: int| 0 <= k < self.tlen ==> #[trigger] self.talon@[k] < 52
    }

    pub open spec fn won_spec(&self) -> bool {
        self.found@ == seq![13u8, 13u8, 13u8, 13u8]
    }

    fn won(&self) -> (b: bool)
        ensures
            b == self.won_spec(),
    {
        let r = self.found[0] == 13 && self.found[1] == 13 && self.found[2] == 13 && self.found[3] == 13;
        proof {
            if r {
                assert(self.found@ =~= seq![13u8, 13u8, 13u8, 13u8]);
            }
        }
        r
    }

    fn homes(&self, c: u8) -> (b: bool)
        requires
            c < 52,
        ensures
            b == homes_spec(*self, c),
    {
        self.found[suit_of(c)] as u16 + 1 == rank_of(c) as u16
    }

    /// Blake and Gent's first dominance: nothing still out could need this card, so sending
    /// it home can never be a mistake. At most two ranks above both foundations of the other
    /// color and three above the other foundation of its own.
    fn safe(&self, c: u8) -> (b: bool)
        requires
            c < 52,
            self.wf(),
        ensures
            b == safe_spec(*self, c),
    {
        let r = rank_of(c);
        let s = suit_of(c);
        assert((s ^ 1usize) < 4 && (s ^ 3usize) < 4 && (s ^ 2usize) < 4) by (bit_vector)
            requires s < 4;
        let a = self.found[s ^ 1];
        let b = self.found[s ^ 3];
        let low = if a < b { a } else { b };
        r <= 2 || (r <= low + 2 && r <= self.found[s ^ 2] + 3)
    }

    /// Positions in the talon some number of turns brings to the top of the waste, as a mask.
    fn reach(&self, mode: DrawMode) -> (m: u32)
        requires
            self.wf(),
        ensures
            forall|b: u32| b < 32 ==> ((#[trigger] (m >> b)) & 1u32 == 1u32) == (if mode == DrawMode::One {
                b < self.tlen
            } else {
                three_reaches(self.tlen as int, self.w as int, b as int)
            }),
    {
        let len = self.tlen as usize;
        if mode == DrawMode::One {
            let l = len as u32;
            assert((1u32 << l) >= 1) by (bit_vector)
                requires l <= 24;
            let mask: u32 = (1u32 << l) - 1;
            proof {
                lemma_low_bits(l, mask);
            }
            return mask;
        }
        let w = self.w as usize;
        let mut m: u32 = 0;
        proof {
            lemma_no_bits();
        }
        if w > 0 {
            proof {
                lemma_or_bit(m, (w - 1) as u32);
            }
            m = m | (1u32 << (w - 1) as u32);
        }
        let mut p = w;
        while p < len
            invariant
                w <= p <= len <= TALON,
                w <= len,
                (p - w) % 3 == 0 || p == len,
                forall|b: u32| b < 32 ==> ((#[trigger] (m >> b)) & 1u32 == 1u32) == ((w > 0 && b == w - 1)
                    || marks_from(w as int, p as int, b as int)),
            decreases len - p,
        {
            p = if p + 3 < len { p + 3 } else { len };
            proof {
                lemma_or_bit(m, (p - 1) as u32);
            }
            m = m | (1u32 << (p - 1) as u32);
        }
        // After turning the waste back over, the passes start again from the first card.
        let mut p: usize = 0;
        while p < len
            invariant
                p <= len <= TALON,
                w <= len,
                p % 3 == 0 || p == len,
                forall|b: u32| b < 32 ==> ((#[trigger] (m >> b)) & 1u32 == 1u32) == ((w > 0 && b == w - 1)
                    || marks_from(w as int, len as int, b as int) || marks_from(0, p as int, b as int)),
            decreases len - p,
        {
            p = if p + 3 < len { p + 3 } else { len };
            proof {
                lemma_or_bit(m, (p - 1) as u32);
            }
            m = m | (1u32 << (p - 1) as u32);
        }
        m
    }

    /// Play a talon card: turn to it, then take it, leaving the waste below it.
    fn take_talon(&mut self, c: u8)
        requires
            old(self).wf(),
        ensures
            final(self).wf(),
            final(self).cols == old(self).cols,
            final(self).found == old(self).found,
            final(self).tlen <= old(self).tlen,
            (exists|p: int| 0 <= p < old(self).tlen && old(self).talon@[p] == c) ==> final(self).tlen == old(self).tlen - 1,
            talon_view(*final(self)) == taken(talon_view(*old(self)), c),
    {
        let len = self.tlen as usize;
        let mut p: usize = 0;
        while p < len && self.talon[p] != c
            invariant
                p <= len,
                len == self.tlen,
                self.wf(),
                forall|j: int| 0 <= j < p ==> self.talon@[j] != c,
            decreases len - p,
        {
            p += 1;
        }
        let ghost v0 = talon_view(*self);
        proof {
            assert(first_of(v0.0, c, p as int));
            let q = choose|q: int| first_of(v0.0, c, q);
            if q < p {
                assert(v0.0[q] == c);
            } else if p < q {
                assert(v0.0[p as int] == c);
            }
            assert(q == p);
        }
        if p < len {
            let ghost t0 = self.talon@;
            let mut k = p;
            while k + 1 < len
                invariant
                    p <= k < len,
                    len == self.tlen,
                    len <= TALON,
                    self.wf(),
                    self.cols == old(self).cols,
                    self.found == old(self).found,
                    self.w == old(self).w,
                    t0 == old(self).talon@,
                    forall|j: int| 0 <= j < p ==> self.talon@[j] == t0[j],
                    forall|j: int| p <= j < k ==> self.talon@[j] == t0[j + 1],
                    forall|j: int| k <= j < TALON ==> self.talon@[j] == t0[j],
                decreases len - k,
            {
                self.talon[k] = self.talon[k + 1];
                k += 1;
            }
            self.tlen = self.tlen - 1;
            self.w = p as u8;
            proof {
                assert forall|j: int| 0 <= j < self.tlen implies #[trigger] self.talon@[j] < 52 by {
                    assert(j < len);
                }
                assert(self.talon@.take(self.tlen as int) =~= v0.0.remove(p as int));
            }
        }
    }

    fn apply(&mut self, step: Step)
        requires
            old(self).wf(),
            step_ok(*old(self), step),
        ensures
            final(self).wf(),
            step is ColHome ==> found_sum(*final(self)) == found_sum(*old(self)) + 1 && final(self).tlen == old(self).tlen,
            step is TalonHome ==> found_sum(*final(self)) == found_sum(*old(self)) + 1 && final(self).tlen <= old(self).tlen,
            step matches Step::TalonHome(c) && (exists|p: int| 0 <= p < old(self).tlen && old(self).talon@[p] == c)
                ==> final(self).tlen == old(self).tlen - 1,
            pos_view(*final(self)) == next_view(*old(self), step),
    {
        let ghost cols0 = pos_view(*self).0;
        match step {
            Step::TalonHome(c) => {
                self.take_talon(c);
                let s = suit_of(c);
                self.found[s] = self.found[s] + 1;
                proof {
                    assert(pos_view(*self).0 =~= cols0);
                }
            },
            Step::TalonTo(c, to) => {
                self.take_talon(c);
                self.cols[to as usize].push(c);
                proof {
                    assert(pos_view(*self).0 =~= cols0.update(to as int, laid(cols0[to as int], c)));
                }
            },
            Step::ColHome(i) => {
                let c = self.cols[i as usize].cards[self.cols[i as usize].len as usize - 1];
                let ghost v = cols0[i as int];
                assert(v.0.last() == c);
                self.cols[i as usize].len = self.cols[i as usize].len - 1;
                self.cols[i as usize].settle();
                let s = suit_of(c);
                self.found[s] = self.found[s] + 1;
                proof {
                    assert(col_view(self.cols@[i as int]) == cut(v, v.0.len() - 1)) by {
                        assert(self.cols@[i as int].cards@.take(self.cols@[i as int].len as int) =~= v.0.take(v.0.len() - 1));
                    }
                    assert(pos_view(*self).0 =~= cols0.update(i as int, cut(v, v.0.len() - 1)));
                }
            },
            Step::ColTo { from, count, to } => {
                let f = from as usize;
                let t = to as usize;
                let start = self.cols[f].len as usize - count as usize;
                let end = self.cols[f].len as usize;
                let ghost v = cols0[f as int];
                let ghost run = v.0.skip(start as int);
                let ghost s0 = *self;
                let mut k = start;
                while k < end
                    invariant
                        start <= k <= end,
                        end == self.cols@[f as int].len,
                        f < COLS,
                        t < COLS,
                        f != t,
                        self.wf(),
                        count <= self.cols@[f as int].len - self.cols@[f as int].hidden,
                        start == end - count,
                        v == col_view(s0.cols@[f as int]),
                        run == v.0.skip(start as int),
                        self.cols@[f as int] == s0.cols@[f as int],
                        self.found == s0.found,
                        self.talon == s0.talon,
                        self.tlen == s0.tlen,
                        self.w == s0.w,
                        forall|j: int| 0 <= j < COLS && j != t ==> self.cols@[j] == s0.cols@[j],
                        col_view(self.cols@[t as int]) == laid_run(col_view(s0.cols@[t as int]), run.take(k - start)),
                    decreases end - k,
                {
                    let c = self.cols[f].cards[k];
                    let ghost before = col_view(self.cols@[t as int]);
                    self.cols[t].push(c);
                    k += 1;
                    proof {
                        assert(run.take(k - start).drop_last() =~= run.take(k - 1 - start));
                        assert(run.take(k - start).last() == c);
                    }
                }
                self.cols[f].len = self.cols[f].len - count;
                self.cols[f].settle();
                proof {
                    assert(run.take(end - start) =~= run);
                    assert(col_view(self.cols@[f as int]) == cut(v, start as int)) by {
                        assert(self.cols@[f as int].cards@.take(self.cols@[f as int].len as int) =~= v.0.take(start as int));
                    }
                    assert(pos_view(*self).0 =~= cols0.update(t as int, laid_run(cols0[t as int], run)).update(f as int, cut(v, start as int)));
                }
            },
            Step::HomeTo { suit: s, to } => {
                let su = s as usize;
                let c = s * 13 + self.found[su] - 1;
                self.found[su] = self.found[su] - 1;
                self.cols[to as usize].push(c);
                proof {
                    assert(pos_view(*self).0 =~= cols0.update(to as int, laid(cols0[to as int], c)));
                }
            },
        }
    }
}

impl Table {
    /// A table the search can take in: real cards, columns within their storage with the top
    /// card face up.
    pub open spec fn searchable(&self) -> bool {
        &&& forall|i: int| 0 <= i < COLS ==> #[trigger] self.col(i).len() <= MAX_COL && self.hidden@[i] <= MAX_HIDDEN
            && (self.col(i).len() == 0 ==> self.hidden@[i] == 0) && (self.col(i).len() > 0 ==> self.hidden@[i] < self.col(i).len())
        &&& forall|i: int, k: int| 0 <= i < COLS && 0 <= k < self.col(i).len() ==> (#[trigger] self.col(i)[k]).0 < 52
        &&& forall|k: int| 0 <= k < self.stock@.len() ==> (#[trigger] self.stock@[k]).0 < 52
        &&& forall|k: int| 0 <= k < self.waste@.len() ==> (#[trigger] self.waste@[k]).0 < 52
        &&& forall|i: int, k: int| 0 <= i < 4 && 0 <= k < self.fnd(i).len() ==> (#[trigger] self.fnd(i)[k]).0 < 52
    }
}

/// A valid table is one the search can take in.
pub proof fn lemma_valid_searchable(t: Table)
    requires
        t.valid_spec(),
    ensures
        t.searchable(),
{
    assert forall|i: int| 0 <= i < COLS implies #[trigger] t.col(i).len() <= MAX_COL && t.hidden@[i] <= MAX_HIDDEN
        && (t.col(i).len() == 0 ==> t.hidden@[i] == 0) && (t.col(i).len() > 0 ==> t.hidden@[i] < t.col(i).len()) by {
        assert(column_ok(t.col(i), t.hidden@[i] as int));
    }
    let all = t.all_cards();
    lemma_flat_split(t.tableau@, 0);
    assert forall|i: int, k: int| 0 <= i < COLS && 0 <= k < t.col(i).len() implies (#[trigger] t.col(i)[k]).0 < 52 by {
        lemma_flat_member(t.tableau@, i, k);
        let at = choose|at: int| 0 <= at < flat(t.tableau@).len() && flat(t.tableau@)[at] == t.col(i)[k];
        assert(all[at] == flat(t.tableau@)[at]);
    }
    assert forall|k: int| 0 <= k < t.stock@.len() implies (#[trigger] t.stock@[k]).0 < 52 by {
        assert(all[flat(t.tableau@).len() + k] == t.stock@[k]);
    }
    assert forall|k: int| 0 <= k < t.waste@.len() implies (#[trigger] t.waste@[k]).0 < 52 by {
        assert(all[flat(t.tableau@).len() + t.stock@.len() + k] == t.waste@[k]);
    }
    assert forall|i: int, k: int| 0 <= i < 4 && 0 <= k < t.fnd(i).len() implies (#[trigger] t.fnd(i)[k]).0 < 52 by {
        lemma_flat_member(t.foundations@, i, k);
        let at = choose|at: int| 0 <= at < flat(t.foundations@).len() && flat(t.foundations@)[at] == t.fnd(i)[k];
        assert(all[flat(t.tableau@).len() + t.stock@.len() + t.waste@.len() + at] == t.fnd(i)[k]);
    }
}

/// Each card of each pile appears in the piles' concatenation.
proof fn lemma_flat_member(cols: Seq<Vec<Card>>, i: int, k: int)
    requires
        0 <= i < cols.len(),
        0 <= k < cols[i]@.len(),
    ensures
        exists|at: int| 0 <= at < flat(cols).len() && flat(cols)[at] == cols[i]@[k],
    decreases cols.len(),
{
    if i == cols.len() - 1 {
        let at = flat(cols.drop_last()).len() + k;
        assert(flat(cols)[at] == cols[i]@[k]);
    } else {
        lemma_flat_member(cols.drop_last(), i, k);
        let at = choose|at: int| 0 <= at < flat(cols.drop_last()).len() && flat(cols.drop_last())[at] == cols.drop_last()[i]@[k];
        assert(flat(cols)[at] == flat(cols.drop_last())[at]);
    }
}

impl SState {
    #[verifier::spinoff_prover]
    fn from_table(t: &Table) -> (s: SState)
        requires
            t.searchable(),
        ensures
            s.wf(),
            mirrors(s, *t),
            loaded(s, *t),
            s == table_state(*t),
    {
        let w = if t.waste.len() < TALON { t.waste.len() } else { TALON };
        let mut s = SState {
            cols: [SCol::empty(), SCol::empty(), SCol::empty(), SCol::empty(), SCol::empty(), SCol::empty(), SCol::empty()],
            found: [0, 0, 0, 0],
            talon: [0; 24],
            tlen: 0,
            w: w as u8,
        };
        let mut i: usize = 0;
        while i < COLS
            invariant
                i <= COLS,
                t.searchable(),
                forall|j: int| 0 <= j < COLS ==> (#[trigger] s.cols@[j]).wf(),
                forall|j: int| i <= j < COLS ==> (#[trigger] s.cols@[j]).len == 0,
                forall|j: int, m: int| 0 <= j < COLS && s.cols@[j].len <= m < MAX_COL ==> #[trigger] s.cols@[j].cards@[m] == 0,
                forall|j: int| 0 <= j < 4 ==> #[trigger] s.found@[j] == 0,
                s.tlen == 0,
                s.w == w,
                forall|m: int| 0 <= m < TALON ==> #[trigger] s.talon@[m] == 0,
                forall|j: int| 0 <= j < i ==> (#[trigger] s.cols@[j]).len == t.col(j).len()
                    && s.cols@[j].hidden == (if t.hidden@[j] < t.col(j).len() { t.hidden@[j] as int } else { t.col(j).len() as int })
                    && forall|k: int| 0 <= k < t.col(j).len() ==> s.cols@[j].cards@[k] == (#[trigger] t.col(j)[k]).0,
            decreases COLS - i,
        {
            let cards = &t.tableau[i];
            let mut k: usize = 0;
            while k < cards.len()
                invariant
                    i < COLS,
                    k <= cards@.len() <= MAX_COL,
                    cards@ == t.col(i as int),
                    t.searchable(),
                    s.cols@[i as int].len == k,
                    s.cols@[i as int].hidden == 0,
                    forall|m: int| 0 <= m < k ==> #[trigger] s.cols@[i as int].cards@[m] < 52,
                    forall|j: int| 0 <= j < COLS && j != i ==> (#[trigger] s.cols@[j]).wf(),
                    forall|j: int| i < j < COLS ==> (#[trigger] s.cols@[j]).len == 0,
                    forall|j: int, m: int| 0 <= j < COLS && s.cols@[j].len <= m < MAX_COL ==> #[trigger] s.cols@[j].cards@[m] == 0,
                    forall|j: int| 0 <= j < 4 ==> #[trigger] s.found@[j] == 0,
                    s.tlen == 0,
                    s.w == w,
                    forall|m: int| 0 <= m < TALON ==> #[trigger] s.talon@[m] == 0,
                    forall|m: int| 0 <= m < k ==> s.cols@[i as int].cards@[m] == (#[trigger] t.col(i as int)[m]).0,
                    forall|j: int| 0 <= j < i ==> (#[trigger] s.cols@[j]).len == t.col(j).len()
                        && s.cols@[j].hidden == (if t.hidden@[j] < t.col(j).len() { t.hidden@[j] as int } else { t.col(j).len() as int })
                        && forall|k: int| 0 <= k < t.col(j).len() ==> s.cols@[j].cards@[k] == (#[trigger] t.col(j)[k]).0,
                decreases cards@.len() - k,
            {
                let c = cards[k].0;
                assert(t.col(i as int)[k as int].0 < 52);
                s.cols[i].push(c);
                k += 1;
            }
            let hidden = t.hidden[i];
            s.cols[i].hidden = (if hidden < s.cols[i].len as usize { hidden } else { s.cols[i].len as usize }) as u8;
            i += 1;
        }
        let mut i: usize = 0;
        while i < 4
            invariant
                i <= 4,
                t.searchable(),
                forall|j: int| 0 <= j < 4 ==> #[trigger] s.found@[j] <= 13,
                forall|j: int| 0 <= j < COLS ==> (#[trigger] s.cols@[j]).wf(),
                forall|j: int, m: int| 0 <= j < COLS && s.cols@[j].len <= m < MAX_COL ==> #[trigger] s.cols@[j].cards@[m] == 0,
                s.tlen == 0,
                s.w == w,
                forall|m: int| 0 <= m < TALON ==> #[trigger] s.talon@[m] == 0,
                forall|su: int| 0 <= su < 4 ==> #[trigger] s.found@[su] == found_from(*t, su, i as int),
                forall|j: int| 0 <= j < COLS ==> (#[trigger] s.cols@[j]).len == t.col(j).len()
                    && s.cols@[j].hidden == (if t.hidden@[j] < t.col(j).len() { t.hidden@[j] as int } else { t.col(j).len() as int })
                    && forall|k: int| 0 <= k < t.col(j).len() ==> s.cols@[j].cards@[k] == (#[trigger] t.col(j)[k]).0,
            decreases 4 - i,
        {
            let f = &t.foundations[i];
            if f.len() > 0 {
                let top = f[f.len() - 1];
                assert(t.fnd(i as int)[f@.len() - 1].0 < 52);
                let su = top.suit() as usize;
                s.found[su] = top.rank();
            }
            i += 1;
        }
        let ghost cols0 = s.cols;
        let ghost found0 = s.found;
        let ghost all = t.waste@.map_values(|c: Card| c.0) + t.stock@.reverse().map_values(|c: Card| c.0);
        proof {
            assert(mirrors(s, *t));
        }
        let mut k: usize = 0;
        while k < t.waste.len() && (s.tlen as usize) < TALON
            invariant
                s.cols == cols0 && s.found == found0,
                k <= t.waste@.len(),
                s.tlen == k,
                s.tlen <= TALON,
                t.searchable(),
                all == t.waste@.map_values(|c: Card| c.0) + t.stock@.reverse().map_values(|c: Card| c.0),
                forall|m: int| 0 <= m < s.tlen ==> #[trigger] s.talon@[m] < 52,
                forall|m: int| 0 <= m < s.tlen ==> #[trigger] s.talon@[m] == all[m],
                forall|m: int| s.tlen <= m < TALON ==> #[trigger] s.talon@[m] == 0,
                s.w == w,
                w == (if t.waste@.len() < TALON { t.waste@.len() as int } else { TALON as int }),
                forall|j: int| 0 <= j < COLS ==> (#[trigger] s.cols@[j]).wf(),
                forall|j: int| 0 <= j < 4 ==> #[trigger] s.found@[j] <= 13,
            decreases t.waste@.len() - k,
        {
            s.talon[s.tlen as usize] = t.waste[k].0;
            s.tlen = s.tlen + 1;
            k += 1;
        }
        let mut k = t.stock.len();
        while k > 0 && (s.tlen as usize) < TALON
            invariant
                s.cols == cols0 && s.found == found0,
                k <= t.stock@.len(),
                s.tlen <= TALON,
                t.searchable(),
                all == t.waste@.map_values(|c: Card| c.0) + t.stock@.reverse().map_values(|c: Card| c.0),
                s.tlen == w + (t.stock@.len() - k),
                w == (if t.waste@.len() < TALON { t.waste@.len() as int } else { TALON as int }),
                w < TALON ==> w == t.waste@.len(),
                w == TALON ==> k == t.stock@.len(),
                forall|m: int| 0 <= m < s.tlen ==> #[trigger] s.talon@[m] < 52,
                forall|m: int| 0 <= m < s.tlen ==> #[trigger] s.talon@[m] == all[m],
                forall|m: int| s.tlen <= m < TALON ==> #[trigger] s.talon@[m] == 0,
                s.w <= s.tlen,
                s.w == w,
                forall|j: int| 0 <= j < COLS ==> (#[trigger] s.cols@[j]).wf(),
                forall|j: int| 0 <= j < 4 ==> #[trigger] s.found@[j] <= 13,
            decreases k,
        {
            k -= 1;
            proof {
                assert(all[s.tlen as int] == t.stock@[k as int].0);
            }
            s.talon[s.tlen as usize] = t.stock[k].0;
            s.tlen = s.tlen + 1;
        }
        proof {
            assert(s.tlen == talon_cards(*t).len());
            assert(loaded(s, *t));
            lemma_loaded_unique(s, table_state(*t), *t);
        }
        s
    }

    /// The transposition table's key. Columns are sorted first: the same position with its
    /// columns in another order is the same position. Turning one at a time, every stock card
    /// is always reachable, so only which cards remain matters, not their order.
    #[verifier::spinoff_prover]
    pub fn key(&self, mode: DrawMode) -> (r: u64)
        requires
            self.wf(),
        ensures
            r == key_spec(*self, mode),
    {
        let mut cols: [u64; 7] = [0; 7];
        let mut i: usize = 0;
        while i < COLS
            invariant
                i <= COLS,
                self.wf(),
                cols@.len() == 7,
                forall|j: int| 0 <= j < i ==> #[trigger] cols@[j] == col_key_spec(self.cols@[j]),
            decreases COLS - i,
        {
            cols[i] = self.cols[i].key();
            i += 1;
        }
        proof {
            assert(cols@ =~= col_keys(*self));
        }
        let ghost unsorted = cols@;
        sort_keys(&mut cols);
        proof {
            lemma_sorted_of(cols@, unsorted.to_multiset());
        }
        let mut h: u64 = FNV_OFFSET;
        let mut i: usize = 0;
        while i < COLS
            invariant
                i <= COLS,
                cols@.len() == 7,
                h == mix_fold(FNV_OFFSET, cols@.take(i as int)),
            decreases COLS - i,
        {
            proof {
                assert(cols@.take(i as int + 1).drop_last() =~= cols@.take(i as int));
            }
            h = mix(h ^ cols[i]);
            i += 1;
        }
        proof {
            assert(cols@.take(7) =~= cols@);
        }
        let packed: u64 = (self.found[0] as u64) | ((self.found[1] as u64) << 8) | ((self.found[2] as u64) << 16)
            | ((self.found[3] as u64) << 24) | (1u64 << 32);
        h = h ^ rotl(mix(packed), 17);
        let len = self.tlen as usize;
        let mut t: u64 = if mode == DrawMode::One { 0 } else { FNV_OFFSET ^ self.w as u64 };
        let ghost t0 = t;
        let mut k: usize = 0;
        while k < len
            invariant
                len <= TALON,
                self.wf(),
                len == self.tlen,
                k <= len,
                t == talon_fold(t0, self.talon@.take(k as int), mode),
            decreases len - k,
        {
            proof {
                assert(self.talon@.take(k as int + 1).drop_last() =~= self.talon@.take(k as int));
            }
            let c = self.talon[k];
            t = if mode == DrawMode::One { t | (1u64 << c as u64) } else { (t ^ c as u64).wrapping_mul(FNV_PRIME) };
            k += 1;
        }
        h ^ rotl(mix(t ^ 0xA5A5_5A5A_C3C3_3C3C), 31)
    }
}

/// Sort `v` ascending.
/// The columns' keys, column by column.
pub open spec fn col_keys(s: SState) -> Seq<u64> {
    s.cols@.map_values(|c: SCol| col_key_spec(c))
}

/// The keys `m` holds, in ascending order.
pub open spec fn sorted_of(m: Multiset<u64>) -> Seq<u64> {
    choose|q: Seq<u64>| ascending(q) && q.to_multiset() == m
}

/// The ascending keys of `m` are the only ascending sequence of them.
proof fn lemma_sorted_of(q: Seq<u64>, m: Multiset<u64>)
    requires
        ascending(q),
        q.to_multiset() == m,
    ensures
        sorted_of(m) == q,
{
    let p = sorted_of(m);
    let leq = |a: u64, b: u64| a <= b;
    assert(vstd::relations::total_ordering(leq));
    assert(vstd::relations::sorted_by(q, leq));
    assert(ascending(p) && p.to_multiset() == m);
    assert(vstd::relations::sorted_by(p, leq));
    vstd::seq_lib::lemma_sorted_unique(p, q, leq);
}

/// Hashing the column keys in turn, from `h`.
pub open spec fn mix_fold(h: u64, q: Seq<u64>) -> u64
    decreases q.len(),
{
    if q.len() == 0 { h } else { mix_spec(mix_fold(h, q.drop_last()) ^ q.last()) }
}

/// Folding the talon's cards into its part of the key: a set of cards when one turns at a
/// time, else the cards in order.
pub open spec fn talon_fold(t: u64, cards: Seq<u8>, mode: DrawMode) -> u64
    decreases cards.len(),
{
    if cards.len() == 0 {
        t
    } else {
        let p = talon_fold(t, cards.drop_last(), mode);
        if mode == DrawMode::One {
            p | (1u64 << (cards.last() as u64))
        } else {
            vstd::wrapping::u64_specs::wrapping_mul(p ^ (cards.last() as u64), FNV_PRIME)
        }
    }
}

/// A left rotation by `k` bits.
pub open spec fn rotl_spec(x: u64, k: u32) -> u64 {
    (x << k) | (x >> ((64 - k) as u32))
}

/// A position's key: its column keys in ascending order, its foundations and its talon.
pub open spec fn key_spec(s: SState, mode: DrawMode) -> u64 {
    let h = mix_fold(FNV_OFFSET, sorted_of(col_keys(s).to_multiset()));
    let packed = (s.found@[0] as u64) | ((s.found@[1] as u64) << 8u64) | ((s.found@[2] as u64) << 16u64)
        | ((s.found@[3] as u64) << 24u64) | (1u64 << 32u64);
    let h2 = h ^ rotl_spec(mix_spec(packed), 17);
    let t0: u64 = if mode == DrawMode::One { 0 } else { FNV_OFFSET ^ (s.w as u64) };
    h2 ^ rotl_spec(mix_spec(talon_fold(t0, s.talon@.take(s.tlen as int), mode) ^ 0xA5A5_5A5A_C3C3_3C3Cu64), 31)
}

/// Sequences with the same entries keep the same entries through a map.
proof fn lemma_multiset_map(s1: Seq<SCol>, s2: Seq<SCol>)
    requires
        s1.to_multiset() == s2.to_multiset(),
    ensures
        s1.map_values(|c: SCol| col_key_spec(c)).to_multiset() == s2.map_values(|c: SCol| col_key_spec(c)).to_multiset(),
    decreases s1.len(),
{
    broadcast use vstd::seq_lib::group_seq_properties;
    broadcast use vstd::multiset::group_multiset_axioms;
    s1.to_multiset_ensures();
    s2.to_multiset_ensures();
    let f = |c: SCol| col_key_spec(c);
    if s1.len() == 0 {
        assert(s2.len() == 0);
        assert(s1.map_values(f) =~= s2.map_values(f));
    } else {
        let x = s1.last();
        assert(s1.contains(x));
        assert(s2.to_multiset().count(x) > 0);
        assert(s2.contains(x));
        let i = choose|i: int| 0 <= i < s2.len() && s2[i] == x;
        let r1 = s1.drop_last();
        let r2 = s2.remove(i);
        assert(s1 =~= r1.push(x));
        vstd::seq_lib::to_multiset_build(r1, x);
        vstd::seq_lib::to_multiset_remove(s2, i);
        assert(r1.to_multiset() =~= r2.to_multiset());
        lemma_multiset_map(r1, r2);
        assert(s1.map_values(f) =~= r1.map_values(f).push(f(x)));
        vstd::seq_lib::to_multiset_build(r1.map_values(f), f(x));
        assert(s2.map_values(f) =~= r2.map_values(f).insert(i, f(x)));
        vstd::seq_lib::to_multiset_insert(r2.map_values(f), i, f(x));
    }
}

/// The search's key is canonical: two positions that hold the same columns in another order,
/// with the same foundations and talon, get the same key.
pub proof fn law_the_key_ignores_column_order(a: SState, b: SState, mode: DrawMode)
    requires
        a.cols@.to_multiset() == b.cols@.to_multiset(),
        a.found == b.found,
        a.talon == b.talon,
        a.tlen == b.tlen,
        a.w == b.w,
    ensures
        key_spec(a, mode) == key_spec(b, mode),
{
    lemma_multiset_map(a.cols@, b.cols@);
}

/// Ascending order.
pub open spec fn ascending(q: Seq<u64>) -> bool {
    forall|a: int, b: int| 0 <= a < b < q.len() ==> q[a] <= q[b]
}

/// Exchanging two entries keeps a sequence's entries.
proof fn lemma_swap_multiset(s: Seq<u64>, i: int, j: int)
    requires
        0 <= i < s.len(),
        0 <= j < s.len(),
    ensures
        s.update(i, s[j]).update(j, s[i]).to_multiset() == s.to_multiset(),
{
    broadcast use vstd::seq_lib::group_seq_properties;
    broadcast use vstd::multiset::group_multiset_axioms;
    let u = s.update(i, s[j]);
    vstd::seq_lib::to_multiset_update(s, i, s[j]);
    vstd::seq_lib::to_multiset_update(u, j, s[i]);
    if i == j {
        assert(u.update(j, s[i]) =~= s);
    } else {
        assert(u[j] == s[j]);
        assert(s.to_multiset().count(s[i]) >= 1) by {
            assert(s.contains(s[i]));
        }
        assert(u.update(j, s[i]).to_multiset() =~= s.to_multiset());
    }
}

/// Sort the seven column keys, insertion sort.
fn sort_keys(v: &mut [u64; 7])
    ensures
        ascending(final(v)@),
        final(v)@.to_multiset() == old(v)@.to_multiset(),
        final(v)@.len() == 7,
{
    let mut i: usize = 1;
    while i < 7
        invariant
            1 <= i <= 7,
            v@.len() == 7,
            forall|a: int, b: int| 0 <= a < b < i ==> v@[a] <= v@[b],
            v@.to_multiset() == old(v)@.to_multiset(),
        decreases 7 - i,
    {
        let mut j = i;
        while j > 0 && v[j - 1] > v[j]
            invariant
                j <= i < 7,
                v@.len() == 7,
                forall|a: int, b: int| 0 <= a < b <= i && b != j && a != j ==> v@[a] <= v@[b],
                forall|b: int| j < b <= i ==> v@[j as int] < v@[b],
                0 < j < i ==> v@[j - 1] <= v@[j + 1],
                v@.to_multiset() == old(v)@.to_multiset(),
            decreases j,
        {
            let ghost before = v@;
            let a = v[j - 1];
            v[j - 1] = v[j];
            v[j] = a;
            proof {
                lemma_swap_multiset(before, j - 1, j as int);
                assert(v@ == before.update(j - 1, before[j as int]).update(j as int, before[j - 1]));
            }
            j -= 1;
        }
        i += 1;
    }
}

/// Send every safe card home (the first dominance), recording each as a step.
#[verifier::spinoff_prover]
fn auto_home(s: &mut SState, mode: DrawMode, path: &mut Vec<Step>)
    requires
        old(s).wf(),
    ensures
        final(s).wf(),
        found_sum(*final(s)) >= found_sum(*old(s)),
        final(path)@.len() >= old(path)@.len(),
        final(path)@.take(old(path)@.len() as int) == old(path)@,
        forall|j: int| old(path)@.len() <= j < final(path)@.len() ==> (#[trigger] final(path)@[j]) is ColHome
            || final(path)@[j] is TalonHome,
        forall|i: int| 0 <= i < COLS && (#[trigger] final(s).cols@[i]).len > 0 ==> !sends_home(*final(s),
            final(s).cols@[i].cards@[final(s).cols@[i].len - 1]),
        mode == DrawMode::One ==> forall|k: int| 0 <= k < final(s).tlen ==> !#[trigger] sends_home(*final(s), final(s).talon@[k]),
        leads(*old(s), final(path)@.skip(old(path)@.len() as int), *final(s)),
{
    let ghost path0 = path@;
    let ghost s0 = *s;
    proof {
        lemma_leads_nil(s0);
        assert(path@.skip(path0.len() as int) =~= Seq::<Step>::empty());
    }
    loop
        invariant
            s.wf(),
            found_sum(*s) >= found_sum(*old(s)),
            path@.len() >= path0.len(),
            path@.take(path0.len() as int) == path0,
            forall|j: int| path0.len() <= j < path@.len() ==> (#[trigger] path@[j]) is ColHome || path@[j] is TalonHome,
            leads(s0, path@.skip(path0.len() as int), *s),
        ensures
            s.wf(),
            found_sum(*s) >= found_sum(*old(s)),
            path@.len() >= path0.len(),
            path@.take(path0.len() as int) == path0,
            forall|j: int| path0.len() <= j < path@.len() ==> (#[trigger] path@[j]) is ColHome || path@[j] is TalonHome,
            leads(s0, path@.skip(path0.len() as int), *s),
            forall|i: int| 0 <= i < COLS && (#[trigger] s.cols@[i]).len > 0 ==> !sends_home(*s,
                s.cols@[i].cards@[s.cols@[i].len - 1]),
            mode == DrawMode::One ==> forall|k: int| 0 <= k < s.tlen ==> !#[trigger] sends_home(*s, s.talon@[k]),
        decreases 52 - found_sum(*s),
    {
        let ghost before = found_sum(*s);
        let ghost start = *s;
        let mut moved = false;
        let mut i: usize = 0;
        while i < COLS
            invariant
                i <= COLS,
                s.wf(),
                found_sum(*s) >= before,
                before >= found_sum(*old(s)),
                moved ==> found_sum(*s) > before,
                !moved ==> *s == start,
                !moved ==> forall|j: int| 0 <= j < i && (#[trigger] start.cols@[j]).len > 0 ==> !sends_home(start,
                    start.cols@[j].cards@[start.cols@[j].len - 1]),
                path@.len() >= path0.len(),
                path@.take(path0.len() as int) == path0,
                forall|j: int| path0.len() <= j < path@.len() ==> (#[trigger] path@[j]) is ColHome || path@[j] is TalonHome,
                leads(s0, path@.skip(path0.len() as int), *s),
            decreases COLS - i,
        {
            if let Some(c) = s.cols[i].top() {
                assert(s.cols@[i as int].wf());
                if s.homes(c) && s.safe(c) {
                    let ghost sb = *s;
                    s.apply(Step::ColHome(i as u8));
                    let ghost p1 = path@;
                    path.push(Step::ColHome(i as u8));
                    proof {
                        assert(path@.take(path0.len() as int) =~= p1.take(path0.len() as int));
                        lemma_leads_snoc(s0, p1.skip(path0.len() as int), sb, Step::ColHome(i as u8), *s);
                        assert(path@.skip(path0.len() as int) =~= p1.skip(path0.len() as int).push(Step::ColHome(i as u8)));
                    }
                    moved = true;
                }
            }
            i += 1;
        }
        // Only turning one at a time does the stock work like a reserve the dominance holds for.
        if mode == DrawMode::One {
            let mut i: usize = 0;
            while i < s.tlen as usize
                invariant
                    s.wf(),
                    found_sum(*s) >= before,
                    before >= found_sum(*old(s)),
                    moved ==> found_sum(*s) > before,
                    !moved ==> *s == start,
                    !moved ==> forall|j: int| 0 <= j < COLS && (#[trigger] start.cols@[j]).len > 0 ==> !sends_home(start,
                        start.cols@[j].cards@[start.cols@[j].len - 1]),
                    !moved ==> forall|k: int| 0 <= k < i ==> !#[trigger] sends_home(start, start.talon@[k]),
                    path@.len() >= path0.len(),
                    path@.take(path0.len() as int) == path0,
                    forall|j: int| path0.len() <= j < path@.len() ==> (#[trigger] path@[j]) is ColHome || path@[j] is TalonHome,
                    leads(s0, path@.skip(path0.len() as int), *s),
                decreases s.tlen - i,
            {
                let c = s.talon[i];
                if s.homes(c) && s.safe(c) {
                    let ghost sb = *s;
                    s.apply(Step::TalonHome(c));
                    let ghost p1 = path@;
                    path.push(Step::TalonHome(c));
                    proof {
                        assert(path@.take(path0.len() as int) =~= p1.take(path0.len() as int));
                        lemma_leads_snoc(s0, p1.skip(path0.len() as int), sb, Step::TalonHome(c), *s);
                        assert(path@.skip(path0.len() as int) =~= p1.skip(path0.len() as int).push(Step::TalonHome(c)));
                    }
                    moved = true;
                } else {
                    i += 1;
                }
            }
        }
        if !moved {
            break;
        }
        proof {
            assert(found_sum(*s) <= 52);
        }
    }
}

/// How far a restart's shuffle can lift a move past a better-rated one.
pub const JITTER: usize = 160;

/// Insert `item` after every entry rated at least as high, so equal ratings keep their order.
fn insert_rated(sorted: &mut Vec<(i32, Step)>, item: (i32, Step))
    requires
        rated_desc(old(sorted)@),
    ensures
        rated_desc(final(sorted)@),
        final(sorted)@ == old(sorted)@.insert(first_lower(old(sorted)@, item.0), item),
        final(sorted)@.to_multiset() == old(sorted)@.to_multiset().insert(item),
        final(sorted)@.len() == old(sorted)@.len() + 1,
        forall|k: int| 0 <= k < final(sorted)@.len() ==> (#[trigger] final(sorted)@[k] == item
            || old(sorted)@.contains(final(sorted)@[k])),
{
    let mut pos: usize = 0;
    while pos < sorted.len() && sorted[pos].0 >= item.0
        invariant
            pos <= sorted@.len(),
            forall|k: int| 0 <= k < pos ==> (#[trigger] sorted@[k]).0 >= item.0,
        decreases sorted@.len() - pos,
    {
        pos += 1;
    }
    let ghost s0 = sorted@;
    proof {
        lemma_first_lower(s0, item.0, pos as int);
    }
    sorted.insert(pos, item);
    proof {
        vstd::seq_lib::to_multiset_insert(s0, pos as int, item);
        assert forall|k: int| 0 <= k < sorted@.len() implies (#[trigger] sorted@[k] == item || s0.contains(sorted@[k])) by {
            if k < pos {
                assert(sorted@[k] == s0[k]);
            } else if k > pos {
                assert(sorted@[k] == s0[k - 1]);
            }
        }
        assert forall|i: int, j: int| 0 <= i < j < sorted@.len() implies (#[trigger] sorted@[i]).0 >= (#[trigger] sorted@[j]).0 by {
            if pos < s0.len() {
                assert(s0[pos as int].0 < item.0);
            }
            if i < pos && j > pos {
                assert(sorted@[j] == s0[j - 1]);
                assert(s0[i].0 >= s0[j - 1].0);
            }
        }
    }
}

/// Where an entry rated `v` goes among entries rated highest first: after every entry rated
/// at least `v`.
pub open spec fn first_lower(s: Seq<(i32, Step)>, v: i32) -> int
    decreases s.len(),
{
    if s.len() == 0 {
        0
    } else if s[0].0 < v {
        0
    } else {
        1 + first_lower(s.drop_first(), v)
    }
}

/// `rated` ordered highest rated first, equal ratings in their order.
pub open spec fn sorted_rated(rated: Seq<(i32, Step)>) -> Seq<(i32, Step)>
    decreases rated.len(),
{
    if rated.len() == 0 {
        Seq::empty()
    } else {
        let s = sorted_rated(rated.drop_last());
        s.insert(first_lower(s, rated.last().0), rated.last())
    }
}

proof fn lemma_first_lower(s: Seq<(i32, Step)>, v: i32, pos: int)
    requires
        0 <= pos <= s.len(),
        forall|k: int| 0 <= k < pos ==> (#[trigger] s[k]).0 >= v,
        pos == s.len() || s[pos].0 < v,
    ensures
        first_lower(s, v) == pos,
    decreases s.len(),
{
    if s.len() > 0 && pos > 0 {
        assert forall|k: int| 0 <= k < pos - 1 implies (#[trigger] s.drop_first()[k]).0 >= v by {
            assert(s.drop_first()[k] == s[k + 1]);
        }
        lemma_first_lower(s.drop_first(), v, pos - 1);
    }
}

proof fn lemma_first_lower_bound(s: Seq<(i32, Step)>, v: i32)
    ensures
        0 <= first_lower(s, v) <= s.len(),
    decreases s.len(),
{
    if s.len() > 0 && s[0].0 >= v {
        lemma_first_lower_bound(s.drop_first(), v);
    }
}

/// Sorting keeps every entry.
proof fn lemma_sorted_rated_len(r: Seq<(i32, Step)>)
    ensures
        sorted_rated(r).len() == r.len(),
    decreases r.len(),
{
    if r.len() > 0 {
        lemma_sorted_rated_len(r.drop_last());
        lemma_first_lower_bound(sorted_rated(r.drop_last()), r.last().0);
    }
}

/// Ratings from highest to lowest.
pub open spec fn rated_desc(r: Seq<(i32, Step)>) -> bool {
    forall|i: int, j: int| 0 <= i < j < r.len() ==> (#[trigger] r[i]).0 >= (#[trigger] r[j]).0
}

/// `x` is one of the entries of `rated`.
pub open spec fn rated_in(x: (i32, Step), rated: Seq<(i32, Step)>) -> bool {
    exists|j: int| 0 <= j < rated.len() && rated[j] == x
}

/// `x` is the step of one of the entries of `rated`.
pub open spec fn step_in(x: Step, rated: Seq<(i32, Step)>) -> bool {
    exists|j: int| 0 <= j < rated.len() && rated[j].1 == x
}

/// The steps of `rated`, highest rated first, equal ratings in their order.
fn best_first(rated: &Vec<(i32, Step)>) -> (steps: Vec<Step>)
    ensures
        forall|k: int| 0 <= k < steps@.len() ==> step_in(#[trigger] steps@[k], rated@),
        exists|sorted: Seq<(i32, Step)>| #![trigger rated_desc(sorted)] rated_desc(sorted)
            && sorted.to_multiset() == rated@.to_multiset() && steps@ == sorted.map_values(|x: (i32, Step)| x.1),
        steps@ == sorted_rated(rated@).map_values(|x: (i32, Step)| x.1),
{
    let mut sorted: Vec<(i32, Step)> = Vec::new();
    let mut k: usize = 0;
    proof {
        assert(sorted@.to_multiset() =~= rated@.take(0).to_multiset()) by {
            assert(rated@.take(0) =~= sorted@);
        }
        assert(rated@.take(0) =~= Seq::<(i32, Step)>::empty());
        assert(sorted@ =~= sorted_rated(rated@.take(0)));
    }
    while k < rated.len()
        invariant
            k <= rated@.len(),
            forall|m: int| 0 <= m < sorted@.len() ==> rated_in(#[trigger] sorted@[m], rated@),
            rated_desc(sorted@),
            sorted@.to_multiset() == rated@.take(k as int).to_multiset(),
            sorted@ == sorted_rated(rated@.take(k as int)),
        decreases rated@.len() - k,
    {
        let ghost s0 = sorted@;
        insert_rated(&mut sorted, rated[k]);
        proof {
            assert forall|m: int| 0 <= m < sorted@.len() implies rated_in(#[trigger] sorted@[m], rated@) by {
                if sorted@[m] == rated@[k as int] {
                } else {
                    let i = choose|i: int| 0 <= i < s0.len() && s0[i] == sorted@[m];
                    assert(rated_in(s0[i], rated@));
                }
            }
            assert(rated@.take(k as int + 1) =~= rated@.take(k as int).push(rated@[k as int]));
            assert(rated@.take(k as int + 1).drop_last() =~= rated@.take(k as int));
            vstd::seq_lib::to_multiset_build(rated@.take(k as int), rated@[k as int]);
        }
        k += 1;
    }
    proof {
        assert(rated@.take(k as int) =~= rated@);
    }
    let mut steps: Vec<Step> = Vec::new();
    let mut k: usize = 0;
    while k < sorted.len()
        invariant
            k <= sorted@.len(),
            steps@.len() == k,
            forall|m: int| 0 <= m < k ==> #[trigger] steps@[m] == sorted@[m].1,
            forall|m: int| 0 <= m < sorted@.len() ==> rated_in(#[trigger] sorted@[m], rated@),
        decreases sorted@.len() - k,
    {
        steps.push(sorted[k].1);
        k += 1;
    }
    proof {
        assert forall|m: int| 0 <= m < steps@.len() implies step_in(#[trigger] steps@[m], rated@) by {
            assert(rated_in(sorted@[m], rated@));
        }
        assert(steps@ =~= sorted@.map_values(|x: (i32, Step)| x.1));
    }
    steps
}

/// Offer card `c`, the top of suit `su`'s foundation, back down onto each column it may go on.
fn worry_back(s: &SState, su: usize, c: u8, first_empty: Option<usize>, out: &mut Vec<(i32, Step)>)
    requires
        s.wf(),
        su < 4,
        s.found@[su as int] > 0,
        c < 52,
        c == su * 13 + s.found@[su as int] - 1,
        !safe_spec(*s, c),
        forall|m: int| 0 <= m < old(out)@.len() ==> step_ok(*s, (#[trigger] old(out)@[m]).1) && dominance_ok(*s, old(out)@[m].1) && old(out)@[m].0 <= 960,
    ensures
        forall|m: int| 0 <= m < final(out)@.len() ==> step_ok(*s, (#[trigger] final(out)@[m]).1) && dominance_ok(*s, final(out)@[m].1) && final(out)@[m].0 <= 960,
        final(out)@.len() >= old(out)@.len(),
        forall|m: int| 0 <= m < old(out)@.len() ==> (#[trigger] final(out)@[m]) == old(out)@[m],
        forall|m: int| old(out)@.len() <= m < final(out)@.len() ==> (#[trigger] final(out)@[m]).1 is HomeTo,
        final(out)@ == old(out)@ + worry_list(*s, su as int, c, first_empty, COLS as int),
        final(out)@ == old(out)@ + worried(*s, su as int, first_empty),
{
    let f = s.found[su];
    let mut to: usize = 0;
    while to < COLS
        invariant
            to <= COLS,
            su < 4,
            f == s.found@[su as int],
            f > 0,
            c < 52,
            c == su * 13 + s.found@[su as int] - 1,
            !safe_spec(*s, c),
            s.wf(),
            forall|m: int| 0 <= m < out@.len() ==> step_ok(*s, (#[trigger] out@[m]).1) && dominance_ok(*s, out@[m].1) && out@[m].0 <= 960,
            out@.len() >= old(out)@.len(),
            forall|m: int| 0 <= m < old(out)@.len() ==> (#[trigger] out@[m]) == old(out)@[m],
            forall|m: int| old(out)@.len() <= m < out@.len() ==> (#[trigger] out@[m]).1 is HomeTo,
            out@ == old(out)@ + worry_list(*s, su as int, c, first_empty, to as int),
        decreases COLS - to,
    {
        let dest = s.cols[to];
        assert(dest.wf());
        let ok = match dest.top() {
            Some(top) => stacks(c, top),
            None => f == 13 && first_empty == Some(to),
        };
        proof {
            assert(worry_list(*s, su as int, c, first_empty, to as int + 1) == worry_list(*s, su as int, c, first_empty, to as int)
                + if worry_fits(*s, su as int, c, first_empty, to as int) {
                    seq![(60i32, Step::HomeTo { suit: su as u8, to: to as u8 })]
                } else {
                    Seq::empty()
                });
            assert(ok == worry_fits(*s, su as int, c, first_empty, to as int));
        }
        if ok {
            let ghost o0 = out@;
            out.push((60, Step::HomeTo { suit: su as u8, to: to as u8 }));
            proof {
                assert forall|m: int| 0 <= m < out@.len() implies step_ok(*s, (#[trigger] out@[m]).1) && dominance_ok(*s, out@[m].1) && out@[m].0 <= 960 by {
                    if m < o0.len() {
                        assert(out@[m] == o0[m]);
                    }
                }
            }
        }
        to += 1;
    }
}

/// Foundation card `c` of suit `su` can come down onto column `to`: onto a card it stacks on,
/// or, a king, onto the first empty column.
pub open spec fn worry_fits(s: SState, su: int, c: u8, first_empty: Option<usize>, to: int) -> bool {
    if s.cols@[to].len > 0 {
        Card(c).stacks_on_spec(Card(s.cols@[to].cards@[s.cols@[to].len - 1]))
    } else {
        s.found@[su] == 13 && first_empty == Some(to as usize)
    }
}

/// The moves bringing foundation card `c` of suit `su` down onto the first `n` columns.
pub open spec fn worry_list(s: SState, su: int, c: u8, first_empty: Option<usize>, n: int) -> Seq<(i32, Step)>
    decreases n,
{
    if n <= 0 {
        Seq::empty()
    } else {
        worry_list(s, su, c, first_empty, n - 1) + if worry_fits(s, su, c, first_empty, n - 1) {
            seq![(60i32, Step::HomeTo { suit: su as u8, to: (n - 1) as u8 })]
        } else {
            Seq::empty()
        }
    }
}

/// The moves bringing suit `su`'s top foundation card down: none when the foundation is empty
/// or the first dominance would send the card straight home.
pub open spec fn worried(s: SState, su: int, first_empty: Option<usize>) -> Seq<(i32, Step)> {
    let c = (su * 13 + s.found@[su] - 1) as u8;
    if s.found@[su] > 0 && !safe_spec(s, c) { worry_list(s, su, c, first_empty, COLS as int) } else { Seq::empty() }
}

/// Worry the top of suit `su`'s foundation back down, unless the first dominance would send it
/// straight home again.
fn worry_suit(s: &SState, su: usize, first_empty: Option<usize>, out: &mut Vec<(i32, Step)>)
    requires
        s.wf(),
        su < 4,
        forall|m: int| 0 <= m < old(out)@.len() ==> step_ok(*s, (#[trigger] old(out)@[m]).1) && dominance_ok(*s, old(out)@[m].1) && old(out)@[m].0 <= 960,
    ensures
        forall|m: int| 0 <= m < final(out)@.len() ==> step_ok(*s, (#[trigger] final(out)@[m]).1) && dominance_ok(*s, final(out)@[m].1) && final(out)@[m].0 <= 960,
        final(out)@.len() >= old(out)@.len(),
        forall|m: int| 0 <= m < old(out)@.len() ==> (#[trigger] final(out)@[m]) == old(out)@[m],
        forall|m: int| old(out)@.len() <= m < final(out)@.len() ==> (#[trigger] final(out)@[m]).1 is HomeTo,
        final(out)@ == old(out)@ + worried(*s, su as int, first_empty),
{
    let f = s.found[su];
    if f > 0 {
        let c = su as u8 * 13 + f - 1;
        if !s.safe(c) {
            worry_back(s, su, c, first_empty, out);
        } else {
            proof {
                assert(out@ =~= old(out)@ + worried(*s, su as int, first_empty));
            }
        }
    } else {
        proof {
            assert(out@ =~= old(out)@ + worried(*s, su as int, first_empty));
        }
    }
}

/// The first empty column among the first `n`.
pub open spec fn first_empty_in(s: SState, n: int) -> Option<usize>
    decreases n,
{
    if n <= 0 {
        None
    } else {
        match first_empty_in(s, n - 1) {
            Some(i) => Some(i),
            None => if s.cols@[n - 1].len == 0 { Some((n - 1) as usize) } else { None },
        }
    }
}

/// Column `i`'s top card going home, rated by what it uncovers.
pub open spec fn col_home_at(s: SState, i: int) -> Seq<(i32, Step)> {
    let col = s.cols@[i];
    if col.len > 0 && homes_spec(s, col.cards@[col.len - 1]) {
        let prio: i32 = if col.hidden > 0 && col.len - col.hidden == 1 { (900 + 10 * col.hidden) as i32 } else { 700i32 };
        seq![(prio, Step::ColHome(i as u8))]
    } else {
        Seq::empty()
    }
}

/// The column tops going home, over the first `n` columns.
pub open spec fn col_home_list(s: SState, n: int) -> Seq<(i32, Step)>
    decreases n,
{
    if n <= 0 { Seq::empty() } else { col_home_list(s, n - 1) + col_home_at(s, n - 1) }
}

/// Talon card `p` can be played in `mode`.
pub open spec fn reachable_at(s: SState, mode: DrawMode, p: int) -> bool {
    if mode == DrawMode::One { p < s.tlen } else { three_reaches(s.tlen as int, s.w as int, p) }
}

/// The talon cards among the first `n` that can be played, in talon order.
pub open spec fn reach_cards(s: SState, mode: DrawMode, n: int) -> Seq<u8>
    decreases n,
{
    if n <= 0 {
        Seq::empty()
    } else {
        reach_cards(s, mode, n - 1) + if reachable_at(s, mode, n - 1) { seq![s.talon@[n - 1]] } else { Seq::empty() }
    }
}

/// The playable talon cards among the first `n` of `t` going home.
pub open spec fn talon_home_list(s: SState, t: Seq<u8>, n: int) -> Seq<(i32, Step)>
    decreases n,
{
    if n <= 0 {
        Seq::empty()
    } else {
        talon_home_list(s, t, n - 1) + if homes_spec(s, t[n - 1]) { seq![(650i32, Step::TalonHome(t[n - 1]))] } else { Seq::empty() }
    }
}

/// Talon card `c` onto column `i`: onto a card it stacks on, or, a king, onto the first
/// empty column.
pub open spec fn talon_to_at(s: SState, c: u8, fe: Option<usize>, i: int) -> Seq<(i32, Step)> {
    let dest = s.cols@[i];
    if dest.len > 0 {
        if Card(c).stacks_on_spec(Card(dest.cards@[dest.len - 1])) { seq![(500i32, Step::TalonTo(c, i as u8))] } else { Seq::empty() }
    } else if Card(c).rank_spec() == 13 && fe == Some(i as usize) {
        seq![(450i32, Step::TalonTo(c, i as u8))]
    } else {
        Seq::empty()
    }
}

/// Talon card `c` onto each of the first `n` columns.
pub open spec fn talon_to_cols(s: SState, c: u8, fe: Option<usize>, n: int) -> Seq<(i32, Step)>
    decreases n,
{
    if n <= 0 { Seq::empty() } else { talon_to_cols(s, c, fe, n - 1) + talon_to_at(s, c, fe, n - 1) }
}

/// The first `n` playable talon cards of `t` onto the columns.
pub open spec fn talon_to_list(s: SState, t: Seq<u8>, fe: Option<usize>, n: int) -> Seq<(i32, Step)>
    decreases n,
{
    if n <= 0 { Seq::empty() } else { talon_to_list(s, t, fe, n - 1) + talon_to_cols(s, t[n - 1], fe, COLS as int) }
}

/// The top `count` cards of column `from` onto column `to`.
pub open spec fn col_to_at(s: SState, fe: Option<usize>, from: int, count: int, to: int) -> Seq<(i32, Step)> {
    let col = s.cols@[from];
    let whole = count == col.len - col.hidden;
    let base = col.cards@[col.len - count];
    let dest = s.cols@[to];
    let ok = if dest.len > 0 {
        Card(base).stacks_on_spec(Card(dest.cards@[dest.len - 1]))
    } else {
        Card(base).rank_spec() == 13 && fe == Some(to as usize) && !(whole && col.hidden == 0)
    };
    if to != from && ok {
        let prio: i32 = if whole && col.hidden > 0 { (800 + 10 * col.hidden) as i32 } else if whole { 250i32 } else { 400i32 };
        seq![(prio, Step::ColTo { from: from as u8, count: count as u8, to: to as u8 })]
    } else {
        Seq::empty()
    }
}

/// The top `count` cards of column `from` onto each of the first `n` columns.
pub open spec fn col_to_dests(s: SState, fe: Option<usize>, from: int, count: int, n: int) -> Seq<(i32, Step)>
    decreases n,
{
    if n <= 0 { Seq::empty() } else { col_to_dests(s, fe, from, count, n - 1) + col_to_at(s, fe, from, count, n - 1) }
}

/// The top `count` cards of column `from` moved: only the whole face-up run, or a part of it
/// that frees the card beneath for home (the second dominance).
pub open spec fn col_to_count(s: SState, fe: Option<usize>, from: int, count: int) -> Seq<(i32, Step)> {
    let col = s.cols@[from];
    if count != col.len - col.hidden && !homes_spec(s, col.cards@[col.len - count - 1]) {
        Seq::empty()
    } else {
        col_to_dests(s, fe, from, count, COLS as int)
    }
}

/// Column `from`'s moves of its top 1 to `n` cards.
pub open spec fn col_to_counts(s: SState, fe: Option<usize>, from: int, n: int) -> Seq<(i32, Step)>
    decreases n,
{
    if n <= 0 { Seq::empty() } else { col_to_counts(s, fe, from, n - 1) + col_to_count(s, fe, from, n) }
}

/// The column-to-column moves out of the first `n` columns.
pub open spec fn col_to_list(s: SState, fe: Option<usize>, n: int) -> Seq<(i32, Step)>
    decreases n,
{
    if n <= 0 {
        Seq::empty()
    } else {
        col_to_list(s, fe, n - 1) + col_to_counts(s, fe, n - 1, s.cols@[n - 1].len - s.cols@[n - 1].hidden)
    }
}

/// The foundation moves from `s`: column tops, then playable talon cards.
pub open spec fn home_moves(s: SState, mode: DrawMode) -> Seq<(i32, Step)> {
    let t = reach_cards(s, mode, s.tlen as int);
    col_home_list(s, COLS as int) + talon_home_list(s, t, t.len() as int)
}

/// Whether the streamlined pass stops at the foundation moves.
pub open spec fn homes_only(s: SState, mode: DrawMode, streamline: bool) -> bool {
    streamline && home_moves(s, mode).len() > 0
}

/// Every move worth searching from `s`, each with its rating, in the order they are found.
pub open spec fn cand_rated(s: SState, mode: DrawMode, streamline: bool) -> Seq<(i32, Step)> {
    let fe = first_empty_in(s, COLS as int);
    let t = reach_cards(s, mode, s.tlen as int);
    if homes_only(s, mode, streamline) {
        home_moves(s, mode)
    } else {
        home_moves(s, mode) + talon_to_list(s, t, fe, t.len() as int) + col_to_list(s, fe, COLS as int)
            + worried(s, 0, fe) + worried(s, 1, fe) + worried(s, 2, fe) + worried(s, 3, fe)
    }
}

/// The generator's state after `k` more draws from `st`.
pub open spec fn rng_after(st: u64, k: nat) -> u64
    decreases k,
{
    if k == 0 { st } else { vstd::wrapping::u64_specs::wrapping_add(rng_after(st, (k - 1) as nat), GOLDEN) }
}

/// Moving the generator on `a` draws and then `b` more is moving it on `a + b`.
proof fn lemma_rng_after_add(st: u64, a: nat, b: nat)
    ensures
        rng_after(rng_after(st, a), b) == rng_after(st, a + b),
    decreases b,
{
    if b > 0 {
        lemma_rng_after_add(st, a, (b - 1) as nat);
        assert((a + b - 1) as nat == a + (b - 1) as nat);
    }
}

/// Each rating raised by a draw below [`JITTER`] from a generator at `st`, in list order.
pub open spec fn jittered(r: Seq<(i32, Step)>, st: u64) -> Seq<(i32, Step)> {
    Seq::new(r.len(), |k: int| ((r[k].0 + mix_spec(rng_after(st, (k + 1) as nat)) % (JITTER as u64)) as i32, r[k].1))
}

/// The candidates' ratings as they are sorted: shuffled on a restart, unless the streamlined
/// pass stopped at the foundation moves.
pub open spec fn cand_final(s: SState, mode: DrawMode, streamline: bool, jitter: bool, st: u64) -> Seq<(i32, Step)> {
    if jitter && !homes_only(s, mode, streamline) {
        jittered(cand_rated(s, mode, streamline), st)
    } else {
        cand_rated(s, mode, streamline)
    }
}

/// Bit `p` of `m` is set exactly when `m` shifted down by `p` ends in a one.
proof fn lemma_bit_test(m: u32, p: u32)
    requires
        p < 32,
    ensures
        (m & (1u32 << p) != 0) == ((m >> p) & 1u32 == 1u32),
{
    assert((m & (1u32 << p) != 0) == ((m >> p) & 1u32 == 1u32)) by (bit_vector)
        requires
            p < 32,
    ;
}

/// Every move worth searching from `s`, most promising first. `streamline` keeps only the
/// foundation moves whenever there are any (the streamlined pass); `jitter` shuffles the
/// order a little with `rng` (a restart).
#[verifier::spinoff_prover]
#[verifier::rlimit(60)]
fn candidates(s: &SState, mode: DrawMode, streamline: bool, jitter: bool, rng: &mut Rng) -> (steps: Vec<Step>)
    requires
        s.wf(),
    ensures
        forall|k: int| 0 <= k < steps@.len() ==> step_ok(*s, #[trigger] steps@[k]) && dominance_ok(*s, steps@[k]),
        streamline ==> (forall|k: int| 0 <= k < steps@.len() ==> goes_home(#[trigger] steps@[k]))
            || (forall|k: int| 0 <= k < steps@.len() ==> !goes_home(#[trigger] steps@[k])),
        steps@ == sorted_rated(cand_final(*s, mode, streamline, jitter, old(rng).state())).map_values(|x: (i32, Step)| x.1),
        final(rng).state() == (if jitter && !homes_only(*s, mode, streamline) {
            rng_after(old(rng).state(), cand_rated(*s, mode, streamline).len())
        } else {
            old(rng).state()
        }),
{
    let mut out: Vec<(i32, Step)> = Vec::new();
    let mut first_empty: Option<usize> = None;
    let mut i: usize = 0;
    while i < COLS
        invariant
            i <= COLS,
            first_empty is Some ==> first_empty->0 < COLS,
            first_empty == first_empty_in(*s, i as int),
        decreases COLS - i,
    {
        if first_empty.is_none() && s.cols[i].len == 0 {
            first_empty = Some(i);
        }
        i += 1;
    }
    let ghost fe = first_empty;
    let mut i: usize = 0;
    while i < COLS
        invariant
            i <= COLS,
            s.wf(),
            forall|k: int| 0 <= k < out@.len() ==> step_ok(*s, (#[trigger] out@[k]).1) && dominance_ok(*s, out@[k].1)
                && out@[k].0 <= 960 && goes_home(out@[k].1),
            out@ == col_home_list(*s, i as int),
        decreases COLS - i,
    {
        let col = s.cols[i];
        assert(s.cols@[i as int].wf());
        let ghost o0 = out@;
        if let Some(c) = col.top() {
            if s.homes(c) {
                let reveals = col.hidden > 0 && col.up() == 1;
                let prio: i32 = if reveals { 900 + 10 * col.hidden as i32 } else { 700 };
                out.push((prio, Step::ColHome(i as u8)));
            }
        }
        proof {
            assert(col_home_list(*s, i as int + 1) == col_home_list(*s, i as int) + col_home_at(*s, i as int));
            assert(out@ =~= o0 + col_home_at(*s, i as int));
        }
        i += 1;
    }
    let reach = s.reach(mode);
    let mut talon: Vec<u8> = Vec::new();
    let mut p: usize = 0;
    while p < s.tlen as usize
        invariant
            s.wf(),
            p <= s.tlen,
            forall|k: int| 0 <= k < talon@.len() ==> #[trigger] talon@[k] < 52,
            forall|b: u32| b < 32 ==> ((#[trigger] (reach >> b)) & 1u32 == 1u32) == reachable_at(*s, mode, b as int),
            talon@ == reach_cards(*s, mode, p as int),
        decreases s.tlen - p,
    {
        let ghost t0 = talon@;
        proof {
            lemma_bit_test(reach, p as u32);
            assert(((reach >> (p as u32)) & 1u32 == 1u32) == reachable_at(*s, mode, p as int));
        }
        if reach & (1u32 << p as u32) != 0 {
            talon.push(s.talon[p]);
        }
        proof {
            assert(talon@ =~= reach_cards(*s, mode, p as int + 1));
        }
        p += 1;
    }
    let ghost tl = talon@;
    let mut k: usize = 0;
    while k < talon.len()
        invariant
            s.wf(),
            k <= talon@.len(),
            talon@ == tl,
            forall|m: int| 0 <= m < talon@.len() ==> #[trigger] talon@[m] < 52,
            forall|m: int| 0 <= m < out@.len() ==> step_ok(*s, (#[trigger] out@[m]).1) && dominance_ok(*s, out@[m].1) && out@[m].0 <= 960
                && goes_home(out@[m].1),
            out@ == col_home_list(*s, COLS as int) + talon_home_list(*s, tl, k as int),
        decreases talon@.len() - k,
    {
        let c = talon[k];
        let ghost o0 = out@;
        if s.homes(c) {
            out.push((650, Step::TalonHome(c)));
        }
        proof {
            assert(out@ =~= col_home_list(*s, COLS as int) + talon_home_list(*s, tl, k as int + 1));
        }
        k += 1;
    }
    proof {
        assert(out@ == home_moves(*s, mode));
    }
    if streamline && out.len() > 0 {
        let r = best_first(&out);
        proof {
            assert forall|m: int| 0 <= m < r@.len() implies step_ok(*s, #[trigger] r@[m]) && dominance_ok(*s, r@[m])
                && goes_home(r@[m]) by {
                assert(step_in(r@[m], out@));
            }
        }
        return r;
    }
    let ghost hm = out@;
    let mut k: usize = 0;
    while k < talon.len()
        invariant
            s.wf(),
            k <= talon@.len(),
            talon@ == tl,
            first_empty == fe,
            first_empty is Some ==> first_empty->0 < COLS,
            forall|m: int| 0 <= m < talon@.len() ==> #[trigger] talon@[m] < 52,
            forall|m: int| 0 <= m < out@.len() ==> step_ok(*s, (#[trigger] out@[m]).1) && dominance_ok(*s, out@[m].1) && out@[m].0 <= 960,
            streamline ==> forall|m: int| 0 <= m < out@.len() ==> !goes_home(#[trigger] out@[m].1),
            out@ == hm + talon_to_list(*s, tl, fe, k as int),
        decreases talon@.len() - k,
    {
        let c = talon[k];
        let mut i: usize = 0;
        while i < COLS
            invariant
                i <= COLS,
                c < 52,
                c == tl[k as int],
                k < tl.len(),
                first_empty == fe,
                s.wf(),
                forall|m: int| 0 <= m < out@.len() ==> step_ok(*s, (#[trigger] out@[m]).1) && dominance_ok(*s, out@[m].1) && out@[m].0 <= 960,
                streamline ==> forall|m: int| 0 <= m < out@.len() ==> !goes_home(#[trigger] out@[m].1),
                out@ == hm + talon_to_list(*s, tl, fe, k as int) + talon_to_cols(*s, c, fe, i as int),
            decreases COLS - i,
        {
            assert(s.cols@[i as int].wf());
            let ghost o0 = out@;
            match s.cols[i].top() {
                Some(top) => {
                    if stacks(c, top) {
                        out.push((500, Step::TalonTo(c, i as u8)));
                    }
                },
                // Empty columns are interchangeable: only the first is tried.
                None => {
                    if rank_of(c) == 13 && first_empty == Some(i) {
                        out.push((450, Step::TalonTo(c, i as u8)));
                    }
                },
            }
            proof {
                assert(out@ =~= o0 + talon_to_at(*s, c, fe, i as int));
                assert(talon_to_cols(*s, c, fe, i as int + 1) == talon_to_cols(*s, c, fe, i as int) + talon_to_at(*s, c, fe, i as int));
            }
            i += 1;
        }
        proof {
            assert(talon_to_list(*s, tl, fe, k as int + 1) == talon_to_list(*s, tl, fe, k as int) + talon_to_cols(*s, c, fe, COLS as int));
        }
        k += 1;
    }
    let ghost ht = out@;
    let mut from: usize = 0;
    while from < COLS
        invariant
            from <= COLS,
            s.wf(),
            first_empty == fe,
            forall|m: int| 0 <= m < out@.len() ==> step_ok(*s, (#[trigger] out@[m]).1) && dominance_ok(*s, out@[m].1) && out@[m].0 <= 960,
            streamline ==> forall|m: int| 0 <= m < out@.len() ==> !goes_home(#[trigger] out@[m].1),
            out@ == ht + col_to_list(*s, fe, from as int),
        decreases COLS - from,
    {
        let col = s.cols[from];
        assert(col.wf());
        let len = col.len as usize;
        let up = col.up();
        let mut count: usize = 1;
        while count <= up
            invariant
                1 <= count <= up + 1,
                from < COLS,
                col == s.cols@[from as int],
                col.wf(),
                len == col.len,
                up == col.len - col.hidden,
                s.wf(),
                first_empty == fe,
                forall|m: int| 0 <= m < out@.len() ==> step_ok(*s, (#[trigger] out@[m]).1) && dominance_ok(*s, out@[m].1) && out@[m].0 <= 960,
                streamline ==> forall|m: int| 0 <= m < out@.len() ==> !goes_home(#[trigger] out@[m].1),
                out@ == ht + col_to_list(*s, fe, from as int) + col_to_counts(*s, fe, from as int, count - 1),
            decreases up + 1 - count,
        {
            let start = len - count;
            let base = col.cards[start];
            let whole = count == up;
            proof {
                assert(col_to_counts(*s, fe, from as int, count as int) == col_to_counts(*s, fe, from as int, count - 1)
                    + col_to_count(*s, fe, from as int, count as int));
            }
            // The second dominance: split a run only to free the card beneath it for home.
            if !whole && !s.homes(col.cards[start - 1]) {
                proof {
                    assert(out@ =~= ht + col_to_list(*s, fe, from as int) + col_to_counts(*s, fe, from as int, count as int));
                }
                count += 1;
                continue;
            }
            let ghost oc = out@;
            let mut to: usize = 0;
            while to < COLS
                invariant
                    to <= COLS,
                    from < COLS,
                    1 <= count <= up,
                    col == s.cols@[from as int],
                    col.wf(),
                    up == s.cols@[from as int].len - s.cols@[from as int].hidden,
                    len == col.len,
                    start == len - count,
                    base == col.cards@[start as int],
                    whole == (count == up),
                    whole || homes_spec(*s, col.cards@[len - count - 1]),
                    s.wf(),
                    first_empty == fe,
                    forall|m: int| 0 <= m < out@.len() ==> step_ok(*s, (#[trigger] out@[m]).1) && dominance_ok(*s, out@[m].1) && out@[m].0 <= 960,
                    streamline ==> forall|m: int| 0 <= m < out@.len() ==> !goes_home(#[trigger] out@[m].1),
                    out@ == oc + col_to_dests(*s, fe, from as int, count as int, to as int),
                decreases COLS - to,
            {
                let ghost o0 = out@;
                if to != from {
                    let dest = s.cols[to];
                    assert(dest.wf());
                    let ok = match dest.top() {
                        Some(top) => stacks(base, top),
                        // A king already heading an otherwise empty column gains nothing by moving.
                        None => rank_of(base) == 13 && first_empty == Some(to) && !(whole && col.hidden == 0),
                    };
                    if ok {
                        let prio: i32 = if whole && col.hidden > 0 {
                            800 + 10 * col.hidden as i32
                        } else if whole {
                            250
                        } else {
                            400
                        };
                        out.push((prio, Step::ColTo { from: from as u8, count: count as u8, to: to as u8 }));
                    }
                }
                proof {
                    assert(out@ =~= o0 + col_to_at(*s, fe, from as int, count as int, to as int));
                }
                to += 1;
            }
            proof {
                assert(out@ =~= ht + col_to_list(*s, fe, from as int) + col_to_counts(*s, fe, from as int, count as int));
            }
            count += 1;
        }
        proof {
            assert(col_to_list(*s, fe, from as int + 1) == col_to_list(*s, fe, from as int)
                + col_to_counts(*s, fe, from as int, s.cols@[from as int].len - s.cols@[from as int].hidden));
        }
        from += 1;
    }
    // Worrying back: a card down from its foundation, unless the first dominance would send
    // it straight home again.
    worry_suit(s, 0, first_empty, &mut out);
    worry_suit(s, 1, first_empty, &mut out);
    worry_suit(s, 2, first_empty, &mut out);
    worry_suit(s, 3, first_empty, &mut out);
    proof {
        assert(out@ =~= cand_rated(*s, mode, streamline));
    }
    if jitter {
        let ghost before = out@;
        let ghost st0 = rng.state();
        let mut k: usize = 0;
        while k < out.len()
            invariant
                k <= out@.len(),
                out@.len() == before.len(),
                forall|m: int| 0 <= m < out@.len() ==> (#[trigger] out@[m]).1 == before[m].1,
                forall|m: int| 0 <= m < out@.len() ==> step_ok(*s, #[trigger] out@[m].1) && dominance_ok(*s, out@[m].1),
                forall|m: int| k <= m < out@.len() ==> #[trigger] out@[m] == before[m],
                forall|m: int| 0 <= m < before.len() ==> #[trigger] before[m].0 <= 960,
                forall|m: int| 0 <= m < k ==> #[trigger] out@[m] == jittered(before, st0)[m],
                rng.state() == rng_after(st0, k as nat),
            decreases out@.len() - k,
        {
            let (p, m) = out[k];
            let x = rng.below(JITTER);
            proof {
                assert(rng_after(st0, (k + 1) as nat) == vstd::wrapping::u64_specs::wrapping_add(rng_after(st0, k as nat), GOLDEN));
            }
            out.set(k, (p + x as i32, m));
            k += 1;
        }
        proof {
            assert(out@ =~= jittered(before, st0));
        }
    }
    let r = best_first(&out);
    proof {
        assert forall|m: int| 0 <= m < r@.len() implies step_ok(*s, #[trigger] r@[m]) && dominance_ok(*s, r@[m])
            && (streamline ==> !goes_home(r@[m])) by {
            assert(step_in(r@[m], out@));
        }
    }
    r
}

/// How many distinct positions each pass may explore before the next one starts. A zero
/// skips that pass.
#[derive(Clone, Copy, Debug)]
pub struct Limits {
    /// The streamlined pass.
    pub streamlined: u64,
    /// Each restart, and how many restarts there are.
    pub restart: u64,
    pub restarts: u32,
    /// The last, unshuffled complete search.
    pub full: u64,
}

/// For proving a new deal winnable: a deal that needs more than this is passed over.
pub fn deal_limits() -> (l: Limits)
    ensures
        l.streamlined == 3_000 && l.restart == 2_000 && l.restarts == 20 && l.full == 10_000,
{
    Limits { streamlined: 3_000, restart: 2_000, restarts: 20, full: 10_000 }
}

/// For a hint from the current position: the long last pass is what can prove a position lost.
pub fn hint_limits() -> (l: Limits)
    ensures
        l.streamlined == 2_000 && l.restart == 2_000 && l.restarts == 8 && l.full == 25_000,
{
    Limits { streamlined: 2_000, restart: 2_000, restarts: 8, full: 25_000 }
}

/// A pass of the search.
#[derive(Clone, Copy, PartialEq, Eq, Debug, Structural)]
enum Phase {
    /// Foundation moves only, whenever there are any: fast, but it can miss a win.
    Streamlined,
    /// Every move, in a lightly shuffled order.
    Restart(u32),
    /// Every move, in the plain order.
    Full,
}

/// How many positions pass `phase` may explore.
spec fn cap_spec(limits: Limits, phase: Phase) -> u64 {
    match phase {
        Phase::Streamlined => limits.streamlined,
        Phase::Restart(i) => if i < limits.restarts { limits.restart } else { 0 },
        Phase::Full => limits.full,
    }
}

/// The pass after `p`, if any.
spec fn phase_after(p: Phase, restarts: u32) -> Option<Phase> {
    match p {
        Phase::Streamlined => Some(Phase::Restart(0)),
        Phase::Restart(i) => Some(if i + 1 < restarts { Phase::Restart((i + 1) as u32) } else { Phase::Full }),
        Phase::Full => None,
    }
}

/// The first pass after `p` with any room.
spec fn next_open(limits: Limits, p: Phase) -> Option<Phase>
    decreases phase_rank(p, limits.restarts),
{
    match phase_after(p, limits.restarts) {
        None => None,
        Some(q) => if cap_spec(limits, q) > 0 {
            Some(q)
        } else if phase_rank(q, limits.restarts) < phase_rank(p, limits.restarts) {
            next_open(limits, q)
        } else {
            None
        },
    }
}

/// Passes still to come after `p`.
spec fn phase_rank(p: Phase, restarts: u32) -> int {
    match p {
        Phase::Streamlined => restarts + 2,
        Phase::Restart(i) => if i <= restarts { restarts - i + 1 } else { 1 },
        Phase::Full => 0,
    }
}

#[derive(Clone, Debug, PartialEq)]
pub enum Verdict {
    /// A winning line, auto-moves included.
    Winnable(Vec<Step>),
    /// Every line was searched and none wins.
    Unwinnable,
    /// The limits ran out first.
    Unknown,
}

struct Frame {
    state: SState,
    moves: Vec<Step>,
    next: usize,
    /// The path's length before the steps that led here.
    base: usize,
}

/// A resumable depth-first search, so a caller can spread it over frames: [`Solver::run`]
/// does a bounded amount of work and picks up where it stopped.
pub struct Solver {
    mode: DrawMode,
    /// The table's own position, before any card was sent home.
    start: Ghost<SState>,
    root: SState,
    root_path: Vec<Step>,
    stack: Vec<Frame>,
    path: Vec<Step>,
    seen: std::collections::HashSet<u64>,
    nodes: u64,
    limits: Limits,
    phase: Phase,
    /// The restarts' shuffle, seeded from the position so a search always runs the same.
    rng: Rng,
    verdict: Option<Verdict>,
    /// Positions expanded so far, over every pass (it stops counting at `u64::MAX`).
    pub work: u64,
}

/// A copy of `steps`.
fn copy_steps(steps: &Vec<Step>) -> (c: Vec<Step>)
    ensures
        c@ == steps@,
{
    let mut c: Vec<Step> = Vec::new();
    let mut k: usize = 0;
    while k < steps.len()
        invariant
            k <= steps@.len(),
            c@ == steps@.take(k as int),
        decreases steps@.len() - k,
    {
        c.push(steps[k]);
        k += 1;
        proof {
            assert(c@ =~= steps@.take(k as int));
        }
    }
    proof {
        assert(steps@.take(k as int) =~= steps@);
    }
    c
}

/// A frame's position is well formed and every move it holds can be made there.
spec fn frame_ok(f: Frame) -> bool {
    &&& f.state.wf()
    &&& f.next <= f.moves@.len()
    &&& forall|j: int| 0 <= j < f.moves@.len() ==> step_ok(f.state, #[trigger] f.moves@[j])
}

spec fn frames_ok(st: Seq<Frame>) -> bool {
    forall|k: int| 0 <= k < st.len() ==> #[trigger] frame_ok(st[k])
}

/// Where the line to frame `k`'s position ends on a path of `plen` steps: where the step out
/// of it starts, or the path's end for the top frame.
spec fn frame_end(st: Seq<Frame>, k: int, plen: int) -> int {
    if k + 1 < st.len() { st[k + 1].base as int } else { plen }
}

/// Each frame's position is where the path, up to that frame's end, leads from `start`.
spec fn frames_lead(start: SState, st: Seq<Frame>, path: Seq<Step>) -> bool {
    &&& forall|i: int, j: int| 0 <= i <= j < st.len() ==> (#[trigger] st[i]).base <= (#[trigger] st[j]).base
    &&& st.len() > 0 ==> st.last().base <= path.len()
    &&& forall|k: int| 0 <= k < st.len() ==> leads(start, path.take(frame_end(st, k, path.len() as int)), (#[trigger] st[k]).state)
}

proof fn lemma_frames_pop(st: Seq<Frame>)
    requires
        frames_ok(st),
        st.len() > 0,
    ensures
        frames_ok(st.drop_last()),
        frame_ok(st.last()),
{
    assert forall|k: int| 0 <= k < st.drop_last().len() implies #[trigger] frame_ok(st.drop_last()[k]) by {
        assert(frame_ok(st[k]));
    }
    assert(frame_ok(st[st.len() - 1]));
}

proof fn lemma_frames_push(st: Seq<Frame>, f: Frame)
    requires
        frames_ok(st),
        frame_ok(f),
    ensures
        frames_ok(st.push(f)),
{
    assert forall|k: int| 0 <= k < st.push(f).len() implies #[trigger] frame_ok(st.push(f)[k]) by {
        if k < st.len() {
            assert(frame_ok(st[k]));
        }
    }
}

/// The top frame's position is where the whole path leads.
proof fn lemma_lead_top(start: SState, st: Seq<Frame>, path: Seq<Step>)
    requires
        frames_lead(start, st, path),
        st.len() > 0,
    ensures
        leads(start, path, st.last().state),
{
    let k = st.len() - 1;
    assert(leads(start, path.take(frame_end(st, k, path.len() as int)), st[k].state));
    assert(path.take(path.len() as int) =~= path);
}

/// Dropping a spent top frame and cutting the path back to where its step started.
proof fn lemma_lead_pop(start: SState, st: Seq<Frame>, path: Seq<Step>)
    requires
        frames_lead(start, st, path),
        st.len() > 0,
    ensures
        frames_lead(start, st.drop_last(), path.take(st.last().base as int)),
{
    let b = st.last().base as int;
    let q = path.take(b);
    let st2 = st.drop_last();
    assert(st.last() == st[st.len() - 1]);
    assert forall|i: int, j: int| 0 <= i <= j < st2.len() implies (#[trigger] st2[i]).base <= (#[trigger] st2[j]).base by {
        assert(st[i].base <= st[j].base);
    }
    if st2.len() > 0 {
        assert(st[st2.len() - 1].base <= st[st.len() - 1].base);
    }
    assert forall|k: int| 0 <= k < st2.len() implies leads(start, q.take(frame_end(st2, k, q.len() as int)), (#[trigger] st2[k]).state) by {
        let e = frame_end(st, k, path.len() as int);
        assert(frame_end(st2, k, q.len() as int) == e);
        assert(st[k].base <= st[st.len() - 1].base);
        if k + 1 < st.len() {
            assert(st[k + 1].base <= st[st.len() - 1].base);
        }
        assert(q.take(e) =~= path.take(e));
        assert(leads(start, path.take(e), st[k].state));
    }
}

/// Putting the top frame back with its next move advanced.
proof fn lemma_lead_replace_top(start: SState, st: Seq<Frame>, path: Seq<Step>, f: Frame)
    requires
        frames_lead(start, st, path),
        st.len() > 0,
        f.base == st.last().base,
        f.state == st.last().state,
    ensures
        frames_lead(start, st.drop_last().push(f), path),
{
    let st2 = st.drop_last().push(f);
    assert forall|k: int| 0 <= k < st2.len() implies #[trigger] st2[k].base == st[k].base && st2[k].state == st[k].state by {}
    assert forall|i: int, j: int| 0 <= i <= j < st2.len() implies (#[trigger] st2[i]).base <= (#[trigger] st2[j]).base by {
        assert(st[i].base <= st[j].base);
    }
    assert forall|k: int| 0 <= k < st2.len() implies leads(start, path.take(frame_end(st2, k, path.len() as int)), (#[trigger] st2[k]).state) by {
        assert(frame_end(st2, k, path.len() as int) == frame_end(st, k, path.len() as int));
        assert(leads(start, path.take(frame_end(st, k, path.len() as int)), st[k].state));
    }
}

/// A new top frame for the position a longer path leads to, its step starting where the old
/// path ended.
proof fn lemma_lead_push(start: SState, st: Seq<Frame>, path: Seq<Step>, p1: Seq<Step>, f: Frame)
    requires
        frames_lead(start, st, path),
        p1.len() >= path.len(),
        p1.take(path.len() as int) == path,
        f.base == path.len(),
        leads(start, p1, f.state),
    ensures
        frames_lead(start, st.push(f), p1),
{
    let st2 = st.push(f);
    assert forall|i: int, j: int| 0 <= i <= j < st2.len() implies (#[trigger] st2[i]).base <= (#[trigger] st2[j]).base by {
        if j < st.len() {
            assert(st[i].base <= st[j].base);
        } else if i < st.len() {
            assert(st[i].base <= st[st.len() - 1].base);
        }
    }
    assert forall|k: int| 0 <= k < st2.len() implies leads(start, p1.take(frame_end(st2, k, p1.len() as int)), (#[trigger] st2[k]).state) by {
        if k < st.len() {
            let e = frame_end(st, k, path.len() as int);
            assert(frame_end(st2, k, p1.len() as int) == e);
            if k + 1 < st.len() {
                assert(st[k + 1].base <= st[st.len() - 1].base);
            }
            assert(p1.take(e) =~= path.take(e));
            assert(leads(start, path.take(e), st[k].state));
        } else {
            assert(p1.take(p1.len() as int) =~= p1);
        }
    }
}

impl Solver {
    /// The search's positions are well formed and every move it holds can be made; each
    /// position on the stack is where the path leads from the table's own position; a winning
    /// line wins from there, and a proof of loss comes only from a spent pass over every move.
    pub closed spec fn wf(&self) -> bool {
        &&& self.root.wf()
        &&& frames_ok(self.stack@)
        &&& (self.phase matches Phase::Restart(i) ==> i < self.limits.restarts || i == 0)
        &&& (self.verdict is None && self.stack@.len() > 0 ==> self.nodes < cap_spec(self.limits, self.phase))
        &&& leads(self.start@, self.root_path@, self.root)
        &&& (self.verdict matches Some(Verdict::Winnable(p)) ==> wins_from(self.start@, p@))
        &&& (self.verdict matches Some(Verdict::Unwinnable) ==> self.exhausted())
        &&& (self.verdict is None ==> frames_lead(self.start@, self.stack@, self.path@))
    }

    /// The position the search starts from: the table's own.
    pub closed spec fn start_spec(&self) -> SState {
        self.start@
    }

    /// The pass under way tries every move (not only foundation moves), and it has no
    /// position left to explore: its stack of open positions is empty.
    pub closed spec fn exhausted(&self) -> bool {
        self.stack@.len() == 0 && !(self.phase is Streamlined)
    }

    /// Positions expanded so far.
    pub closed spec fn work_spec(&self) -> u64 {
        self.work
    }

    /// The verdict, once the search has one.
    pub closed spec fn verdict_spec(&self) -> Option<Verdict> {
        self.verdict
    }

    pub fn new(table: &Table, mode: DrawMode, limits: Limits) -> (s: Solver)
        requires
            table.searchable(),
        ensures
            s.wf(),
            s.work_spec() == 0,
            s.start_spec() == table_state(*table),
            s.verdict_spec() matches Some(Verdict::Winnable(p)) ==> wins_from(s.start_spec(), p@),
    {
        let mut root = SState::from_table(table);
        let ghost start = root;
        let mut root_path: Vec<Step> = Vec::new();
        auto_home(&mut root, mode, &mut root_path);
        proof {
            assert(root_path@.skip(0) =~= root_path@);
        }
        let seed = root.key(mode);
        let mut s = Solver {
            mode,
            start: Ghost(start),
            root,
            root_path,
            stack: Vec::new(),
            path: Vec::new(),
            seen: std::collections::HashSet::new(),
            nodes: 0,
            limits,
            phase: Phase::Streamlined,
            rng: Rng::new(seed),
            verdict: None,
            work: 0,
        };
        if root.won() {
            s.verdict = Some(Verdict::Winnable(copy_steps(&s.root_path)));
        } else if s.cap() > 0 {
            s.begin(Phase::Streamlined);
        } else if !s.next_phase() {
            s.verdict = Some(Verdict::Unknown);
        }
        s
    }

    fn cap_of(&self, phase: Phase) -> (c: u64)
        ensures
            c == cap_spec(self.limits, phase),
    {
        match phase {
            Phase::Streamlined => self.limits.streamlined,
            Phase::Restart(i) => if i < self.limits.restarts { self.limits.restart } else { 0 },
            Phase::Full => self.limits.full,
        }
    }

    fn cap(&self) -> (c: u64)
        ensures
            c == cap_spec(self.limits, self.phase),
    {
        self.cap_of(self.phase)
    }

    /// Start `phase` from the top.
    fn begin(&mut self, phase: Phase)
        requires
            old(self).wf(),
            old(self).verdict is None,
            phase matches Phase::Restart(i) ==> i < old(self).limits.restarts || i == 0,
            cap_spec(old(self).limits, phase) > 0,
        ensures
            final(self).wf(),
            final(self).phase == phase,
            final(self).limits == old(self).limits,
            final(self).verdict == old(self).verdict,
            final(self).work == old(self).work,
            final(self).start == old(self).start,
            final(self).stack@.len() == 1,
    {
        self.phase = phase;
        self.seen.clear();
        self.nodes = 0;
        self.path = copy_steps(&self.root_path);
        self.stack.clear();
        let key = self.root.key(self.mode);
        self.seen.insert(key);
        let root = self.root;
        let moves = self.moves_at(&root);
        let base = self.path.len();
        let frame = Frame { state: root, moves, next: 0, base };
        self.stack.push(frame);
        proof {
            assert(self.stack@ =~= Seq::<Frame>::empty().push(frame));
            lemma_frames_push(Seq::empty(), frame);
            assert(self.path@.take(self.path@.len() as int) =~= self.path@);
            lemma_lead_push(self.start@, Seq::empty(), self.path@, self.path@, frame);
        }
    }

    /// Go on to the next pass with any room; false when none is left.
    fn next_phase(&mut self) -> (started: bool)
        requires
            old(self).wf(),
            old(self).verdict is None,
        ensures
            final(self).wf(),
            final(self).limits == old(self).limits,
            final(self).verdict == old(self).verdict,
            final(self).work == old(self).work,
            final(self).start == old(self).start,
            started ==> phase_rank(final(self).phase, final(self).limits.restarts) < phase_rank(old(self).phase, old(self).limits.restarts)
                && final(self).stack@.len() == 1,
            !started ==> *final(self) == *old(self),
            started == next_open(old(self).limits, old(self).phase) is Some,
            started ==> Some(final(self).phase) == next_open(old(self).limits, old(self).phase),
    {
        let mut p = self.phase;
        loop
            invariant
                self.wf(),
                *self == *old(self),
                self.verdict is None,
                phase_rank(p, self.limits.restarts) <= phase_rank(old(self).phase, self.limits.restarts),
                p matches Phase::Restart(i) ==> i < self.limits.restarts || i == 0,
                next_open(self.limits, p) == next_open(self.limits, old(self).phase),
            decreases phase_rank(p, self.limits.restarts),
        {
            let ghost prev = p;
            p = match p {
                Phase::Streamlined => Phase::Restart(0),
                Phase::Restart(i) => if i + 1 < self.limits.restarts { Phase::Restart(i + 1) } else { Phase::Full },
                Phase::Full => return false,
            };
            assert(phase_after(prev, self.limits.restarts) == Some(p));
            assert(phase_rank(p, self.limits.restarts) < phase_rank(prev, self.limits.restarts));
            if self.cap_of(p) > 0 {
                self.begin(p);
                return true;
            }
        }
    }

    fn moves_at(&mut self, s: &SState) -> (moves: Vec<Step>)
        requires
            s.wf(),
        ensures
            forall|j: int| 0 <= j < moves@.len() ==> step_ok(*s, #[trigger] moves@[j]),
            final(self).root == old(self).root,
            final(self).stack == old(self).stack,
            final(self).phase == old(self).phase,
            final(self).limits == old(self).limits,
            final(self).verdict == old(self).verdict,
            final(self).work == old(self).work,
            final(self).mode == old(self).mode,
            final(self).nodes == old(self).nodes,
            final(self).start == old(self).start,
            final(self).root_path == old(self).root_path,
            final(self).path == old(self).path,
            moves@ == sorted_rated(cand_final(*s, old(self).mode, old(self).phase is Streamlined, old(self).phase is Restart,
                old(self).rng.state())).map_values(|x: (i32, Step)| x.1),
            final(self).rng.state() == (if old(self).phase is Restart && !homes_only(*s, old(self).mode, false) {
                rng_after(old(self).rng.state(), cand_rated(*s, old(self).mode, false).len())
            } else {
                old(self).rng.state()
            }),
    {
        match self.phase {
            Phase::Streamlined => candidates(s, self.mode, true, false, &mut self.rng),
            Phase::Restart(_) => candidates(s, self.mode, false, true, &mut self.rng),
            Phase::Full => candidates(s, self.mode, false, false, &mut self.rng),
        }
    }

    /// Expand up to `budget` positions; the verdict once there is one. Without one, the whole
    /// budget was spent. A winning line it hands over wins when played by the search's rules
    /// from the table's position; a proof of loss comes only once a pass over every move has
    /// no position left to explore; and a verdict, once given, stays.
    #[verifier::spinoff_prover]
    #[verifier::rlimit(100)]
    pub fn run(&mut self, budget: u64) -> (r: Option<&Verdict>)
        requires
            old(self).wf(),
        ensures
            final(self).wf(),
            final(self).start_spec() == old(self).start_spec(),
            match r {
                Some(v) => final(self).verdict_spec() == Some(*v),
                None => final(self).verdict_spec() is None,
            },
            old(self).verdict_spec() is Some ==> final(self).verdict_spec() == old(self).verdict_spec(),
            final(self).verdict_spec() matches Some(Verdict::Winnable(p)) ==> wins_from(final(self).start_spec(), p@),
            final(self).verdict_spec() matches Some(Verdict::Unwinnable) ==> final(self).exhausted(),
            old(self).verdict_spec() is None && budget > 0 && old(self).exhausted()
                ==> final(self).verdict_spec() == Some(Verdict::Unwinnable),
            final(self).work_spec() >= old(self).work_spec(),
            final(self).work_spec() <= capped_sum(old(self).work_spec(), budget),
            r is None ==> final(self).work_spec() == capped_sum(old(self).work_spec(), budget),
    {
        let mut spent: u64 = 0;
        while self.verdict.is_none() && spent < budget
            invariant
                self.wf(),
                spent <= budget,
                self.start == old(self).start,
                self.work >= old(self).work,
                self.work == capped_sum(old(self).work, spent),
                old(self).verdict is Some ==> self.verdict == old(self).verdict,
                old(self).verdict is None && budget > 0 && old(self).exhausted() ==> self.verdict == Some(Verdict::Unwinnable)
                    || (*self == *old(self) && spent == 0),
            ensures
                self.wf(),
                self.start == old(self).start,
                self.work == capped_sum(old(self).work, spent),
                spent <= budget,
                old(self).verdict is Some ==> self.verdict == old(self).verdict,
                self.verdict is Some || spent == budget,
                old(self).verdict is None && budget > 0 && old(self).exhausted() ==> self.verdict == Some(Verdict::Unwinnable),
            decreases budget - spent, phase_rank(self.phase, self.limits.restarts), self.stack@.len(),
        {
            if self.stack.len() == 0 {
                // Every line from the start is spent. That proves the deal lost, unless the pass
                // only tried foundation moves.
                if self.phase != Phase::Streamlined {
                    self.verdict = Some(Verdict::Unwinnable);
                    break;
                }
                if self.next_phase() {
                    continue;
                }
                self.verdict = Some(Verdict::Unknown);
                break;
            }
            let ghost start = self.start@;
            let ghost st0 = self.stack@;
            let ghost p0 = self.path@;
            let mut top = self.stack.pop().unwrap();
            proof {
                lemma_frames_pop(st0);
                assert(top == st0.last());
            }
            if top.next == top.moves.len() {
                let base = top.base;
                self.path.truncate(base);
                proof {
                    lemma_lead_pop(start, st0, p0);
                    assert(self.path@ =~= p0.take(base as int));
                }
                continue;
            }
            let step = top.moves[top.next];
            top.next = top.next + 1;
            let state = top.state;
            self.stack.push(top);
            let ghost st1 = self.stack@;
            proof {
                lemma_frames_push(st0.drop_last(), top);
                lemma_lead_replace_top(start, st0, p0, top);
                lemma_lead_top(start, st0, p0);
                assert(step_ok(state, step));
            }
            let mut s = state;
            let base = self.path.len();
            s.apply(step);
            let ghost s1 = s;
            self.path.push(step);
            let ghost p1 = self.path@;
            auto_home(&mut s, self.mode, &mut self.path);
            proof {
                lemma_leads_snoc(start, p0, state, step, s1);
                lemma_leads_concat(start, p1, s1, self.path@.skip(p1.len() as int), s);
                assert(p1 + self.path@.skip(p1.len() as int) =~= self.path@);
                assert(self.path@.take(p0.len() as int) =~= p0);
            }
            spent = spent + 1;
            self.work = self.work.saturating_add(1);
            if s.won() {
                self.verdict = Some(Verdict::Winnable(copy_steps(&self.path)));
                break;
            }
            let key = s.key(self.mode);
            if !self.seen.insert(key) {
                self.path.truncate(base);
                proof {
                    assert(self.path@ =~= p0);
                }
                continue;
            }
            let n = self.nodes + 1;
            if n >= self.cap() {
                self.path.truncate(base);
                proof {
                    assert(self.path@ =~= p0);
                }
                if self.next_phase() {
                    continue;
                }
                self.nodes = n;
                self.verdict = Some(Verdict::Unknown);
                break;
            }
            self.nodes = n;
            let moves = self.moves_at(&s);
            let frame = Frame { state: s, moves, next: 0, base };
            self.stack.push(frame);
            proof {
                lemma_frames_push(st1, frame);
                lemma_lead_push(start, st1, p0, self.path@, frame);
            }
        }
        self.verdict.as_ref()
    }
}

/// `w + n`, stopping at `u64::MAX`.
pub open spec fn capped_sum(w: u64, n: u64) -> u64 {
    if w + n > u64::MAX { u64::MAX } else { (w + n) as u64 }
}

/// Candidate deals tried before settling for one that is not proven.
pub const MAX_TRIES: u32 = 300;

/// The longest winning line the search hands over for replay; one step is at most 53 moves,
/// so a replay stays within the move counter.
pub const MAX_LINE: usize = 80_000_000;

/// The hunt for a winnable deal, resumable like [`Solver`]: shuffle, prove, and shuffle again
/// until a deal's winning line replays.
pub struct DealSearch {
    rng: Rng,
    mode: DrawMode,
    current: Option<(Table, Solver)>,
    /// Deals shuffled so far.
    pub tried: u32,
}

impl DealSearch {
    /// The deal under search, when there is one, is one the search can take in.
    pub closed spec fn wf(&self) -> bool {
        &&& self.tried <= MAX_TRIES
        &&& (self.current matches Some((t, s)) ==> t.searchable() && t.valid_spec() && s.wf()
            && deals_as(t, mix_spec(self.rng.state())))
    }

    pub closed spec fn mode_spec(&self) -> DrawMode {
        self.mode
    }

    pub closed spec fn tried_spec(&self) -> u32 {
        self.tried
    }

    /// A deal is under search, to be taken up again by the next step.
    pub closed spec fn searching(&self) -> bool {
        self.current is Some
    }

    /// The shuffle generator's state: after the `k`-th deal it has moved on `k` times from
    /// the search's seed, and that deal is laid out from the mix of that state.
    pub closed spec fn rng_spec(&self) -> u64 {
        self.rng.state()
    }

    pub fn new(seed: u64, mode: DrawMode) -> (d: DealSearch)
        ensures
            d.wf(),
            d.mode_spec() == mode,
            d.tried_spec() == 0,
            !d.searching(),
            d.rng_spec() == seed,
    {
        DealSearch { rng: Rng::new(seed), mode, current: None, tried: 0 }
    }

    /// Search for up to `budget` positions. Returns the deal once one is proven winnable (with
    /// `true`: its winning line replays through the game's own rules, so the deal is winnable)
    /// or, after [`MAX_TRIES`] deals, the next one unproven (with `false`).
    #[verifier::spinoff_prover]
    #[verifier::rlimit(80)]
    pub fn step(&mut self, budget: u64) -> (r: Option<(Table, bool)>)
        requires
            old(self).wf(),
        ensures
            final(self).wf(),
            final(self).mode_spec() == old(self).mode_spec(),
            r matches Some((t, proven)) ==> t.valid_spec() && (proven ==> winnable(t, old(self).mode_spec())),
            final(self).tried_spec() >= old(self).tried_spec(),
            old(self).tried_spec() >= MAX_TRIES && !old(self).searching() ==> r matches Some((_, false)),
            r matches Some((_, false)) ==> final(self).tried_spec() == MAX_TRIES,
            final(self).rng_spec() == rng_after(old(self).rng_spec(),
                (final(self).tried_spec() - old(self).tried_spec() + (if r matches Some((_, false)) { 1int } else { 0 })) as nat),
            r matches Some((t, _)) ==> deals_as(t, mix_spec(final(self).rng_spec())),
            r matches Some((t, true)) ==> replays_won(t, old(self).mode_spec()),
    {
        let mut left = budget;
        loop
            invariant
                self.wf(),
                self.mode == old(self).mode,
                self.tried >= old(self).tried,
                self.rng.state() == rng_after(old(self).rng.state(), (self.tried - old(self).tried) as nat),
                old(self).tried >= MAX_TRIES && old(self).current is None ==> self.current is None,
            decreases 2 * (MAX_TRIES - self.tried) + (if self.current is Some { 1int } else { 0 }),
        {
            if self.current.is_none() {
                if self.tried >= MAX_TRIES {
                    let ghost st = self.rng.state();
                    let t = Table::deal(self.rng.next());
                    proof {
                        assert(rng_after(old(self).rng.state(), (self.tried - old(self).tried + 1) as nat)
                            == vstd::wrapping::u64_specs::wrapping_add(st, GOLDEN));
                    }
                    return Some((t, false));
                }
                self.tried = self.tried + 1;
                let ghost st = self.rng.state();
                let table = Table::deal(self.rng.next());
                proof {
                    assert(rng_after(old(self).rng.state(), (self.tried - old(self).tried) as nat)
                        == vstd::wrapping::u64_specs::wrapping_add(st, GOLDEN));
                }
                let solver = Solver::new(&table, self.mode, deal_limits());
                self.current = Some((table, solver));
            }
            let (table, mut solver) = self.current.take().unwrap();
            let before = solver.work;
            let path: Option<Vec<Step>> = match solver.run(left) {
                Some(Verdict::Winnable(path)) => Some(copy_steps(path)),
                Some(_) => None,
                None => {
                    self.current = Some((table, solver));
                    return None;
                },
            };
            left = left.saturating_sub(solver.work - before);
            match path {
                Some(path) => {
                    if path.len() <= MAX_LINE && replays_to_win(&table, self.mode, path.as_slice()) {
                        return Some((table, true));
                    }
                },
                None => {},
            }
            if left == 0 {
                return None;
            }
        }
    }

    /// Run to the end at once: each call of [`DealSearch::step`] searches without a budget
    /// limit. (Should `u64::MAX` such calls ever pass without an answer, it settles for the
    /// next deal unproven, as the search does after [`MAX_TRIES`] deals.)
    pub fn finish(&mut self) -> (r: (Table, bool))
        requires
            old(self).wf(),
        ensures
            r.0.valid_spec(),
            r.1 ==> winnable(r.0, old(self).mode_spec()),
            r.1 ==> replays_won(r.0, old(self).mode_spec()),
            final(self).tried_spec() >= old(self).tried_spec(),
            final(self).rng_spec() == rng_after(old(self).rng_spec(),
                (final(self).tried_spec() - old(self).tried_spec() + (if r.1 { 0int } else { 1 })) as nat),
            deals_as(r.0, mix_spec(final(self).rng_spec())),
    {
        let mut calls: u64 = 0;
        while calls < u64::MAX
            invariant
                self.wf(),
                self.mode_spec() == old(self).mode_spec(),
                self.tried_spec() >= old(self).tried_spec(),
                self.rng_spec() == rng_after(old(self).rng_spec(), (self.tried_spec() - old(self).tried_spec()) as nat),
            decreases u64::MAX - calls,
        {
            let ghost before = *self;
            if let Some(found) = self.step(u64::MAX) {
                proof {
                    lemma_rng_after_add(old(self).rng_spec(), (before.tried_spec() - old(self).tried_spec()) as nat,
                        (self.tried_spec() - before.tried_spec() + (if found.1 { 0int } else { 1 })) as nat);
                }
                return found;
            }
            proof {
                lemma_rng_after_add(old(self).rng_spec(), (before.tried_spec() - old(self).tried_spec()) as nat,
                    (self.tried_spec() - before.tried_spec()) as nat);
            }
            calls += 1;
        }
        let ghost st = self.rng.state();
        let t = Table::deal(self.rng.next());
        proof {
            lemma_rng_after_add(old(self).rng_spec(), (self.tried_spec() - old(self).tried_spec()) as nat, 1);
            assert(rng_after(st, 1) == vstd::wrapping::u64_specs::wrapping_add(st, GOLDEN));
        }
        (t, false)
    }
}

/// The letters of `cards`.
pub open spec fn letters(cards: Seq<Card>) -> Seq<char> {
    cards.map_values(|c: Card| code_spec(c.0 as int))
}

fn push_letters(s: &mut String, cards: &Vec<Card>)
    requires
        forall|k: int| 0 <= k < cards@.len() ==> (#[trigger] cards@[k]).0 < 52,
    ensures
        final(s)@ == old(s)@ + letters(cards@),
{
    let ghost s0 = s@;
    let mut k: usize = 0;
    while k < cards.len()
        invariant
            k <= cards@.len(),
            forall|m: int| 0 <= m < cards@.len() ==> (#[trigger] cards@[m]).0 < 52,
            s@ == s0 + letters(cards@.take(k as int)),
        decreases cards@.len() - k,
    {
        push_char(s, cards[k].code());
        k += 1;
        proof {
            assert(letters(cards@.take(k as int)) =~= letters(cards@.take(k as int - 1)).push(code_spec(cards@[k as int - 1].0 as int)));
        }
    }
    proof {
        assert(cards@.take(k as int) =~= cards@);
    }
}

/// The save format: the columns (each its face-down count, then its cards), the stock, the
/// waste and the foundations, each card one letter.
#[verifier::opaque]
pub open spec fn encode_spec(t: Table) -> Seq<char> {
    decimal(t.hidden@[0] as nat) + letters(t.col(0)) + seq![','] + decimal(t.hidden@[1] as nat) + letters(t.col(1))
        + seq![','] + decimal(t.hidden@[2] as nat) + letters(t.col(2)) + seq![','] + decimal(t.hidden@[3] as nat)
        + letters(t.col(3)) + seq![','] + decimal(t.hidden@[4] as nat) + letters(t.col(4)) + seq![',']
        + decimal(t.hidden@[5] as nat) + letters(t.col(5)) + seq![','] + decimal(t.hidden@[6] as nat)
        + letters(t.col(6)) + seq![';'] + letters(t.stock@) + seq![';'] + letters(t.waste@) + seq![';']
        + letters(t.fnd(0)) + seq![','] + letters(t.fnd(1)) + seq![','] + letters(t.fnd(2)) + seq![',']
        + letters(t.fnd(3))
}

/// The card a byte of the save stands for.
pub open spec fn byte_card(b: u8) -> Option<Card> {
    if 65 <= b <= 90 {
        Some(Card((b - 65) as u8))
    } else if 97 <= b <= 122 {
        Some(Card((b - 97 + 26) as u8))
    } else {
        None
    }
}

fn card_of_byte(b: u8) -> (c: Option<Card>)
    ensures
        c == byte_card(b),
{
    if 65 <= b && b <= 90 {
        Some(Card(b - 65))
    } else if 97 <= b && b <= 122 {
        Some(Card(b - 97 + 26))
    } else {
        None
    }
}

/// The cards the bytes `b` stand for, when each stands for one.
fn cards_of(b: &[u8], from: usize, to: usize) -> (r: Option<Vec<Card>>)
    requires
        from <= to <= b@.len(),
    ensures
        r matches Some(v) ==> v@.len() == to - from && forall|k: int| 0 <= k < v@.len() ==> Some(#[trigger] v@[k]) == byte_card(b@[from + k]),
        r is None ==> exists|k: int| from <= k < to && #[trigger] byte_card(b@[k]) is None,
{
    let mut v: Vec<Card> = Vec::new();
    let mut k = from;
    while k < to
        invariant
            from <= k <= to <= b@.len(),
            v@.len() == k - from,
            forall|m: int| 0 <= m < v@.len() ==> Some(#[trigger] v@[m]) == byte_card(b@[from + m]),
        decreases to - k,
    {
        match card_of_byte(b[k]) {
            Some(c) => v.push(c),
            None => return None,
        }
        k += 1;
    }
    Some(v)
}

/// The positions of byte `sep` in `b[from..to]`, ascending.
pub open spec fn seps(b: Seq<u8>, from: int, to: int, sep: u8) -> Seq<int>
    decreases to - from,
{
    if to <= from {
        Seq::empty()
    } else {
        seps(b, from, to - 1, sep) + if b[to - 1] == sep { seq![to - 1] } else { Seq::empty() }
    }
}

/// The stretches of `b[from..to]` between the bytes `sep`, each as (start, end).
pub open spec fn split_spec(b: Seq<u8>, from: int, to: int, sep: u8) -> Seq<(int, int)> {
    let p = seps(b, from, to, sep);
    Seq::new(p.len() + 1, |k: int| (if k == 0 { from } else { p[k - 1] + 1 }, if k == p.len() { to } else { p[k] }))
}

/// The separators of a stretch are those of its two halves.
proof fn lemma_seps_split(b: Seq<u8>, from: int, mid: int, to: int, sep: u8)
    requires
        from <= mid <= to,
    ensures
        seps(b, from, to, sep) == seps(b, from, mid, sep) + seps(b, mid, to, sep),
    decreases to - mid,
{
    if to == mid {
        assert(seps(b, from, mid, sep) + seps(b, mid, mid, sep) =~= seps(b, from, mid, sep));
    } else {
        lemma_seps_split(b, from, mid, to - 1, sep);
        let t = if b[to - 1] == sep { seq![to - 1] } else { Seq::<int>::empty() };
        assert(seps(b, from, to, sep) == seps(b, from, to - 1, sep) + t);
        assert(seps(b, mid, to, sep) == seps(b, mid, to - 1, sep) + t);
        assert(seps(b, from, mid, sep) + seps(b, mid, to - 1, sep) + t =~= seps(b, from, mid, sep) + (seps(b, mid, to - 1, sep) + t));
    }
}

/// The separators of a stretch lie in it, in increasing order, each on the byte.
proof fn lemma_seps_ordered(x: Seq<u8>, from: int, to: int, sep: u8)
    ensures
        forall|m: int| 0 <= m < seps(x, from, to, sep).len() ==> from <= #[trigger] seps(x, from, to, sep)[m] < to
            && x[seps(x, from, to, sep)[m]] == sep,
        forall|m1: int, m2: int| 0 <= m1 < m2 < seps(x, from, to, sep).len()
            ==> #[trigger] seps(x, from, to, sep)[m1] < #[trigger] seps(x, from, to, sep)[m2],
    decreases to - from,
{
    if to > from {
        lemma_seps_ordered(x, from, to - 1, sep);
        let q0 = seps(x, from, to - 1, sep);
        let q = seps(x, from, to, sep);
        if x[to - 1] == sep {
            assert(q == q0 + seq![to - 1]);
            assert forall|m: int| 0 <= m < q.len() implies from <= #[trigger] q[m] < to && x[q[m]] == sep by {
                if m < q0.len() {
                    assert(q[m] == q0[m]);
                }
            }
            assert forall|m1: int, m2: int| 0 <= m1 < m2 < q.len() implies #[trigger] q[m1] < #[trigger] q[m2] by {
                assert(q[m1] == q0[m1]);
                if m2 < q0.len() {
                    assert(q[m2] == q0[m2]);
                }
            }
        } else {
            assert(q =~= q0);
        }
    }
}

/// The piece of a stretch holding position `k`, found among the separators `q` from the
/// `m`-th on.
proof fn lemma_find_piece(q: Seq<int>, from: int, to: int, k: int, m: int) -> (j: int)
    requires
        forall|i: int| 0 <= i < q.len() ==> from <= #[trigger] q[i] < to,
        forall|i1: int, i2: int| 0 <= i1 < i2 < q.len() ==> #[trigger] q[i1] < #[trigger] q[i2],
        from <= k < to,
        0 <= m <= q.len(),
        m == 0 || q[m - 1] < k,
    ensures
        0 <= j <= q.len(),
        (if j == 0 { from } else { q[j - 1] + 1 }) <= k,
        k <= (if j == q.len() { to } else { q[j] }),
    decreases q.len() - m,
{
    if m == q.len() || q[m] >= k {
        m
    } else {
        lemma_find_piece(q, from, to, k, m + 1)
    }
}

/// Every byte of a stretch lies in one of its pieces or is the separator that ends one.
proof fn lemma_split_cover(x: Seq<u8>, from: int, to: int, sep: u8, k: int) -> (j: int)
    requires
        from <= k < to,
    ensures
        0 <= j < split_spec(x, from, to, sep).len(),
        split_spec(x, from, to, sep)[j].0 <= k <= split_spec(x, from, to, sep)[j].1,
        k == split_spec(x, from, to, sep)[j].1 ==> j < split_spec(x, from, to, sep).len() - 1 && x[k] == sep,
{
    lemma_seps_ordered(x, from, to, sep);
    let q = seps(x, from, to, sep);
    let j = lemma_find_piece(q, from, to, k, 0);
    if j < q.len() && k == q[j] {
        assert(x[q[j]] == sep);
    }
    j
}

/// Bytes that stand for the same card are the same byte.
proof fn lemma_byte_card_injective(x: u8, y: u8)
    requires
        byte_card(x) is Some,
        byte_card(x) == byte_card(y),
    ensures
        x == y,
{
}

/// What the parse of `b` found: four parts split at semicolons, the first split at commas into
/// the seven columns and the last into the four foundations, each piece holding the face-down
/// count and cards, or the cards, of table `t`.
pub open spec fn parsed_as(b: Seq<u8>, t: Table) -> bool {
    let p = split_spec(b, 0, b.len() as int, 59);
    let c = split_spec(b, p[0].0, p[0].1, 44);
    let f = split_spec(b, p[3].0, p[3].1, 44);
    &&& p.len() == 4
    &&& c.len() == COLS
    &&& f.len() == 4
    &&& forall|i: int| 0 <= i < COLS ==> #[trigger] c[i].1 == c[i].0 + 1 + t.col(i).len() && b[c[i].0] == 48 + t.hidden@[i]
        && cards_at(b, c[i].0 + 1, t.col(i))
    &&& p[1].1 == p[1].0 + t.stock@.len() && cards_at(b, p[1].0, t.stock@)
    &&& p[2].1 == p[2].0 + t.waste@.len() && cards_at(b, p[2].0, t.waste@)
    &&& forall|i: int| 0 <= i < 4 ==> #[trigger] f[i].1 == f[i].0 + t.fnd(i).len() && cards_at(b, f[i].0, t.fnd(i))
}

/// Column `i + 1`'s text starts two bytes after column `i`'s cards end (a one-digit
/// face-down count, the cards, a comma).
proof fn lemma_col_start_step(t: Table, i: int)
    requires
        0 <= i < COLS - 1,
        t.hidden@[i] < 10,
    ensures
        col_start(t, i + 1) == col_start(t, i) + 2 + t.col(i).len(),
{
    assert(decimal(t.hidden@[i] as nat).len() == 1);
    assert(letters(t.col(i)).len() == t.col(i).len());
    if i >= 1 {
        assert(col_prefix(t, i + 1) == col_prefix(t, i) + seq![','] + decimal(t.hidden@[i] as nat) + letters(t.col(i)));
    }
}

/// Pieces of a split follow one another, each after the separator that ends the one before.
proof fn lemma_split_next(x: Seq<u8>, from: int, to: int, sep: u8, j: int)
    requires
        0 <= j < split_spec(x, from, to, sep).len() - 1,
    ensures
        split_spec(x, from, to, sep)[j + 1].0 == split_spec(x, from, to, sep)[j].1 + 1,
        split_spec(x, from, to, sep)[j].1 == seps(x, from, to, sep)[j],
{
}

/// Text that the parse takes apart into table `t`'s pieces is `t`'s save, byte for byte.
#[verifier::spinoff_prover]
#[verifier::rlimit(100)]
proof fn lemma_parsed_is_save(b: Seq<u8>, t: Table)
    requires
        t.searchable(),
        parsed_as(b, t),
    ensures
        b == save_bytes(t),
{
    let n = b.len() as int;
    let e = encode_spec(t);
    let bb = save_bytes(t);
    lemma_layout_regions(t);
    lemma_layout_top(t);
    lemma_layout_cols(t);
    lemma_layout_piles(t);
    lemma_layout_fnd(t);
    let p = split_spec(b, 0, n, 59);
    let c = split_spec(b, p[0].0, p[0].1, 44);
    let f = split_spec(b, p[3].0, p[3].1, 44);
    let cpl = col_prefix(t, COLS as int).len() as int;
    let pb = split_spec(bb, 0, e.len() as int, 59);
    let cb = split_spec(bb, 0, cpl, 44);
    let fb = split_spec(bb, fnd_start(t, 0), e.len() as int, 44);
    // The columns start where the save writes them.
    assert(p[0].0 == 0);
    assert(c[0].0 == 0);
    assert forall|i: int| 0 <= i < COLS implies #[trigger] c[i].0 == col_start(t, i) by {
        if i >= 1 {
            lemma_split_next(b, p[0].0, p[0].1, 44, 0);
            lemma_col_start_step(t, 0);
        }
        if i >= 2 {
            lemma_split_next(b, p[0].0, p[0].1, 44, 1);
            lemma_col_start_step(t, 1);
        }
        if i >= 3 {
            lemma_split_next(b, p[0].0, p[0].1, 44, 2);
            lemma_col_start_step(t, 2);
        }
        if i >= 4 {
            lemma_split_next(b, p[0].0, p[0].1, 44, 3);
            lemma_col_start_step(t, 3);
        }
        if i >= 5 {
            lemma_split_next(b, p[0].0, p[0].1, 44, 4);
            lemma_col_start_step(t, 4);
        }
        if i >= 6 {
            lemma_split_next(b, p[0].0, p[0].1, 44, 5);
            lemma_col_start_step(t, 5);
        }
    }
    assert forall|i: int| 0 <= i < COLS implies #[trigger] c[i] == cb[i] by {
        assert(cb[i] == (col_start(t, i), col_start(t, i) + 1 + t.col(i).len()));
    }
    assert(p[0].1 == c[6].1);
    assert(cb[6].1 == cpl);
    assert(p[0] == pb[0]);
    lemma_split_next(b, 0, n, 59, 0);
    lemma_split_next(b, 0, n, 59, 1);
    lemma_split_next(b, 0, n, 59, 2);
    assert(p[1] == pb[1]);
    assert(p[2] == pb[2]);
    assert(p[3].0 == pb[3].0);
    assert(f[0].0 == fnd_start(t, 0));
    lemma_split_next(b, p[3].0, p[3].1, 44, 0);
    lemma_split_next(b, p[3].0, p[3].1, 44, 1);
    lemma_split_next(b, p[3].0, p[3].1, 44, 2);
    assert(f[1].0 == fnd_start(t, 1));
    assert(f[2].0 == fnd_start(t, 2));
    assert(f[3].0 == fnd_start(t, 3));
    assert(f[3].1 == p[3].1);
    assert(n == e.len());
    assert(bb.len() == n);
    assert(p =~= pb);
    assert forall|i: int| 0 <= i < 4 implies #[trigger] f[i] == fb[i] by {
        assert(fb[i] == (fnd_start(t, i), fnd_start(t, i) + t.fnd(i).len()));
    }
    lemma_seps_ordered(bb, 0, n, 59);
    lemma_seps_ordered(bb, 0, cpl, 44);
    lemma_seps_ordered(bb, fnd_start(t, 0), n, 44);
    lemma_split_next(bb, 0, n, 59, 0);
    lemma_split_next(bb, 0, n, 59, 1);
    lemma_split_next(bb, 0, n, 59, 2);
    assert forall|k: int| 0 <= k < n implies #[trigger] b[k] == bb[k] by {
        let j = lemma_split_cover(b, 0, n, 59, k);
        if k == p[j].1 {
            assert(bb[k] == 59);
        } else if j == 1 {
            assert(byte_card(b[p[1].0 + (k - p[1].0)]) == Some(t.stock@[k - p[1].0]));
            assert(byte_card(bb[stock_start(t) + (k - p[1].0)]) == Some(t.stock@[k - p[1].0]));
            lemma_byte_card_injective(b[k], bb[k]);
        } else if j == 2 {
            assert(byte_card(b[p[2].0 + (k - p[2].0)]) == Some(t.waste@[k - p[2].0]));
            assert(byte_card(bb[waste_start(t) + (k - p[2].0)]) == Some(t.waste@[k - p[2].0]));
            lemma_byte_card_injective(b[k], bb[k]);
        } else if j == 0 {
            let i = lemma_split_cover(b, 0, cpl, 44, k);
            if k == c[i].1 {
                lemma_split_next(bb, 0, cpl, 44, i);
                assert(bb[k] == 44);
            } else if k == c[i].0 {
                assert(c[i] == cb[i]);
            } else {
                assert(c[i] == cb[i]);
                let o = k - c[i].0 - 1;
                assert(cards_at(b, c[i].0 + 1, t.col(i)));
                assert(byte_card(b[c[i].0 + 1 + o]) == Some(t.col(i)[o]));
                assert(byte_card(bb[col_start(t, i) + 1 + o]) == Some(t.col(i)[o]));
                lemma_byte_card_injective(b[k], bb[k]);
            }
        } else {
            let i = lemma_split_cover(b, p[3].0, p[3].1, 44, k);
            if k == f[i].1 {
                lemma_split_next(bb, fnd_start(t, 0), n, 44, i);
                assert(bb[k] == 44);
            } else {
                assert(f[i] == fb[i]);
                let o = k - f[i].0;
                assert(cards_at(b, f[i].0, t.fnd(i)));
                assert(byte_card(b[f[i].0 + o]) == Some(t.fnd(i)[o]));
                assert(byte_card(bb[fnd_start(t, i) + o]) == Some(t.fnd(i)[o]));
                lemma_byte_card_injective(b[k], bb[k]);
            }
        }
    }
    assert(b =~= bb);
}

/// A stretch without the byte has no separators.
proof fn lemma_seps_none(b: Seq<u8>, from: int, to: int, sep: u8)
    requires
        from <= to,
        forall|k: int| from <= k < to ==> b[k] != sep,
    ensures
        seps(b, from, to, sep) == Seq::<int>::empty(),
    decreases to - from,
{
    if to > from {
        lemma_seps_none(b, from, to - 1, sep);
        assert(seps(b, from, to, sep) =~= Seq::<int>::empty());
    }
}

/// A single separator.
proof fn lemma_seps_at(b: Seq<u8>, k: int, sep: u8)
    requires
        b[k] == sep,
    ensures
        seps(b, k, k + 1, sep) == seq![k],
{
    assert(seps(b, k, k, sep) == Seq::<int>::empty());
    assert(Seq::<int>::empty() + seq![k] =~= seq![k]);
}

/// Separators depend only on the bytes of the stretch.
proof fn lemma_seps_agree(b1: Seq<u8>, b2: Seq<u8>, from: int, to: int, sep: u8)
    requires
        forall|k: int| from <= k < to ==> b1[k] == b2[k],
    ensures
        seps(b1, from, to, sep) == seps(b2, from, to, sep),
    decreases to - from,
{
    if to > from {
        lemma_seps_agree(b1, b2, from, to - 1, sep);
    }
}

/// Where the pieces of `b[from..to]` separated by `sep` start and end.
fn split_at_byte(b: &[u8], from: usize, to: usize, sep: u8) -> (pieces: Vec<(usize, usize)>)
    requires
        from <= to <= b@.len(),
    ensures
        pieces@.len() >= 1,
        forall|k: int| 0 <= k < pieces@.len() ==> from <= (#[trigger] pieces@[k]).0 <= pieces@[k].1 <= to,
        pieces@.len() == split_spec(b@, from as int, to as int, sep).len(),
        forall|k: int| 0 <= k < pieces@.len() ==> (#[trigger] pieces@[k]).0 == split_spec(b@, from as int, to as int, sep)[k].0
            && pieces@[k].1 == split_spec(b@, from as int, to as int, sep)[k].1,
{
    let mut pieces: Vec<(usize, usize)> = Vec::new();
    let mut start = from;
    let mut k = from;
    while k < to
        invariant
            from <= start <= k <= to <= b@.len(),
            forall|m: int| 0 <= m < pieces@.len() ==> from <= (#[trigger] pieces@[m]).0 <= pieces@[m].1 <= to,
            pieces@.len() == seps(b@, from as int, k as int, sep).len(),
            forall|m: int| 0 <= m < pieces@.len() ==> (#[trigger] pieces@[m]).0 == (if m == 0 { from as int } else {
                seps(b@, from as int, k as int, sep)[m - 1] + 1 }) && pieces@[m].1 == seps(b@, from as int, k as int, sep)[m],
            start == (if pieces@.len() == 0 { from as int } else { seps(b@, from as int, k as int, sep).last() + 1 }),
        decreases to - k,
    {
        let ghost p0 = seps(b@, from as int, k as int, sep);
        if b[k] == sep {
            pieces.push((start, k));
            start = k + 1;
            proof {
                assert(seps(b@, from as int, k as int + 1, sep) == p0 + seq![k as int]);
            }
        } else {
            proof {
                assert(seps(b@, from as int, k as int + 1, sep) =~= p0);
            }
        }
        k += 1;
    }
    pieces.push((start, to));
    pieces
}

impl Table {
    /// The compact text form saves and undo history use.
    #[verifier::spinoff_prover]
    pub fn encode(&self) -> (s: String)
        requires
            self.searchable(),
        ensures
            s@ == encode_spec(*self),
    {
        let mut s = String::new();
        let mut i: usize = 0;
        let ghost mut acc: Seq<char> = Seq::empty();
        while i < COLS
            invariant
                i <= COLS,
                self.searchable(),
                s@ == (if i == 0 { Seq::<char>::empty() } else { col_prefix(*self, i as int) }),
            decreases COLS - i,
        {
            if i > 0 {
                push_char(&mut s, ',');
            }
            push_decimal(&mut s, self.hidden[i] as u64);
            push_letters(&mut s, &self.tableau[i]);
            proof {
                if i == 0 {
                    assert(s@ =~= col_prefix(*self, 1));
                } else {
                    assert(s@ =~= col_prefix(*self, i as int + 1));
                }
            }
            i += 1;
        }
        push_char(&mut s, ';');
        push_letters(&mut s, &self.stock);
        push_char(&mut s, ';');
        push_letters(&mut s, &self.waste);
        push_char(&mut s, ';');
        push_letters(&mut s, &self.foundations[0]);
        push_char(&mut s, ',');
        push_letters(&mut s, &self.foundations[1]);
        push_char(&mut s, ',');
        push_letters(&mut s, &self.foundations[2]);
        push_char(&mut s, ',');
        push_letters(&mut s, &self.foundations[3]);
        proof {
            reveal(encode_spec);
            reveal_with_fuel(col_prefix, 8);
            assert(s@ =~= encode_spec(*self));
        }
        s
    }

    /// The table [`Table::encode`] wrote, when it is a valid one: every valid table comes
    /// back from its own text, and no text gives an invalid table.
    #[verifier::spinoff_prover]
    #[verifier::rlimit(100)]
    pub fn decode(s: &str) -> (r: Option<Table>)
        ensures
            r matches Some(t) ==> t.valid_spec(),
            forall|t: Table| #[trigger] saves_as(t, s@) ==> (r matches Some(u) && same_table(u, t)),
            r matches Some(u) ==> saves_as(u, s@),
            r is Some <==> exists|t: Table| #[trigger] saves_as(t, s@),
    {
        let ghost t0 = choose|t: Table| saves_as(t, s@);
        let ghost ok = saves_as(t0, s@);
        let b = s.as_bytes();
        proof {
            assert forall|t: Table| #[trigger] saves_as(t, s@) implies ok by {}
            if ok {
                lemma_valid_searchable(t0);
                lemma_layout_top(t0);
                lemma_layout_cols(t0);
                lemma_layout_piles(t0);
                lemma_layout_fnd(t0);
                assert forall|k: int| 0 <= k < s@.len() implies '\0' <= #[trigger] s@[k] <= '\u{7f}' by {
                    assert(s@[k] <= '\u{7f}');
                }
                vstd::string::is_ascii_spec_bytes(s);
                assert(vstd::string::is_ascii(s));
                assert(b@ =~= save_bytes(t0));
            }
        }
        let parts = split_at_byte(b, 0, b.len(), 59);
        if parts.len() != 4 {
            return None;
        }
        let (c0, c1) = parts[0];
        let cols = split_at_byte(b, c0, c1, 44);
        if cols.len() != COLS {
            return None;
        }
        let ghost pp = split_spec(b@, 0, b@.len() as int, 59);
        let ghost cc = split_spec(b@, pp[0].0, pp[0].1, 44);
        proof {
            assert(parts@[0].0 == pp[0].0 && parts@[0].1 == pp[0].1);
        }
        let mut t = Table::empty();
        let mut i: usize = 0;
        while i < COLS
            invariant
                i <= COLS,
                cols@.len() == COLS,
                forall|k: int| 0 <= k < cols@.len() ==> (#[trigger] cols@[k]).0 <= cols@[k].1 <= b@.len(),
                forall|x: Table| #[trigger] saves_as(x, s@) ==> ok,
                ok ==> t0.searchable() && b@ == save_bytes(t0),
                ok ==> forall|k: int| 0 <= k < COLS ==> (#[trigger] cols@[k]).0 == col_start(t0, k)
                    && cols@[k].1 == col_start(t0, k) + 1 + t0.col(k).len(),
                ok ==> forall|k: int| 0 <= k < i ==> #[trigger] t.col(k) == t0.col(k),
                ok ==> forall|k: int| 0 <= k < i ==> #[trigger] t.hidden@[k] == t0.hidden@[k],
                cc.len() == COLS,
                forall|k: int| 0 <= k < COLS ==> (#[trigger] cols@[k]).0 == cc[k].0 && cols@[k].1 == cc[k].1,
                forall|k: int| 0 <= k < i ==> #[trigger] cc[k].1 == cc[k].0 + 1 + t.col(k).len() && b@[cc[k].0] == 48 + t.hidden@[k]
                    && cards_at(b@, cc[k].0 + 1, t.col(k)),
            decreases COLS - i,
        {
            proof {
                if ok {
                    lemma_layout_cols(t0);
                }
            }
            let (a, z) = cols[i];
            if a == z {
                return None;
            }
            if b[a] < 48 {
                return None;
            }
            proof {
                if ok {
                    assert(b@[a as int] == 48 + t0.hidden@[i as int]);
                }
            }
            let ghost before = t;
            t.hidden[i] = (b[a] - 48) as usize;
            match cards_of(b, a + 1, z) {
                Some(v) => {
                    proof {
                        if ok {
                            assert(cards_at(b@, col_start(t0, i as int) + 1, t0.col(i as int)));
                            assert forall|k: int| 0 <= k < v@.len() implies v@[k] == t0.col(i as int)[k] by {
                                assert(byte_card(b@[a + 1 + k]) == Some(t0.col(i as int)[k]));
                            }
                            assert(v@ =~= t0.col(i as int));
                        }
                    }
                    t.tableau[i] = v;
                    proof {
                        assert forall|k: int| 0 <= k < i + 1 implies #[trigger] cc[k].1 == cc[k].0 + 1 + t.col(k).len()
                            && b@[cc[k].0] == 48 + t.hidden@[k] && cards_at(b@, cc[k].0 + 1, t.col(k)) by {
                            if k < i {
                                assert(t.col(k) == before.col(k));
                                assert(t.hidden@[k] == before.hidden@[k]);
                            } else {
                                assert(cards_at(b@, cc[k].0 + 1, t.col(k))) by {
                                    assert forall|m: int| 0 <= m < t.col(k).len() implies byte_card(b@[cc[k].0 + 1 + m]) == Some(#[trigger] t.col(k)[m]) by {
                                        assert(Some(v@[m]) == byte_card(b@[a + 1 + m]));
                                    }
                                }
                            }
                        }
                        if ok {
                            assert forall|k: int| 0 <= k < i + 1 implies #[trigger] t.col(k) == t0.col(k)
                                && t.hidden@[k] == t0.hidden@[k] by {
                                if k < i {
                                    assert(before.col(k) == t0.col(k));
                                    assert(before.hidden@[k] == t0.hidden@[k]);
                                }
                            }
                        }
                    }
                },
                None => {
                    proof {
                        if ok {
                            assert(cards_at(b@, col_start(t0, i as int) + 1, t0.col(i as int)));
                            let k = choose|k: int| a + 1 <= k < z && #[trigger] byte_card(b@[k]) is None;
                            assert(byte_card(b@[a + 1 + (k - a - 1)]) == Some(t0.col(i as int)[k - a - 1]));
                        }
                    }
                    return None;
                },
            }
            i += 1;
        }
        let (s0, s1) = parts[1];
        let ghost tc = t;
        match cards_of(b, s0, s1) {
            Some(v) => {
                proof {
                    if ok {
                        assert forall|k: int| 0 <= k < v@.len() implies v@[k] == t0.stock@[k] by {
                            assert(byte_card(b@[s0 + k]) == Some(t0.stock@[k]));
                        }
                        assert(v@ =~= t0.stock@);
                    }
                }
                t.stock = v;
                proof {
                    assert(cards_at(b@, pp[1].0, t.stock@)) by {
                        assert forall|m: int| 0 <= m < t.stock@.len() implies byte_card(b@[pp[1].0 + m]) == Some(#[trigger] t.stock@[m]) by {
                            assert(Some(v@[m]) == byte_card(b@[s0 + m]));
                        }
                    }
                }
            },
            None => {
                proof {
                    if ok {
                        let k = choose|k: int| s0 <= k < s1 && #[trigger] byte_card(b@[k]) is None;
                        assert(byte_card(b@[s0 + (k - s0)]) == Some(t0.stock@[k - s0]));
                    }
                }
                return None;
            },
        }
        let (w0, w1) = parts[2];
        let ghost ts = t;
        match cards_of(b, w0, w1) {
            Some(v) => {
                proof {
                    if ok {
                        assert forall|k: int| 0 <= k < v@.len() implies v@[k] == t0.waste@[k] by {
                            assert(byte_card(b@[w0 + k]) == Some(t0.waste@[k]));
                        }
                        assert(v@ =~= t0.waste@);
                    }
                }
                t.waste = v;
                proof {
                    assert(cards_at(b@, pp[2].0, t.waste@)) by {
                        assert forall|m: int| 0 <= m < t.waste@.len() implies byte_card(b@[pp[2].0 + m]) == Some(#[trigger] t.waste@[m]) by {
                            assert(Some(v@[m]) == byte_card(b@[w0 + m]));
                        }
                    }
                }
            },
            None => {
                proof {
                    if ok {
                        let k = choose|k: int| w0 <= k < w1 && #[trigger] byte_card(b@[k]) is None;
                        assert(byte_card(b@[w0 + (k - w0)]) == Some(t0.waste@[k - w0]));
                    }
                }
                return None;
            },
        }
        proof {
            if ok {
                assert(t.hidden@ =~= t0.hidden@);
            }
        }
        let (f0, f1) = parts[3];
        let found = split_at_byte(b, f0, f1, 44);
        if found.len() != 4 {
            return None;
        }
        let ghost ff = split_spec(b@, pp[3].0, pp[3].1, 44);
        let ghost tw = t;
        proof {
            assert(parts@[1].0 == pp[1].0 && parts@[1].1 == pp[1].1);
            assert(parts@[2].0 == pp[2].0 && parts@[2].1 == pp[2].1);
            assert(parts@[3].0 == pp[3].0 && parts@[3].1 == pp[3].1);
            assert(forall|k: int| 0 <= k < COLS ==> #[trigger] t.col(k) == tc.col(k));
            assert(t.hidden@ == tc.hidden@);
        }
        let mut i: usize = 0;
        while i < 4
            invariant
                i <= 4,
                found@.len() == 4,
                forall|k: int| 0 <= k < found@.len() ==> (#[trigger] found@[k]).0 <= found@[k].1 <= b@.len(),
                forall|x: Table| #[trigger] saves_as(x, s@) ==> ok,
                ok ==> t0.searchable() && b@ == save_bytes(t0),
                ok ==> forall|k: int| 0 <= k < 4 ==> (#[trigger] found@[k]).0 == fnd_start(t0, k)
                    && found@[k].1 == fnd_start(t0, k) + t0.fnd(k).len(),
                ok ==> forall|k: int| 0 <= k < COLS ==> #[trigger] t.col(k) == t0.col(k),
                ok ==> t.hidden@ == t0.hidden@,
                ok ==> t.stock@ == t0.stock@ && t.waste@ == t0.waste@,
                ok ==> forall|k: int| 0 <= k < i ==> #[trigger] t.fnd(k) == t0.fnd(k),
                ff.len() == 4,
                forall|k: int| 0 <= k < 4 ==> (#[trigger] found@[k]).0 == ff[k].0 && found@[k].1 == ff[k].1,
                forall|k: int| 0 <= k < COLS ==> #[trigger] t.col(k) == tw.col(k),
                t.hidden@ == tw.hidden@ && t.stock@ == tw.stock@ && t.waste@ == tw.waste@,
                forall|k: int| 0 <= k < i ==> #[trigger] ff[k].1 == ff[k].0 + t.fnd(k).len() && cards_at(b@, ff[k].0, t.fnd(k)),
            decreases 4 - i,
        {
            proof {
                if ok {
                    lemma_layout_piles(t0);
                }
            }
            let (a, z) = found[i];
            match cards_of(b, a, z) {
                Some(v) => {
                    proof {
                        if ok {
                            assert(cards_at(b@, fnd_start(t0, i as int), t0.fnd(i as int)));
                            assert forall|k: int| 0 <= k < v@.len() implies v@[k] == t0.fnd(i as int)[k] by {
                                assert(byte_card(b@[a + k]) == Some(t0.fnd(i as int)[k]));
                            }
                            assert(v@ =~= t0.fnd(i as int));
                        }
                    }
                    let ghost bf = t;
                    t.foundations[i] = v;
                    proof {
                        assert forall|k: int| 0 <= k < i + 1 implies #[trigger] ff[k].1 == ff[k].0 + t.fnd(k).len()
                            && cards_at(b@, ff[k].0, t.fnd(k)) by {
                            if k < i {
                                assert(t.fnd(k) == bf.fnd(k));
                            } else {
                                assert forall|m: int| 0 <= m < t.fnd(k).len() implies byte_card(b@[ff[k].0 + m]) == Some(#[trigger] t.fnd(k)[m]) by {
                                    assert(Some(v@[m]) == byte_card(b@[a + m]));
                                }
                            }
                        }
                        assert forall|k: int| 0 <= k < COLS implies #[trigger] t.col(k) == tw.col(k) by {
                            assert(t.col(k) == bf.col(k));
                        }
                    }
                },
                None => {
                    proof {
                        if ok {
                            assert(cards_at(b@, fnd_start(t0, i as int), t0.fnd(i as int)));
                            let k = choose|k: int| a <= k < z && #[trigger] byte_card(b@[k]) is None;
                            assert(byte_card(b@[a + (k - a)]) == Some(t0.fnd(i as int)[k - a]));
                        }
                    }
                    return None;
                },
            }
            i += 1;
        }
        proof {
            if ok {
                assert(same_table(t, t0));
                lemma_same_valid(t, t0);
                assert forall|t2: Table| #[trigger] saves_as(t2, s@) implies same_table(t, t2) by {
                    lemma_valid_searchable(t2);
                    lemma_encode_injective(t0, t2);
                }
            }
        }
        if t.valid() {
            proof {
                lemma_valid_searchable(t);
                assert(parsed_as(b@, t));
                lemma_parsed_is_save(b@, t);
                lemma_layout_top(t);
                let e = encode_spec(t);
                vstd::utf8::is_ascii_chars_encode_utf8(e);
                assert(vstd::utf8::encode_utf8(e) =~= save_bytes(t));
                vstd::utf8::encode_utf8_decode_utf8(e);
                vstd::utf8::encode_utf8_decode_utf8(s@);
                assert(s@ == e);
                assert(saves_as(t, s@));
            }
            Some(t)
        } else {
            None
        }
    }
}

/// The save text of the first `i` columns.
pub open spec fn col_prefix(t: Table, i: int) -> Seq<char>
    decreases i,
{
    if i <= 0 {
        Seq::empty()
    } else if i == 1 {
        decimal(t.hidden@[0] as nat) + letters(t.col(0))
    } else {
        col_prefix(t, i - 1) + seq![','] + decimal(t.hidden@[i - 1] as nat) + letters(t.col(i - 1))
    }
}

/// The bytes of ASCII text.
pub open spec fn bytes_of(cs: Seq<char>) -> Seq<u8> {
    Seq::new(cs.len(), |i: int| cs[i] as u8)
}

/// A column's text: its face-down count, then its cards.
pub open spec fn col_text(t: Table, i: int) -> Seq<char> {
    decimal(t.hidden@[i] as nat) + letters(t.col(i))
}

/// Where column `i`'s text starts in the save: after the columns before it and their commas.
pub open spec fn col_start(t: Table, i: int) -> int {
    if i <= 0 { 0 } else { col_prefix(t, i).len() as int + 1 }
}

/// The cards `cards` are written from byte `a` on.
pub open spec fn cards_at(b: Seq<u8>, a: int, cards: Seq<Card>) -> bool {
    forall|k: int| 0 <= k < cards.len() ==> byte_card(b[a + k]) == Some(#[trigger] cards[k])
}

/// Cards written as letters: ASCII, neither separator, each letter its card.
proof fn lemma_letters(cards: Seq<Card>)
    requires
        forall|k: int| 0 <= k < cards.len() ==> (#[trigger] cards[k]).0 < 52,
    ensures
        letters(cards).len() == cards.len(),
        forall|k: int| 0 <= k < cards.len() ==> '\0' <= #[trigger] letters(cards)[k] <= '\u{7f}',
        forall|k: int| 0 <= k < cards.len() ==> #[trigger] bytes_of(letters(cards))[k] != 44 && bytes_of(letters(cards))[k] != 59,
        cards_at(bytes_of(letters(cards)), 0, cards),
{
    assert forall|k: int| 0 <= k < cards.len() implies byte_card(bytes_of(letters(cards))[0 + k]) == Some(#[trigger] cards[k]) by {
        assert(letters(cards)[k] == code_spec(cards[k].0 as int));
    }
}

/// A column's text is its face-down count's digit, then its cards.
#[verifier::spinoff_prover]
proof fn lemma_col_text(t: Table, i: int)
    requires
        t.searchable(),
        0 <= i < COLS,
    ensures
        col_text(t, i).len() == 1 + t.col(i).len(),
        bytes_of(col_text(t, i))[0] == 48 + t.hidden@[i],
        forall|k: int| 0 <= k < col_text(t, i).len() ==> '\0' <= #[trigger] col_text(t, i)[k] <= '\u{7f}',
        forall|k: int| 0 <= k < col_text(t, i).len() ==> #[trigger] bytes_of(col_text(t, i))[k] != 44
            && bytes_of(col_text(t, i))[k] != 59,
        cards_at(bytes_of(col_text(t, i)), 1, t.col(i)),
{
    let h = t.hidden@[i];
    assert(t.col(i).len() <= MAX_COL && h <= MAX_HIDDEN);
    assert(decimal(h as nat) == seq![(48 + h) as char]);
    lemma_letters(t.col(i));
    let l = letters(t.col(i));
    assert(col_text(t, i) == seq![(48 + h) as char] + l);
    assert forall|k: int| 0 <= k < col_text(t, i).len() implies #[trigger] bytes_of(col_text(t, i))[k] != 44
        && bytes_of(col_text(t, i))[k] != 59 && '\0' <= col_text(t, i)[k] <= '\u{7f}' by {
        if k > 0 {
            assert(col_text(t, i)[k] == l[k - 1]);
            assert(bytes_of(l)[k - 1] != 44);
        }
    }
    assert forall|k: int| 0 <= k < t.col(i).len() implies byte_card(bytes_of(col_text(t, i))[1 + k]) == Some(#[trigger] t.col(i)[k]) by {
        assert(col_text(t, i)[1 + k] == l[k]);
        assert(byte_card(bytes_of(l)[0 + k]) == Some(t.col(i)[k]));
    }
}

/// The columns' text, `j` of them: ASCII, no semicolon, a comma before each column but the
/// first, and each column's digit and cards where it starts.
pub open spec fn cols_ok(t: Table, j: int) -> bool {
    &&& forall|k: int| 0 <= k < col_prefix(t, j).len() ==> '\0' <= #[trigger] col_prefix(t, j)[k] <= '\u{7f}'
        && bytes_of(col_prefix(t, j))[k] != 59
    &&& seps(bytes_of(col_prefix(t, j)), 0, col_prefix(t, j).len() as int, 44)
        == Seq::new((j - 1) as nat, |m: int| col_prefix(t, m + 1).len() as int)
    &&& forall|i: int| 0 <= i < j ==> col_start(t, i) + 1 + (#[trigger] t.col(i)).len() == col_prefix(t, i + 1).len()
        && col_prefix(t, i + 1).len() <= col_prefix(t, j).len()
        && bytes_of(col_prefix(t, j))[col_start(t, i)] == 48 + t.hidden@[i]
        && cards_at(bytes_of(col_prefix(t, j)), col_start(t, i) + 1, t.col(i))
}

/// The bytes of the first `j` columns' text are those of `j - 1` of them, a comma, and the
/// next column's.
#[verifier::spinoff_prover]
proof fn lemma_prefix_bytes(t: Table, j: int)
    requires
        2 <= j <= COLS,
    ensures
        col_prefix(t, j).len() == col_prefix(t, j - 1).len() + 1 + col_text(t, j - 1).len(),
        forall|k: int| 0 <= k < col_prefix(t, j - 1).len() ==> #[trigger] bytes_of(col_prefix(t, j))[k] == bytes_of(col_prefix(t, j - 1))[k]
            && col_prefix(t, j)[k] == col_prefix(t, j - 1)[k],
        bytes_of(col_prefix(t, j))[col_prefix(t, j - 1).len() as int] == 44,
        forall|k: int| 0 <= k < col_text(t, j - 1).len() ==> bytes_of(col_prefix(t, j))[col_prefix(t, j - 1).len() + 1 + k]
            == #[trigger] bytes_of(col_text(t, j - 1))[k] && col_prefix(t, j)[col_prefix(t, j - 1).len() + 1 + k] == col_text(t, j - 1)[k],
{
    let p = col_prefix(t, j);
    let q = col_prefix(t, j - 1);
    let x = col_text(t, j - 1);
    assert(p == q + seq![','] + x);
}

/// The first `j` columns' text is ASCII without a semicolon, when the first `j - 1` columns' is.
#[verifier::spinoff_prover]
proof fn lemma_cols_step_ascii(t: Table, j: int)
    requires
        t.searchable(),
        2 <= j <= COLS,
        cols_ok(t, j - 1),
    ensures
        forall|k: int| 0 <= k < col_prefix(t, j).len() ==> '\0' <= #[trigger] col_prefix(t, j)[k] <= '\u{7f}'
            && bytes_of(col_prefix(t, j))[k] != 59,
{
    let p = col_prefix(t, j);
    let b = bytes_of(p);
    let q = col_prefix(t, j - 1);
    let bq = bytes_of(q);
    let x = col_text(t, j - 1);
    let bx = bytes_of(x);
    lemma_col_text(t, j - 1);
    lemma_prefix_bytes(t, j);
    assert forall|k: int| 0 <= k < p.len() implies '\0' <= #[trigger] p[k] <= '\u{7f}' && b[k] != 59 by {
        if k < q.len() {
            assert(b[k] == bq[k] && p[k] == q[k]);
        } else if k > q.len() {
            let m = k - q.len() - 1;
            assert(b[q.len() + 1 + m] == bx[m] && p[q.len() + 1 + m] == x[m]);
        }
    }
}

/// The commas of the first `j` columns' text: one after each column but the last.
#[verifier::spinoff_prover]
proof fn lemma_cols_step_seps(t: Table, j: int)
    requires
        t.searchable(),
        2 <= j <= COLS,
        cols_ok(t, j - 1),
    ensures
        seps(bytes_of(col_prefix(t, j)), 0, col_prefix(t, j).len() as int, 44)
            == Seq::new((j - 1) as nat, |m: int| col_prefix(t, m + 1).len() as int),
{
    let p = col_prefix(t, j);
    let b = bytes_of(p);
    let q = col_prefix(t, j - 1);
    let bq = bytes_of(q);
    let x = col_text(t, j - 1);
    let bx = bytes_of(x);
    lemma_col_text(t, j - 1);
    lemma_prefix_bytes(t, j);
    lemma_seps_split(b, 0, q.len() as int, p.len() as int, 44);
    lemma_seps_split(b, q.len() as int, q.len() as int + 1, p.len() as int, 44);
    assert forall|k: int| 0 <= k < q.len() implies b[k] == bq[k] by {
        assert(b[k] == bq[k]);
    }
    lemma_seps_agree(b, bq, 0, q.len() as int, 44);
    lemma_seps_at(b, q.len() as int, 44);
    assert forall|k: int| q.len() + 1 <= k < p.len() implies b[k] != 44 by {
        let m = k - q.len() - 1;
        assert(b[q.len() + 1 + m] == bx[m]);
    }
    lemma_seps_none(b, q.len() as int + 1, p.len() as int, 44);
    assert(Seq::new((j - 2) as nat, |m: int| col_prefix(t, m + 1).len() as int) + seq![q.len() as int]
        + Seq::<int>::empty() =~= Seq::new((j - 1) as nat, |m: int| col_prefix(t, m + 1).len() as int));
}

/// Each of the first `j` columns' digit and cards stand where the column starts.
#[verifier::spinoff_prover]
proof fn lemma_cols_step_cards(t: Table, j: int)
    requires
        t.searchable(),
        2 <= j <= COLS,
        cols_ok(t, j - 1),
    ensures
        forall|i: int| 0 <= i < j ==> col_start(t, i) + 1 + (#[trigger] t.col(i)).len() == col_prefix(t, i + 1).len()
            && col_prefix(t, i + 1).len() <= col_prefix(t, j).len()
            && bytes_of(col_prefix(t, j))[col_start(t, i)] == 48 + t.hidden@[i]
            && cards_at(bytes_of(col_prefix(t, j)), col_start(t, i) + 1, t.col(i)),
{
    let p = col_prefix(t, j);
    let b = bytes_of(p);
    let q = col_prefix(t, j - 1);
    let bq = bytes_of(q);
    let x = col_text(t, j - 1);
    let bx = bytes_of(x);
    lemma_col_text(t, j - 1);
    lemma_prefix_bytes(t, j);
    assert forall|i: int| 0 <= i < j implies col_start(t, i) + 1 + (#[trigger] t.col(i)).len() == col_prefix(t, i + 1).len()
        && col_prefix(t, i + 1).len() <= p.len()
        && b[col_start(t, i)] == 48 + t.hidden@[i]
        && cards_at(b, col_start(t, i) + 1, t.col(i)) by {
        if i < j - 1 {
            assert(col_start(t, i) + 1 + t.col(i).len() == col_prefix(t, i + 1).len());
            assert(cards_at(bq, col_start(t, i) + 1, t.col(i)));
            assert(b[col_start(t, i)] == bq[col_start(t, i)]);
            assert forall|k: int| 0 <= k < t.col(i).len() implies byte_card(b[col_start(t, i) + 1 + k]) == Some(#[trigger] t.col(i)[k]) by {
                assert(byte_card(bq[col_start(t, i) + 1 + k]) == Some(t.col(i)[k]));
                assert(b[col_start(t, i) + 1 + k] == bq[col_start(t, i) + 1 + k]);
            }
        } else {
            assert(col_start(t, i) == q.len() + 1);
            assert(b[q.len() as int + 1] == bx[0]);
            assert forall|k: int| 0 <= k < t.col(i).len() implies byte_card(b[col_start(t, i) + 1 + k]) == Some(#[trigger] t.col(i)[k]) by {
                assert(byte_card(bx[1 + k]) == Some(t.col(i)[k]));
                assert(b[q.len() + 1 + (1 + k)] == bx[1 + k]);
            }
        }
    }
}

proof fn lemma_cols_step(t: Table, j: int)
    requires
        t.searchable(),
        2 <= j <= COLS,
        cols_ok(t, j - 1),
    ensures
        cols_ok(t, j),
{
    lemma_cols_step_ascii(t, j);
    lemma_cols_step_seps(t, j);
    lemma_cols_step_cards(t, j);
}

proof fn lemma_cols(t: Table, j: int)
    requires
        t.searchable(),
        1 <= j <= COLS,
    ensures
        cols_ok(t, j),
    decreases j,
{
    if j == 1 {
        let p = col_prefix(t, 1);
        let b = bytes_of(p);
        lemma_col_text(t, 0);
        assert(p == col_text(t, 0));
        lemma_seps_none(b, 0, p.len() as int, 44);
        assert(Seq::new(0nat, |m: int| col_prefix(t, m + 1).len() as int) =~= Seq::<int>::empty());
        assert(cards_at(b, col_start(t, 0) + 1, t.col(0)));
    } else {
        lemma_cols(t, j - 1);
        lemma_cols_step(t, j);
    }
}

/// `piece` stands in `e` from position `o` on.
pub open spec fn placed(e: Seq<char>, o: int, piece: Seq<char>) -> bool {
    &&& 0 <= o
    &&& o + piece.len() <= e.len()
    &&& forall|k: int| 0 <= k < piece.len() ==> e[o + k] == #[trigger] piece[k]
}

proof fn lemma_placed_concat(x: Seq<char>, y: Seq<char>)
    ensures
        placed(x + y, 0, x),
        placed(x + y, x.len() as int, y),
{
    assert forall|k: int| 0 <= k < x.len() implies (x + y)[0 + k] == #[trigger] x[k] by {}
    assert forall|k: int| 0 <= k < y.len() implies (x + y)[x.len() + k] == #[trigger] y[k] by {}
}

proof fn lemma_placed_trans(e: Seq<char>, o: int, x: Seq<char>, o2: int, y: Seq<char>)
    requires
        placed(e, o, x),
        placed(x, o2, y),
    ensures
        placed(e, o + o2, y),
{
    assert forall|k: int| 0 <= k < y.len() implies e[o + o2 + k] == #[trigger] y[k] by {
        assert(x[o2 + k] == y[k]);
        assert(e[o + (o2 + k)] == x[o2 + k]);
    }
}

/// Cards written as letters at `o`: ASCII, neither separator, each letter its card.
proof fn lemma_placed_letters(e: Seq<char>, o: int, cards: Seq<Card>)
    requires
        placed(e, o, letters(cards)),
        forall|k: int| 0 <= k < cards.len() ==> (#[trigger] cards[k]).0 < 52,
    ensures
        o + cards.len() <= e.len(),
        cards_at(bytes_of(e), o, cards),
        forall|k: int| o <= k < o + cards.len() ==> '\0' <= #[trigger] e[k] <= '\u{7f}' && bytes_of(e)[k] != 44
            && bytes_of(e)[k] != 59,
{
    lemma_letters(cards);
    let l = letters(cards);
    assert forall|k: int| 0 <= k < cards.len() implies byte_card(bytes_of(e)[o + k]) == Some(#[trigger] cards[k]) by {
        assert(e[o + k] == l[k]);
        assert(byte_card(bytes_of(l)[0 + k]) == Some(cards[k]));
    }
    assert forall|k: int| o <= k < o + cards.len() implies '\0' <= #[trigger] e[k] <= '\u{7f}' && bytes_of(e)[k] != 44
        && bytes_of(e)[k] != 59 by {
        assert(e[o + (k - o)] == l[k - o]);
        assert(bytes_of(l)[k - o] != 44);
        assert('\0' <= l[k - o] <= '\u{7f}');
    }
}

/// The separators of a stretch that opens with a piece free of them and then one.
proof fn lemma_seps_peel(b: Seq<u8>, a: int, m: int, z: int, sep: u8)
    requires
        a <= m < z,
        b[m] == sep,
        forall|k: int| a <= k < m ==> b[k] != sep,
    ensures
        seps(b, a, z, sep) == seq![m] + seps(b, m + 1, z, sep),
{
    lemma_seps_split(b, a, m, z, sep);
    lemma_seps_split(b, m, m + 1, z, sep);
    lemma_seps_none(b, a, m, sep);
    lemma_seps_at(b, m, sep);
    assert(Seq::<int>::empty() + (seq![m] + seps(b, m + 1, z, sep)) =~= seq![m] + seps(b, m + 1, z, sep));
}

/// The foundations' part of the save text.
pub open spec fn fnd_text(t: Table) -> Seq<char> {
    letters(t.fnd(0)) + seq![','] + letters(t.fnd(1)) + seq![','] + letters(t.fnd(2)) + seq![','] + letters(t.fnd(3))
}

/// Where the stock's letters start in the save: after the columns and a semicolon.
pub open spec fn stock_start(t: Table) -> int {
    col_prefix(t, COLS as int).len() as int + 1
}

/// Where the waste's letters start.
pub open spec fn waste_start(t: Table) -> int {
    stock_start(t) + t.stock@.len() + 1
}

/// Where foundation `i`'s letters start.
pub open spec fn fnd_start(t: Table, i: int) -> int
    decreases i,
{
    if i <= 0 { waste_start(t) + t.waste@.len() + 1 } else { fnd_start(t, i - 1) + t.fnd(i - 1).len() + 1 }
}

#[verifier::spinoff_prover]
proof fn lemma_encode_parts(t: Table)
    ensures
        encode_spec(t) == col_prefix(t, COLS as int) + seq![';'] + letters(t.stock@) + seq![';'] + letters(t.waste@)
            + seq![';'] + fnd_text(t),
{
    reveal(encode_spec);
    reveal_with_fuel(col_prefix, 8);
    assert(encode_spec(t) =~= col_prefix(t, COLS as int) + seq![';'] + letters(t.stock@) + seq![';'] + letters(t.waste@)
        + seq![';'] + fnd_text(t));
}

/// Where each part of a table's save text stands.
#[verifier::spinoff_prover]
#[verifier::rlimit(40)]
proof fn lemma_layout_regions(t: Table)
    ensures
        placed(encode_spec(t), 0, col_prefix(t, COLS as int)),
        encode_spec(t)[stock_start(t) - 1] == ';',
        placed(encode_spec(t), stock_start(t), letters(t.stock@)),
        encode_spec(t)[waste_start(t) - 1] == ';',
        placed(encode_spec(t), waste_start(t), letters(t.waste@)),
        encode_spec(t)[fnd_start(t, 0) - 1] == ';',
        forall|i: int| 0 <= i < 4 ==> placed(encode_spec(t), fnd_start(t, i), letters(#[trigger] t.fnd(i))),
        forall|i: int| 1 <= i < 4 ==> encode_spec(t)[#[trigger] fnd_start(t, i) - 1] == ',',
        encode_spec(t).len() == fnd_start(t, 3) + t.fnd(3).len(),
{
    let e = encode_spec(t);
    let p = col_prefix(t, COLS as int);
    let semi = seq![';'];
    let comma = seq![','];
    let ls = letters(t.stock@);
    let lw = letters(t.waste@);
    let l0 = letters(t.fnd(0));
    let l1 = letters(t.fnd(1));
    let l2 = letters(t.fnd(2));
    let l3 = letters(t.fnd(3));
    let g1 = p + semi;
    let g2 = g1 + ls;
    let g3 = g2 + semi;
    let g4 = g3 + lw;
    let g5 = g4 + semi;
    let f = fnd_text(t);
    let h1 = l0 + comma;
    let h2 = h1 + l1;
    let h3 = h2 + comma;
    let h4 = h3 + l2;
    let h5 = h4 + comma;
    lemma_encode_parts(t);
    assert(e == g5 + f);
    assert(f == h5 + l3);
    lemma_placed_concat(g5, f);
    lemma_placed_concat(g4, semi);
    lemma_placed_concat(g3, lw);
    lemma_placed_concat(g2, semi);
    lemma_placed_concat(g1, ls);
    lemma_placed_concat(p, semi);
    lemma_placed_trans(e, 0, g5, 0, g4);
    lemma_placed_trans(e, 0, g5, g4.len() as int, semi);
    lemma_placed_trans(e, 0, g4, 0, g3);
    lemma_placed_trans(e, 0, g4, g3.len() as int, lw);
    lemma_placed_trans(e, 0, g3, 0, g2);
    lemma_placed_trans(e, 0, g3, g2.len() as int, semi);
    lemma_placed_trans(e, 0, g2, 0, g1);
    lemma_placed_trans(e, 0, g2, g1.len() as int, ls);
    lemma_placed_trans(e, 0, g1, 0, p);
    lemma_placed_trans(e, 0, g1, p.len() as int, semi);
    assert(e[p.len() as int + 0] == semi[0]);
    assert(e[g2.len() as int + 0] == semi[0]);
    assert(e[g4.len() as int + 0] == semi[0]);
    let o = g5.len() as int;
    assert(o == fnd_start(t, 0));
    lemma_placed_concat(h5, l3);
    lemma_placed_concat(h4, comma);
    lemma_placed_concat(h3, l2);
    lemma_placed_concat(h2, comma);
    lemma_placed_concat(h1, l1);
    lemma_placed_concat(l0, comma);
    lemma_placed_trans(e, o, f, 0, h5);
    lemma_placed_trans(e, o, f, h5.len() as int, l3);
    lemma_placed_trans(e, o, h5, 0, h4);
    lemma_placed_trans(e, o, h5, h4.len() as int, comma);
    lemma_placed_trans(e, o, h4, 0, h3);
    lemma_placed_trans(e, o, h4, h3.len() as int, l2);
    lemma_placed_trans(e, o, h3, 0, h2);
    lemma_placed_trans(e, o, h3, h2.len() as int, comma);
    lemma_placed_trans(e, o, h2, 0, h1);
    lemma_placed_trans(e, o, h2, h1.len() as int, l1);
    lemma_placed_trans(e, o, h1, 0, l0);
    lemma_placed_trans(e, o, h1, l0.len() as int, comma);
    assert(e[o + l0.len() + 0] == comma[0]);
    assert(e[o + h2.len() + 0] == comma[0]);
    assert(e[o + h4.len() + 0] == comma[0]);
    assert(fnd_start(t, 1) == o + h1.len());
    assert(fnd_start(t, 2) == o + h3.len());
    assert(fnd_start(t, 3) == o + h5.len());
    assert(placed(e, fnd_start(t, 0), l0));
}

/// The bytes of a table's save text.
pub open spec fn save_bytes(t: Table) -> Seq<u8> {
    bytes_of(encode_spec(t))
}

/// `e[a..z]` is ASCII and holds neither separator.
pub open spec fn clean(e: Seq<char>, a: int, z: int) -> bool {
    forall|k: int| a <= k < z ==> '\0' <= #[trigger] e[k] <= '\u{7f}' && bytes_of(e)[k] != 44 && bytes_of(e)[k] != 59
}

/// The stock, the waste and the foundations in the save bytes: their cards, and neither
/// separator nor a non-ASCII character among them.
#[verifier::spinoff_prover]
proof fn lemma_layout_piles(t: Table)
    requires
        t.searchable(),
    ensures
        cards_at(save_bytes(t), stock_start(t), t.stock@),
        cards_at(save_bytes(t), waste_start(t), t.waste@),
        forall|i: int| 0 <= i < 4 ==> cards_at(save_bytes(t), fnd_start(t, i), #[trigger] t.fnd(i)),
        clean(encode_spec(t), stock_start(t), waste_start(t) - 1),
        clean(encode_spec(t), waste_start(t), fnd_start(t, 0) - 1),
        forall|i: int| 0 <= i < 4 ==> clean(encode_spec(t), fnd_start(t, i), fnd_start(t, i) + (#[trigger] t.fnd(i)).len()),
{
    lemma_layout_regions(t);
    let e = encode_spec(t);
    lemma_placed_letters(e, stock_start(t), t.stock@);
    lemma_placed_letters(e, waste_start(t), t.waste@);
    assert forall|i: int| 0 <= i < 4 implies cards_at(save_bytes(t), fnd_start(t, i), #[trigger] t.fnd(i))
        && clean(e, fnd_start(t, i), fnd_start(t, i) + t.fnd(i).len()) by {
        assert(placed(e, fnd_start(t, i), letters(t.fnd(i))));
        lemma_placed_letters(e, fnd_start(t, i), t.fnd(i));
    }
}

/// The columns in the save bytes: ASCII without a semicolon, split by commas into each
/// column's digit and cards.
#[verifier::spinoff_prover]
#[verifier::rlimit(40)]
proof fn lemma_layout_cols(t: Table)
    requires
        t.searchable(),
    ensures
        forall|k: int| 0 <= k < col_prefix(t, COLS as int).len() ==> '\0' <= #[trigger] encode_spec(t)[k] <= '\u{7f}'
            && save_bytes(t)[k] != 59,
        split_spec(save_bytes(t), 0, col_prefix(t, COLS as int).len() as int, 44).len() == COLS,
        forall|i: int| 0 <= i < COLS ==> (#[trigger] split_spec(save_bytes(t), 0, col_prefix(t, COLS as int).len() as int, 44)[i])
            == (col_start(t, i), col_start(t, i) + 1 + t.col(i).len()),
        forall|i: int| 0 <= i < COLS ==> save_bytes(t)[col_start(t, i)] == 48 + t.hidden@[i]
            && cards_at(save_bytes(t), col_start(t, i) + 1, #[trigger] t.col(i)),
{
    lemma_layout_regions(t);
    lemma_cols(t, COLS as int);
    let e = encode_spec(t);
    let b = save_bytes(t);
    let p = col_prefix(t, COLS as int);
    let bp = bytes_of(p);
    let n7 = p.len() as int;
    assert forall|k: int| 0 <= k < n7 implies b[k] == bp[k] && e[k] == p[k] by {
        assert(e[0 + k] == p[k]);
    }
    assert forall|k: int| 0 <= k < n7 implies '\0' <= #[trigger] e[k] <= '\u{7f}' && b[k] != 59 by {
        assert(e[k] == p[k]);
        assert(bp[k] != 59);
    }
    lemma_seps_agree(b, bp, 0, n7, 44);
    let ps = seps(b, 0, n7, 44);
    assert(ps == Seq::new(6nat, |m: int| col_prefix(t, m + 1).len() as int));
    assert forall|i: int| 0 <= i < COLS implies (#[trigger] split_spec(b, 0, n7, 44)[i])
        == (col_start(t, i), col_start(t, i) + 1 + t.col(i).len()) by {
        assert(col_start(t, i) + 1 + t.col(i).len() == col_prefix(t, i + 1).len());
        if i > 0 {
            assert(ps[i - 1] == col_prefix(t, i).len());
        }
    }
    assert forall|i: int| 0 <= i < COLS implies b[col_start(t, i)] == 48 + t.hidden@[i]
        && cards_at(b, col_start(t, i) + 1, #[trigger] t.col(i)) by {
        assert(col_start(t, i) + 1 + t.col(i).len() == col_prefix(t, i + 1).len() && col_prefix(t, i + 1).len() <= n7);
        assert(bp[col_start(t, i)] == 48 + t.hidden@[i]);
        assert(cards_at(bp, col_start(t, i) + 1, t.col(i)));
        assert forall|k: int| 0 <= k < t.col(i).len() implies byte_card(b[col_start(t, i) + 1 + k]) == Some(#[trigger] t.col(i)[k]) by {
            assert(byte_card(bp[col_start(t, i) + 1 + k]) == Some(t.col(i)[k]));
        }
    }
}

/// The whole save text is ASCII, and its semicolons split it into the columns, the stock, the
/// waste and the foundations.
#[verifier::spinoff_prover]
#[verifier::rlimit(40)]
proof fn lemma_layout_top(t: Table)
    requires
        t.searchable(),
    ensures
        forall|k: int| 0 <= k < encode_spec(t).len() ==> '\0' <= #[trigger] encode_spec(t)[k] <= '\u{7f}',
        split_spec(save_bytes(t), 0, encode_spec(t).len() as int, 59).len() == 4,
        split_spec(save_bytes(t), 0, encode_spec(t).len() as int, 59)[0] == (0int, col_prefix(t, COLS as int).len() as int),
        split_spec(save_bytes(t), 0, encode_spec(t).len() as int, 59)[1] == (stock_start(t), waste_start(t) - 1),
        split_spec(save_bytes(t), 0, encode_spec(t).len() as int, 59)[2] == (waste_start(t), fnd_start(t, 0) - 1),
        split_spec(save_bytes(t), 0, encode_spec(t).len() as int, 59)[3] == (fnd_start(t, 0), encode_spec(t).len() as int),
        stock_start(t) + t.stock@.len() == waste_start(t) - 1,
        waste_start(t) + t.waste@.len() == fnd_start(t, 0) - 1,
{
    lemma_layout_regions(t);
    lemma_layout_piles(t);
    lemma_layout_cols(t);
    let e = encode_spec(t);
    let b = save_bytes(t);
    let n = e.len() as int;
    let n7 = col_prefix(t, COLS as int).len() as int;
    let ss = stock_start(t);
    let ws = waste_start(t);
    let f0 = fnd_start(t, 0);
    let f1 = fnd_start(t, 1);
    let f2 = fnd_start(t, 2);
    let f3 = fnd_start(t, 3);
    assert(f1 == f0 + t.fnd(0).len() + 1 && f2 == f1 + t.fnd(1).len() + 1 && f3 == f2 + t.fnd(2).len() + 1);
    assert(clean(e, f0, f0 + t.fnd(0).len()));
    assert(clean(e, f1, f1 + t.fnd(1).len()));
    assert(clean(e, f2, f2 + t.fnd(2).len()));
    assert(clean(e, f3, f3 + t.fnd(3).len()));
    assert(e[f1 - 1] == ',' && e[f2 - 1] == ',' && e[f3 - 1] == ',');
    assert forall|k: int| f0 <= k < n implies '\0' <= #[trigger] e[k] <= '\u{7f}' && b[k] != 59 by {
        if k < f1 - 1 {
        } else if k == f1 - 1 {
        } else if k < f2 - 1 {
        } else if k == f2 - 1 {
        } else if k < f3 - 1 {
        } else if k == f3 - 1 {
        } else {
        }
    }
    assert forall|k: int| 0 <= k < n implies '\0' <= #[trigger] e[k] <= '\u{7f}' by {
        if k < n7 {
        } else if k == n7 {
        } else if k < ws - 1 {
        } else if k == ws - 1 {
        } else if k < f0 - 1 {
        } else if k == f0 - 1 {
        } else {
            assert('\0' <= e[k] <= '\u{7f}' && b[k] != 59);
        }
    }
    assert(b[n7] == 59 && b[ws - 1] == 59 && b[f0 - 1] == 59);
    lemma_seps_peel(b, 0, n7, n, 59);
    lemma_seps_peel(b, ss, ws - 1, n, 59);
    lemma_seps_peel(b, ws, f0 - 1, n, 59);
    lemma_seps_none(b, f0, n, 59);
    let ps = seps(b, 0, n, 59);
    assert(ps =~= seq![n7, ws - 1, f0 - 1]);
}

/// The commas of the foundations' part split it into the four foundations.
#[verifier::spinoff_prover]
#[verifier::rlimit(40)]
proof fn lemma_layout_fnd(t: Table)
    requires
        t.searchable(),
    ensures
        split_spec(save_bytes(t), fnd_start(t, 0), encode_spec(t).len() as int, 44).len() == 4,
        forall|i: int| 0 <= i < 4 ==> (#[trigger] split_spec(save_bytes(t), fnd_start(t, 0), encode_spec(t).len() as int, 44)[i])
            == (fnd_start(t, i), fnd_start(t, i) + t.fnd(i).len()),
{
    lemma_layout_regions(t);
    lemma_layout_piles(t);
    let e = encode_spec(t);
    let b = save_bytes(t);
    let n = e.len() as int;
    let f0 = fnd_start(t, 0);
    let f1 = fnd_start(t, 1);
    let f2 = fnd_start(t, 2);
    let f3 = fnd_start(t, 3);
    assert(f1 == f0 + t.fnd(0).len() + 1 && f2 == f1 + t.fnd(1).len() + 1 && f3 == f2 + t.fnd(2).len() + 1);
    assert(clean(e, f0, f0 + t.fnd(0).len()));
    assert(clean(e, f1, f1 + t.fnd(1).len()));
    assert(clean(e, f2, f2 + t.fnd(2).len()));
    assert(clean(e, f3, f3 + t.fnd(3).len()));
    assert(e[f1 - 1] == ',' && e[f2 - 1] == ',' && e[f3 - 1] == ',');
    assert(b[f1 - 1] == 44 && b[f2 - 1] == 44 && b[f3 - 1] == 44);
    assert forall|k: int| f0 <= k < n && k != f1 - 1 && k != f2 - 1 && k != f3 - 1 implies b[k] != 44 by {
        assert(b[k] == e[k] as u8);
    }
    lemma_seps_peel(b, f0, f1 - 1, n, 44);
    lemma_seps_peel(b, f1, f2 - 1, n, 44);
    lemma_seps_peel(b, f2, f3 - 1, n, 44);
    lemma_seps_none(b, f3, n, 44);
    let ps = seps(b, f0, n, 44);
    assert(ps =~= seq![f1 - 1, f2 - 1, f3 - 1]);
    assert forall|i: int| 0 <= i < 4 implies (#[trigger] split_spec(b, f0, n, 44)[i]) == (fnd_start(t, i), fnd_start(t, i) + t.fnd(i).len()) by {
        if i == 0 {
        } else if i == 1 {
        } else if i == 2 {
        } else {
        }
    }
}

/// `t` is a valid table whose save text is `text`.
pub open spec fn saves_as(t: Table, text: Seq<char>) -> bool {
    t.valid_spec() && encode_spec(t) == text
}

/// Piles that hold the same cards flatten alike.
proof fn lemma_flat_same(a: Seq<Vec<Card>>, b: Seq<Vec<Card>>)
    requires
        a.len() == b.len(),
        forall|i: int| 0 <= i < a.len() ==> (#[trigger] a[i])@ == b[i]@,
    ensures
        flat(a) == flat(b),
    decreases a.len(),
{
    if a.len() > 0 {
        lemma_flat_same(a.drop_last(), b.drop_last());
        assert(a.last()@ == b.last()@);
    }
}

/// Tables that hold the same cards in the same places are valid, or won, alike.
proof fn lemma_same_valid(u: Table, t: Table)
    requires
        same_table(u, t),
    ensures
        u.valid_spec() == t.valid_spec(),
        u.won_spec() == t.won_spec(),
{
    assert(u.tableau@.len() == COLS && t.tableau@.len() == COLS);
    assert(u.foundations@.len() == 4 && t.foundations@.len() == 4);
    assert forall|i: int| 0 <= i < u.tableau@.len() implies (#[trigger] u.tableau@[i])@ == t.tableau@[i]@ by {
        assert(u.col(i) == t.col(i));
    }
    assert forall|i: int| 0 <= i < u.foundations@.len() implies (#[trigger] u.foundations@[i])@ == t.foundations@[i]@ by {
        assert(u.fnd(i) == t.fnd(i));
    }
    lemma_flat_same(u.tableau@, t.tableau@);
    lemma_flat_same(u.foundations@, t.foundations@);
    assert(u.all_cards() == t.all_cards());
    assert forall|i: int, s: int| 0 <= i < 4 implies #[trigger] suit_started_before(u.foundations@, i, s)
        == suit_started_before(t.foundations@, i, s) by {
        if suit_started_before(u.foundations@, i, s) {
            let j = choose|j: int| 0 <= j < i && u.foundations@[j]@.len() > 0 && #[trigger] u.foundations@[j]@[0].suit_spec() == s;
            assert(t.foundations@[j]@[0].suit_spec() == s);
        }
        if suit_started_before(t.foundations@, i, s) {
            let j = choose|j: int| 0 <= j < i && t.foundations@[j]@.len() > 0 && #[trigger] t.foundations@[j]@[0].suit_spec() == s;
            assert(u.foundations@[j]@[0].suit_spec() == s);
        }
    }
    if t.valid_spec() {
        assert forall|i: int| 0 <= i < COLS implies #[trigger] column_ok(u.col(i), u.hidden@[i] as int) by {
            assert(column_ok(t.col(i), t.hidden@[i] as int));
        }
        assert forall|i: int| 0 <= i < 4 implies #[trigger] foundation_ok(u.fnd(i)) by {
            assert(foundation_ok(t.fnd(i)));
        }
        assert forall|i: int| 0 <= i < 4 && u.fnd(i).len() > 0 implies !#[trigger] suit_started_before(u.foundations@, i,
            u.fnd(i)[0].suit_spec()) by {
            assert(!suit_started_before(t.foundations@, i, t.fnd(i)[0].suit_spec()));
        }
    }
    if u.valid_spec() {
        assert forall|i: int| 0 <= i < COLS implies #[trigger] column_ok(t.col(i), t.hidden@[i] as int) by {
            assert(column_ok(u.col(i), u.hidden@[i] as int));
        }
        assert forall|i: int| 0 <= i < 4 implies #[trigger] foundation_ok(t.fnd(i)) by {
            assert(foundation_ok(u.fnd(i)));
        }
        assert forall|i: int| 0 <= i < 4 && t.fnd(i).len() > 0 implies !#[trigger] suit_started_before(t.foundations@, i,
            t.fnd(i)[0].suit_spec()) by {
            assert(!suit_started_before(u.foundations@, i, u.fnd(i)[0].suit_spec()));
        }
    }
    assert(u.fnd(0).len() == t.fnd(0).len() && u.fnd(1).len() == t.fnd(1).len() && u.fnd(2).len() == t.fnd(2).len()
        && u.fnd(3).len() == t.fnd(3).len());
}

/// Cards of one length written at the same place are the same cards.
proof fn lemma_cards_at_same(b: Seq<u8>, a: int, c1: Seq<Card>, c2: Seq<Card>)
    requires
        cards_at(b, a, c1),
        cards_at(b, a, c2),
        c1.len() == c2.len(),
    ensures
        c1 == c2,
{
    assert forall|k: int| 0 <= k < c1.len() implies c1[k] == c2[k] by {
        assert(byte_card(b[a + k]) == Some(c1[k]));
        assert(byte_card(b[a + k]) == Some(c2[k]));
    }
    assert(c1 =~= c2);
}

/// A valid table's save text is its own: the table saves as it, and any table that saves as
/// the same text holds the same cards in the same places. With [`Table::decode`]'s contract,
/// decoding what [`Table::encode`] wrote gives the table back.
pub proof fn law_a_save_reads_back(t: Table)
    requires
        t.valid_spec(),
    ensures
        saves_as(t, encode_spec(t)),
        forall|u: Table| #[trigger] saves_as(u, encode_spec(t)) ==> same_table(u, t),
{
    lemma_valid_searchable(t);
    assert forall|u: Table| #[trigger] saves_as(u, encode_spec(t)) implies same_table(u, t) by {
        lemma_valid_searchable(u);
        lemma_encode_injective(u, t);
    }
}

/// Two tables the search can take in with the same save text hold the same cards in the
/// same places.
#[verifier::spinoff_prover]
proof fn lemma_encode_injective(t1: Table, t2: Table)
    requires
        t1.searchable(),
        t2.searchable(),
        encode_spec(t1) == encode_spec(t2),
    ensures
        same_table(t1, t2),
{
    let b = save_bytes(t1);
    let n = encode_spec(t1).len() as int;
    lemma_layout_top(t1);
    lemma_layout_top(t2);
    lemma_layout_cols(t1);
    lemma_layout_cols(t2);
    lemma_layout_piles(t1);
    lemma_layout_piles(t2);
    lemma_layout_fnd(t1);
    lemma_layout_fnd(t2);
    let n7 = col_prefix(t1, COLS as int).len() as int;
    assert(split_spec(b, 0, n, 59)[0] == (0int, n7));
    assert(n7 == col_prefix(t2, COLS as int).len());
    assert forall|i: int| 0 <= i < COLS implies #[trigger] t1.col(i) == t2.col(i) && t1.hidden@[i] == t2.hidden@[i] by {
        assert(split_spec(b, 0, n7, 44)[i] == (col_start(t1, i), col_start(t1, i) + 1 + t1.col(i).len()));
        assert(split_spec(b, 0, n7, 44)[i] == (col_start(t2, i), col_start(t2, i) + 1 + t2.col(i).len()));
        assert(cards_at(b, col_start(t1, i) + 1, t1.col(i)));
        assert(cards_at(b, col_start(t2, i) + 1, t2.col(i)));
        lemma_cards_at_same(b, col_start(t1, i) + 1, t1.col(i), t2.col(i));
    }
    assert(split_spec(b, 0, n, 59)[1] == (stock_start(t1), waste_start(t1) - 1));
    assert(split_spec(b, 0, n, 59)[2] == (waste_start(t1), fnd_start(t1, 0) - 1));
    lemma_cards_at_same(b, stock_start(t1), t1.stock@, t2.stock@);
    lemma_cards_at_same(b, waste_start(t1), t1.waste@, t2.waste@);
    let f0 = fnd_start(t1, 0);
    assert forall|i: int| 0 <= i < 4 implies #[trigger] t1.fnd(i) == t2.fnd(i) by {
        assert(split_spec(b, f0, n, 44)[i] == (fnd_start(t1, i), fnd_start(t1, i) + t1.fnd(i).len()));
        assert(split_spec(b, f0, n, 44)[i] == (fnd_start(t2, i), fnd_start(t2, i) + t2.fnd(i).len()));
        assert(cards_at(b, fnd_start(t1, i), t1.fnd(i)));
        assert(cards_at(b, fnd_start(t2, i), t2.fnd(i)));
        lemma_cards_at_same(b, fnd_start(t1, i), t1.fnd(i), t2.fnd(i));
    }
    assert(t1.hidden@ =~= t2.hidden@);
}

/// A game as saved: each position in [`Table::encode`]'s text form. (The play clock is saved
/// by the host beside it.)
#[derive(Clone, Debug)]
pub struct SaveState {
    pub mode: DrawMode,
    pub table: String,
    pub score: i64,
    pub moves: u32,
    pub recycles: u32,
    pub won: bool,
    pub proven: bool,
    /// Undo's positions: table, score, moves, recycles.
    pub history: Vec<(String, i64, u32, u32)>,
}

impl Model {
    /// Every position of the game holds real cards in columns the search can take in.
    pub open spec fn savable(&self) -> bool {
        &&& self.table.searchable()
        &&& forall|k: int| 0 <= k < self.history@.len() ==> (#[trigger] self.history@[k]).table.searchable()
    }

    /// No move can make progress: nothing goes home, no stock card can be played, and no
    /// column move uncovers anything. (Turning the stock over and over changes nothing.)
    pub fn stuck(&self) -> (b: bool)
        requires
            self.table.searchable(),
        ensures
            b ==> !self.won,
            b == (!self.won && cand_rated(table_state(self.table), self.mode, false).len() == 0),
    {
        if self.won {
            return false;
        }
        let mut rng = Rng::new(0);
        let c = candidates(&SState::from_table(&self.table), self.mode, false, false, &mut rng);
        proof {
            lemma_sorted_rated_len(cand_rated(table_state(self.table), self.mode, false));
        }
        c.len() == 0
    }

    /// The move the solver's ordering likes best here, for a hint when no winning line is known.
    pub fn suggestion(&self) -> (r: Option<Step>)
        requires
            self.table.searchable(),
        ensures
            r matches Some(st) ==> forall|s: SState| #[trigger] mirrors(s, self.table) ==> step_ok(s, st),
            r == (if cand_rated(table_state(self.table), self.mode, false).len() > 0 {
                Some(sorted_rated(cand_rated(table_state(self.table), self.mode, false))[0].1)
            } else {
                None
            }),
    {
        let mut rng = Rng::new(0);
        let from = SState::from_table(&self.table);
        let c = candidates(&from, self.mode, false, false, &mut rng);
        proof {
            lemma_sorted_rated_len(cand_rated(table_state(self.table), self.mode, false));
        }
        if c.len() > 0 {
            proof {
                assert(step_ok(from, c@[0]));
                assert forall|s: SState| #[trigger] mirrors(s, self.table) implies step_ok(s, c@[0]) by {
                    lemma_mirrors_step_ok(from, s, self.table, c@[0]);
                }
            }
            Some(c[0])
        } else {
            None
        }
    }

    pub fn save_state(&self) -> (s: SaveState)
        requires
            self.savable(),
        ensures
            s.mode == self.mode,
            s.table@ == encode_spec(self.table),
            s.score == self.score,
            s.moves == self.moves,
            s.recycles == self.recycles,
            s.won == self.won,
            s.proven == self.proven,
            s.history@.len() == self.history@.len(),
            forall|k: int| 0 <= k < s.history@.len() ==> (#[trigger] s.history@[k]).0@ == encode_spec(self.history@[k].table)
                && s.history@[k].1 == self.history@[k].score && s.history@[k].2 == self.history@[k].moves
                && s.history@[k].3 == self.history@[k].recycles,
    {
        let mut history: Vec<(String, i64, u32, u32)> = Vec::new();
        let mut k: usize = 0;
        while k < self.history.len()
            invariant
                k <= self.history@.len(),
                self.savable(),
                history@.len() == k,
                forall|j: int| 0 <= j < k ==> (#[trigger] history@[j]).0@ == encode_spec(self.history@[j].table)
                    && history@[j].1 == self.history@[j].score && history@[j].2 == self.history@[j].moves
                    && history@[j].3 == self.history@[j].recycles,
            decreases self.history@.len() - k,
        {
            let snap = &self.history[k];
            assert(self.history@[k as int].table.searchable());
            history.push((snap.table.encode(), snap.score, snap.moves, snap.recycles));
            k += 1;
        }
        SaveState {
            mode: self.mode,
            table: self.table.encode(),
            score: self.score,
            moves: self.moves,
            recycles: self.recycles,
            won: self.won,
            proven: self.proven,
            history,
        }
    }

    /// `s` is what [`Model::save_state`] writes for this game, and the game is one a save can
    /// hold: its positions valid, its win flag its table's and its score not negative.
    pub open spec fn saved_as(&self, s: SaveState) -> bool {
        &&& self.table.valid_spec()
        &&& forall|k: int| 0 <= k < self.history@.len() ==> (#[trigger] self.history@[k]).table.valid_spec()
        &&& self.won == self.table.won_spec()
        &&& self.score >= 0
        &&& s.mode == self.mode
        &&& s.table@ == encode_spec(self.table)
        &&& s.score == self.score
        &&& s.moves == self.moves
        &&& s.recycles == self.recycles
        &&& s.won == self.won
        &&& s.proven == self.proven
        &&& s.history@.len() == self.history@.len()
        &&& forall|k: int| 0 <= k < s.history@.len() ==> (#[trigger] s.history@[k]).0@ == encode_spec(self.history@[k].table)
            && s.history@[k].1 == self.history@[k].score && s.history@[k].2 == self.history@[k].moves
            && s.history@[k].3 == self.history@[k].recycles
    }

    /// The same game: the same positions, with the same scores and flags.
    pub open spec fn same_game(&self, m: Model) -> bool {
        &&& same_table(self.table, m.table)
        &&& self.mode == m.mode
        &&& self.score == m.score
        &&& self.moves == m.moves
        &&& self.recycles == m.recycles
        &&& self.won == m.won
        &&& self.proven == m.proven
        &&& self.history@.len() == m.history@.len()
        &&& forall|k: int| 0 <= k < self.history@.len() ==> same_table((#[trigger] self.history@[k]).table, m.history@[k].table)
            && self.history@[k].score == m.history@[k].score && self.history@[k].moves == m.history@[k].moves
            && self.history@[k].recycles == m.history@[k].recycles
    }

    /// The game a save describes, when every position in it is a valid one, its win flag
    /// matches its table and its score is not negative. A game comes back from its own save.
    #[verifier::spinoff_prover]
    pub fn from_save(s: SaveState) -> (r: Option<Model>)
        ensures
            r matches Some(m) ==> {
                &&& m.table.valid_spec()
                &&& forall|k: int| 0 <= k < m.history@.len() ==> (#[trigger] m.history@[k]).table.valid_spec()
                &&& m.mode == s.mode
                &&& m.score == s.score
                &&& m.score >= 0
                &&& m.moves == s.moves
                &&& m.recycles == s.recycles
                &&& m.won == s.won
                &&& m.won == m.table.won_spec()
                &&& m.proven == s.proven
                &&& m.history@.len() == s.history@.len()
            },
            forall|g: Model| #[trigger] g.saved_as(s) ==> (r matches Some(m) && m.same_game(g)),
    {
        let ghost g0 = choose|g: Model| g.saved_as(s);
        let ghost ok = g0.saved_as(s);
        proof {
            assert forall|g: Model| #[trigger] g.saved_as(s) implies ok by {}
            if ok {
                assert(saves_as(g0.table, s.table@));
            }
        }
        let table = match Table::decode(s.table.as_str()) {
            Some(t) => t,
            None => return None,
        };
        let mut history: Vec<Snap> = Vec::new();
        let mut k: usize = 0;
        while k < s.history.len()
            invariant
                k <= s.history@.len(),
                history@.len() == k,
                forall|j: int| 0 <= j < k ==> (#[trigger] history@[j]).table.valid_spec(),
                forall|g: Model| #[trigger] g.saved_as(s) ==> ok,
                ok ==> g0.saved_as(s),
                forall|j: int| 0 <= j < k ==> (#[trigger] history@[j]).score == s.history@[j].1
                    && history@[j].moves == s.history@[j].2 && history@[j].recycles == s.history@[j].3,
                forall|j: int, x: Table| 0 <= j < k && #[trigger] saves_as(x, s.history@[j].0@) ==> same_table((#[trigger] history@[j]).table, x),
            decreases s.history@.len() - k,
        {
            let entry = &s.history[k];
            proof {
                if ok {
                    assert(saves_as(g0.history@[k as int].table, s.history@[k as int].0@));
                }
            }
            let t = match Table::decode(entry.0.as_str()) {
                Some(t) => t,
                None => return None,
            };
            history.push(Snap { table: t, score: entry.1, moves: entry.2, recycles: entry.3 });
            k += 1;
        }
        let won = table.won();
        proof {
            if ok {
                lemma_same_valid(table, g0.table);
            }
        }
        if won != s.won || s.score < 0 {
            return None;
        }
        let m = Model {
            table,
            mode: s.mode,
            score: s.score,
            moves: s.moves,
            recycles: s.recycles,
            won,
            proven: s.proven,
            history,
        };
        proof {
            assert forall|g: Model| #[trigger] g.saved_as(s) implies m.same_game(g) by {
                assert(saves_as(g.table, s.table@));
                assert forall|j: int| 0 <= j < m.history@.len() implies same_table((#[trigger] m.history@[j]).table, g.history@[j].table)
                    && m.history@[j].score == g.history@[j].score && m.history@[j].moves == g.history@[j].moves
                    && m.history@[j].recycles == g.history@[j].recycles by {
                    assert(saves_as(g.history@[j].table, s.history@[j].0@));
                }
            }
        }
        Some(m)
    }
}

} // verus!
