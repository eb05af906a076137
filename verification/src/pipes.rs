//! Pipes: a connected tree of pipe tiles, scrambled by rotations. Any leak-free connected
//! arrangement wins; puzzles are guaranteed solvable, but no unique solution is required.
use vstd::prelude::*;
use std::collections::VecDeque;
use crate::tally::{count_false, lemma_count_false_update, lemma_count_false_bounds, lemma_count_false_all};
use crate::xorshift::{xorshift, xorshift_next};

verus! {

/// The board sizes on offer.
pub const SIZES: [usize; 3] = [5, 7, 9];

/// The port bit of direction `dir`, clockwise from north: north, east, south, west.
pub open spec fn port(dir: int) -> u8 {
    if dir == 0 {
        1
    } else if dir == 1 {
        2
    } else if dir == 2 {
        4
    } else {
        8
    }
}

fn port_bit(dir: usize) -> (p: u8)
    requires
        dir < 4,
    ensures
        p == port(dir as int),
        p == 1u8 << (dir as u8),
{
    proof {
        assert(1u8 << 0u8 == 1u8) by (bit_vector);
        assert(1u8 << 1u8 == 2u8) by (bit_vector);
        assert(1u8 << 2u8 == 4u8) by (bit_vector);
        assert(1u8 << 3u8 == 8u8) by (bit_vector);
    }
    if dir == 0 {
        1
    } else if dir == 1 {
        2
    } else if dir == 2 {
        4
    } else {
        8
    }
}

/// A tile has its port in direction `dir` open.
pub open spec fn has_port(mask: u8, dir: int) -> bool {
    mask & port(dir) != 0
}

/// A quarter turn clockwise of a tile's port mask.
pub open spec fn rotate_spec(mask: u8) -> u8 {
    ((mask << 1u8) | (mask >> 3u8)) & 15u8
}

pub fn rotate(mask: u8) -> (r: u8)
    ensures
        r == rotate_spec(mask),
{
    ((mask << 1) | (mask >> 3)) & 15
}

/// Four quarter turns bring a tile back, and a quarter turn moves each port one direction on:
/// the ports a tile has are kept, only turned.
pub proof fn lemma_rotate_turns_ports(m: u8)
    requires
        m < 16,
    ensures
        rotate_spec(m) < 16,
        rotate_spec(rotate_spec(rotate_spec(rotate_spec(m)))) == m,
        forall|d: int| 0 <= d < 4 ==> #[trigger] has_port(rotate_spec(m), (d + 1) % 4) == has_port(m, d),
        (rotate_spec(m) == m) <==> (m == 0 || m == 15),
{
    assert(rotate_spec(m) < 16) by (bit_vector)
        requires m < 16;
    assert(rotate_spec(rotate_spec(rotate_spec(rotate_spec(m)))) == m) by (bit_vector)
        requires m < 16;
    assert((rotate_spec(m) & 2u8 != 0) == (m & 1u8 != 0)) by (bit_vector)
        requires m < 16;
    assert((rotate_spec(m) & 4u8 != 0) == (m & 2u8 != 0)) by (bit_vector)
        requires m < 16;
    assert((rotate_spec(m) & 8u8 != 0) == (m & 4u8 != 0)) by (bit_vector)
        requires m < 16;
    assert((rotate_spec(m) & 1u8 != 0) == (m & 8u8 != 0)) by (bit_vector)
        requires m < 16;
    assert((rotate_spec(m) == m) <==> (m == 0 || m == 15)) by (bit_vector)
        requires m < 16;
}

/// The cell one step from `i` in direction `dir` on a `size` x `size` board, if on the board.
pub open spec fn neighbor_spec(size: int, i: int, dir: int) -> Option<int> {
    let (x, y) = (i % size, i / size);
    if dir == 0 && y > 0 {
        Some(i - size)
    } else if dir == 1 && x + 1 < size {
        Some(i + 1)
    } else if dir == 2 && y + 1 < size {
        Some(i + size)
    } else if dir == 3 && x > 0 {
        Some(i - 1)
    } else {
        None
    }
}

pub fn neighbor(size: usize, i: usize, dir: usize) -> (r: Option<usize>)
    requires
        size > 0,
        dir == 1 && i % size + 1 < size ==> i < usize::MAX,
        dir == 2 ==> i / size < usize::MAX,
        dir == 2 && i / size + 1 < size ==> i + size <= usize::MAX,
    ensures
        r matches Some(j) ==> neighbor_spec(size as int, i as int, dir as int) == Some(j as int),
        r is None ==> neighbor_spec(size as int, i as int, dir as int) is None,
{
    let x = i % size;
    let y = i / size;
    if dir == 0 && y > 0 {
        proof {
            assert(i >= size) by (nonlinear_arith)
                requires y == i / size, y > 0, size > 0;
        }
        Some(i - size)
    } else if dir == 1 && x + 1 < size {
        Some(i + 1)
    } else if dir == 2 && y + 1 < size {
        Some(i + size)
    } else if dir == 3 && x > 0 {
        proof {
            assert(i >= 1) by (nonlinear_arith)
                requires x == i % size, x > 0, size > 0;
        }
        Some(i - 1)
    } else {
        None
    }
}

/// On an `n`-cell board, a neighbor is a cell of the board, and the way back is the opposite
/// direction.
pub proof fn lemma_neighbor_symmetric(size: int, i: int, dir: int)
    requires
        size > 0,
        0 <= i < size * size,
        0 <= dir < 4,
    ensures
        neighbor_spec(size, i, dir) matches Some(j) ==> 0 <= j < size * size
            && neighbor_spec(size, j, (dir + 2) % 4) == Some(i),
{
    let (x, y) = (i % size, i / size);
    assert(0 <= x < size && 0 <= y < size && i == y * size + x) by (nonlinear_arith)
        requires x == i % size, y == i / size, size > 0, 0 <= i < size * size;
    if let Some(j) = neighbor_spec(size, i, dir) {
        if dir == 0 {
            assert(j == (y - 1) * size + x) by (nonlinear_arith)
                requires j == i - size, i == y * size + x;
            assert(j % size == x && j / size == y - 1) by (nonlinear_arith)
                requires j == (y - 1) * size + x, 0 <= x < size, y >= 1, size > 0;
            assert(0 <= j < size * size) by (nonlinear_arith)
                requires j == (y - 1) * size + x, 0 <= x < size, 1 <= y, y < size, size > 0;
        } else if dir == 1 {
            assert(j % size == x + 1 && j / size == y) by (nonlinear_arith)
                requires j == i + 1, i == y * size + x, 0 <= x, x + 1 < size, size > 0;
            assert(0 <= j < size * size) by (nonlinear_arith)
                requires j == y * size + x + 1, 0 <= x, x + 1 < size, 0 <= y, y < size, size > 0;
        } else if dir == 2 {
            assert(j == (y + 1) * size + x) by (nonlinear_arith)
                requires j == i + size, i == y * size + x;
            assert(j % size == x && j / size == y + 1) by (nonlinear_arith)
                requires j == (y + 1) * size + x, 0 <= x < size, y >= 0, size > 0;
            assert(0 <= j < size * size) by (nonlinear_arith)
                requires j == (y + 1) * size + x, 0 <= x, x < size, 0 <= y, y + 1 < size, size > 0;
        } else {
            assert(j % size == x - 1 && j / size == y) by (nonlinear_arith)
                requires j == i - 1, i == y * size + x, x >= 1, x < size, y >= 0, size > 0;
            assert(0 <= j < size * size) by (nonlinear_arith)
                requires j == y * size + x - 1, 1 <= x, x < size, 0 <= y, y < size, size > 0;
        }
    }
}

/// The direction opposite `dir`.
pub open spec fn opposite(dir: int) -> int {
    (dir + 2) % 4
}

/// Tile `i`'s port in direction `dir` meets an open port of the neighbor there.
pub open spec fn linked(size: int, tiles: Seq<u8>, i: int, dir: int) -> bool {
    &&& has_port(tiles[i], dir)
    &&& neighbor_spec(size, i, dir) is Some
    &&& has_port(tiles[neighbor_spec(size, i, dir).unwrap()], opposite(dir))
}

/// Tile `i`'s port in direction `dir` is open but leads off the board or into a closed side.
pub open spec fn leaks_at(size: int, tiles: Seq<u8>, i: int, dir: int) -> bool {
    has_port(tiles[i], dir) && !linked(size, tiles, i, dir)
}

/// The leaking ports of tile `i`.
pub open spec fn cell_leaks(size: int, tiles: Seq<u8>, i: int) -> int {
    (if leaks_at(size, tiles, i, 0) { 1int } else { 0int })
        + (if leaks_at(size, tiles, i, 1) { 1int } else { 0int })
        + (if leaks_at(size, tiles, i, 2) { 1int } else { 0int })
        + (if leaks_at(size, tiles, i, 3) { 1int } else { 0int })
}

/// The leaking ports of the first `k` tiles.
pub open spec fn leak_total(size: int, tiles: Seq<u8>, k: int) -> int
    decreases k,
{
    if k <= 0 { 0 } else { leak_total(size, tiles, k - 1) + cell_leaks(size, tiles, k - 1) }
}

/// No open port of any tile leaks.
pub open spec fn leak_free(size: int, tiles: Seq<u8>) -> bool {
    forall|i: int, d: int| 0 <= i < tiles.len() && 0 <= d < 4 && #[trigger] has_port(tiles[i], d)
        ==> linked(size, tiles, i, d)
}

/// How many entries of `s` are set.
pub open spec fn count_some(s: Seq<Option<usize>>) -> int
    decreases s.len(),
{
    if s.len() == 0 { 0 } else { count_some(s.drop_last()) + if s.last().is_some() { 1int } else { 0int } }
}

proof fn lemma_count_some_update(s: Seq<Option<usize>>, j: int, v: usize)
    requires
        0 <= j < s.len(),
        s[j].is_none(),
    ensures
        count_some(s.update(j, Some(v))) == count_some(s) + 1,
        0 <= count_some(s) <= s.len(),
    decreases s.len(),
{
    let t = s.update(j, Some(v));
    if j < s.len() - 1 {
        assert(t.drop_last() =~= s.drop_last().update(j, Some(v)));
        lemma_count_some_update(s.drop_last(), j, v);
    } else {
        assert(t.drop_last() =~= s.drop_last());
        lemma_count_some_bounds(s.drop_last());
    }
}

proof fn lemma_count_some_bounds(s: Seq<Option<usize>>)
    ensures
        0 <= count_some(s) <= s.len(),
    decreases s.len(),
{
    if s.len() > 0 {
        lemma_count_some_bounds(s.drop_last());
    }
}

proof fn lemma_port_shift(d: int)
    requires
        0 <= d < 4,
    ensures
        port(d) == 1u8 << (d as u8),
{
    assert(1u8 << 0u8 == 1u8) by (bit_vector);
    assert(1u8 << 1u8 == 2u8) by (bit_vector);
    assert(1u8 << 2u8 == 4u8) by (bit_vector);
    assert(1u8 << 3u8 == 8u8) by (bit_vector);
}

/// Opening port `dir` of a tile opens that port and keeps the others as they were.
proof fn lemma_or_port(a: u8, dir: u8)
    requires
        dir < 4,
    ensures
        a < 16 ==> (a | (1u8 << dir)) < 16,
        forall|d: u8| d < 4 ==> ((#[trigger] ((a | (1u8 << dir)) & (1u8 << d))) != 0) == (d == dir || (a & (1u8 << d)) != 0),
{
    assert(a < 16 ==> (a | (1u8 << dir)) < 16) by (bit_vector)
        requires dir < 4;
    assert forall|d: u8| d < 4 implies ((#[trigger] ((a | (1u8 << dir)) & (1u8 << d))) != 0) == (d == dir || (a & (1u8 << d)) != 0) by {
        assert(((a | (1u8 << dir)) & (1u8 << d)) != 0 <==> (d == dir || (a & (1u8 << d)) != 0)) by (bit_vector)
            requires dir < 4, d < 4;
    }
}

struct Rng(u64);

impl Rng {
    fn next(&mut self) -> (x: u64)
        ensures
            x == xorshift(old(self).0),
            final(self).0 == x,
    {
        self.0 = xorshift_next(self.0);
        self.0
    }
}

/// The search's marks: every cell on the stack is marked, and every marked cell is on the
/// stack or has all its neighbors marked.
pub open spec fn dfs_marks(size: int, seen: Seq<bool>, stack: Seq<usize>) -> bool {
    &&& forall|k: int| 0 <= k < stack.len() ==> #[trigger] stack[k] < size * size && seen[stack[k] as int]
    &&& forall|c: int| 0 <= c < size * size && #[trigger] seen[c] ==> (exists|k: int| 0 <= k < stack.len() && stack[k] == c)
        || nbrs_seen(size, seen, c)
}

/// Taking a finished cell off the top of the stack keeps the marks in order.
proof fn lemma_dfs_finish(size: int, seen: Seq<bool>, stack: Seq<usize>)
    requires
        stack.len() > 0,
        dfs_marks(size, seen, stack),
        nbrs_seen(size, seen, stack.last() as int),
    ensures
        dfs_marks(size, seen, stack.drop_last()),
{
    let rest = stack.drop_last();
    assert forall|c: int| 0 <= c < size * size && #[trigger] seen[c] implies (exists|k: int| 0 <= k < rest.len()
        && rest[k] == c) || nbrs_seen(size, seen, c) by {
        if c != stack.last() && !nbrs_seen(size, seen, c) {
            let k = choose|k: int| 0 <= k < stack.len() && stack[k] == c;
            assert(rest[k] == c);
        }
    }
}

/// Marking a neighbor `j` of a cell and pushing it keeps the marks in order.
proof fn lemma_dfs_grow_marks(size: int, seen: Seq<bool>, stack: Seq<usize>, j: usize)
    requires
        size > 0,
        seen.len() == size * size,
        j < size * size,
        dfs_marks(size, seen, stack),
    ensures
        dfs_marks(size, seen.update(j as int, true), stack.push(j)),
{
    let n = size * size;
    let s2 = seen.update(j as int, true);
    let st2 = stack.push(j);
    assert forall|k: int| 0 <= k < st2.len() implies #[trigger] st2[k] < size * size && s2[st2[k] as int] by {
        if k < stack.len() {
            assert(st2[k] == stack[k]);
        }
    }
    assert forall|c: int| 0 <= c < n && #[trigger] s2[c] implies (exists|k: int| 0 <= k < st2.len() && st2[k] == c)
        || nbrs_seen(size, s2, c) by {
        if c == j {
            assert(st2[st2.len() - 1] == c);
        } else if nbrs_seen(size, seen, c) {
            assert forall|d: int| 0 <= d < 4 && (#[trigger] neighbor_spec(size, c, d)) is Some implies
                s2[neighbor_spec(size, c, d).unwrap()] by {
                lemma_neighbor_symmetric(size, c, d);
                assert(seen[neighbor_spec(size, c, d).unwrap()]);
            }
        } else {
            let k = choose|k: int| 0 <= k < stack.len() && stack[k] == c;
            assert(st2[k] == c);
        }
    }
}

/// Linking cell `i` to an unmarked neighbor `j` and marking `j` keeps every marked cell within
/// reach of the center, one more step allowed for each cell marked.
proof fn lemma_dfs_grow_reach(size: int, t0: Seq<u8>, t2: Seq<u8>, seen: Seq<bool>, i: int, j: int, dir: int)
    requires
        size > 0,
        t0.len() == size * size,
        t2.len() == t0.len(),
        seen.len() == t0.len(),
        forall|a: int, d: int| 0 <= a < t0.len() && 0 <= d < 4 && #[trigger] has_port(t0[a], d) ==> has_port(t2[a], d),
        0 <= i < t0.len(),
        0 <= j < t0.len(),
        0 <= dir < 4,
        neighbor_spec(size, i, dir) == Some(j),
        linked(size, t2, i, dir),
        seen[i],
        !seen[j],
        forall|c: int| 0 <= c < t0.len() && #[trigger] seen[c] ==> reachable_within(size, t0,
            (t0.len() - count_false(seen)) as nat, c),
        0 <= count_false(seen) <= t0.len(),
    ensures
        forall|c: int| 0 <= c < t0.len() && #[trigger] seen.update(j, true)[c] ==> reachable_within(size, t2,
            (t0.len() - count_false(seen.update(j, true))) as nat, c),
{
    let n = t0.len() as int;
    let s2 = seen.update(j, true);
    lemma_count_false_update(seen, j);
    let m = (n - count_false(seen)) as nat;
    assert((n - count_false(s2)) as nat == m + 1);
    assert forall|c: int| 0 <= c < n && #[trigger] s2[c] implies reachable_within(size, t2, m + 1, c) by {
        if c == j {
            lemma_reach_more_ports(size, t0, t2, m, i);
            lemma_reach_step(size, t2, m, i, dir, j);
        } else {
            assert(seen[c]);
            lemma_reach_more_ports(size, t0, t2, m, c);
            lemma_reachable_mono(size, t2, m, m + 1, c);
        }
    }
}

/// The unmarked neighbors of cell `i` in the first `d` directions, each with its direction.
pub open spec fn open_nbrs(size: int, seen: Seq<bool>, i: int, d: int) -> Seq<(usize, usize)>
    decreases d,
{
    if d <= 0 {
        Seq::empty()
    } else {
        open_nbrs(size, seen, i, d - 1) + match neighbor_spec(size, i, d - 1) {
            Some(j) => if !seen[j] { seq![((d - 1) as usize, j as usize)] } else { Seq::empty() },
            None => Seq::empty(),
        }
    }
}

/// One step of the carving search over (tiles, marks, stack, generator): from the cell on top
/// of the stack, carve to a randomly drawn unmarked neighbor, or, with none left, step back.
pub open spec fn dfs_step(size: int, st: (Seq<u8>, Seq<bool>, Seq<usize>, u64)) -> (Seq<u8>, Seq<bool>, Seq<usize>, u64) {
    let (tiles, seen, stack, rng) = st;
    let i = stack.last() as int;
    let cands = open_nbrs(size, seen, i, 4);
    if cands.len() == 0 {
        (tiles, seen, stack.drop_last(), rng)
    } else {
        let r = xorshift(rng);
        let (dir, j) = cands[(r % (cands.len() as u64)) as int];
        let t1 = tiles.update(i, tiles[i] | port(dir as int));
        let t2 = t1.update(j as int, t1[j as int] | port(((dir + 2) % 4) as int));
        (t2, seen.update(j as int, true), stack.push(j), r)
    }
}

/// The carving search run for at most `fuel` steps, or until its stack is empty.
pub open spec fn dfs_run(size: int, st: (Seq<u8>, Seq<bool>, Seq<usize>, u64), fuel: nat) -> (Seq<u8>, Seq<bool>, Seq<usize>, u64)
    decreases fuel,
{
    if fuel == 0 || st.2.len() == 0 { st } else { dfs_run(size, dfs_step(size, st), (fuel - 1) as nat) }
}

/// Where the carving search starts: no ports, only the center marked and on the stack.
pub open spec fn dfs_init(size: int, seed: u64) -> (Seq<u8>, Seq<bool>, Seq<usize>, u64) {
    let n = size * size;
    (Seq::new(n as nat, |k: int| 0u8), Seq::new(n as nat, |k: int| k == n / 2), seq![(n / 2) as usize], seed | 1)
}

/// The puzzle seed `seed` gives at side `size`: the carving search run to its end (it takes
/// fewer than `2 * size * size` steps).
pub open spec fn seeded_solution(size: int, seed: u64) -> Seq<u8> {
    dfs_run(size, dfs_init(size, seed), (2 * (size * size)) as nat).0
}

/// The carving search starts from blank tiles with only the center marked and stacked.
proof fn lemma_dfs_start(size: int, seed: u64, tiles: Seq<u8>, seen: Seq<bool>, stack: Seq<usize>, rng: u64)
    requires
        tiles.len() == size * size,
        forall|k: int| 0 <= k < tiles.len() ==> #[trigger] tiles[k] == 0,
        seen.len() == size * size,
        forall|k: int| 0 <= k < seen.len() ==> #[trigger] seen[k] == (k == size * size / 2),
        stack == seq![(size * size / 2) as usize],
        rng == seed | 1,
    ensures
        (tiles, seen, stack, rng) == dfs_init(size, seed),
{
    assert(tiles =~= dfs_init(size, seed).0);
    assert(seen =~= dfs_init(size, seed).1);
}

/// A finished search stays where it is.
proof fn lemma_dfs_done(size: int, st: (Seq<u8>, Seq<bool>, Seq<usize>, u64), fuel: nat)
    requires
        st.2.len() == 0,
    ensures
        dfs_run(size, st, fuel) == st,
{
}

/// Randomized depth-first spanning tree rooted at the center. No off-board ports or loops:
/// every tile is connected to the center and no port leaks.
#[verifier::spinoff_prover]
#[verifier::rlimit(100)]
pub fn solution(size: usize, seed: u64) -> (tiles: Vec<u8>)
    requires
        size > 0,
        size * size + size <= usize::MAX,
    ensures
        tiles@.len() == size * size,
        forall|i: int| 0 <= i < tiles@.len() ==> #[trigger] tiles@[i] < 16,
        leak_free(size as int, tiles@),
        solved_spec(size as int, tiles@),
        tiles@ == seeded_solution(size as int, seed),
{
    let mut rng = Rng(seed | 1);
    let n = size * size;
    let mut tiles: Vec<u8> = vec![0; n];
    let mut seen: Vec<bool> = vec![false; n];
    let root = n / 2;
    proof {
        assert(n / 2 < n) by (nonlinear_arith)
            requires n == size * size, size > 0;
        lemma_count_false_update(seen@, root as int);
        assert forall|p: u8| #[trigger] (0u8 & p) == 0 by {
            assert((0u8 & p) == 0) by (bit_vector);
        }
        assert forall|i: int, d: int| 0 <= i < tiles@.len() && 0 <= d < 4 implies !#[trigger] has_port(tiles@[i], d) by {
            assert(tiles@[i] == 0u8);
            assert((0u8 & port(d)) == 0);
        }
    }
    proof {
        lemma_count_false_all(seen@);
        lemma_reach_root(size as int, tiles@);
        lemma_reachable_mono(size as int, tiles@, 0, 1, root as int);
    }
    seen.set(root, true);
    let mut stack: Vec<usize> = vec![root];
    proof {
        assert(stack@[0] == root);
        assert forall|c: int| 0 <= c < n && #[trigger] seen@[c] implies (exists|k: int| 0 <= k < stack@.len() && stack@[k] == c)
            || nbrs_seen(size as int, seen@, c) by {
            assert(c == root);
        }
        assert forall|k: int| 0 <= k < n implies #[trigger] seen@[k] == (k == root) by {}
        assert(stack@ =~= seq![root]);
        lemma_dfs_start(size as int, seed, tiles@, seen@, stack@, rng.0);
    }
    let ghost mut iters: int = 0;
    loop
        invariant
            0 <= iters,
            iters + 2 * count_false(seen@) + stack@.len() <= 2 * n,
            dfs_run(size as int, (tiles@, seen@, stack@, rng.0), (2 * n - iters) as nat)
                == dfs_run(size as int, dfs_init(size as int, seed), (2 * n) as nat),
            n == size * size,
            n + size <= usize::MAX,
            size > 0,
            root == n / 2,
            root < n,
            tiles@.len() == n,
            seen@.len() == n,
            forall|i: int| 0 <= i < n ==> #[trigger] tiles@[i] < 16,
            leak_free(size as int, tiles@),
            0 <= count_false(seen@) <= n,
            seen@[root as int],
            dfs_marks(size as int, seen@, stack@),
            forall|c: int| 0 <= c < n && #[trigger] seen@[c] ==> reachable_within(size as int, tiles@,
                (n - count_false(seen@)) as nat, c),
        ensures
            stack@.len() == 0,
        decreases 2 * count_false(seen@) + stack@.len(),
    {
        if stack.len() == 0 {
            break;
        }
        let i = stack[stack.len() - 1];
        let mut candidates: Vec<(usize, usize)> = Vec::new();
        let mut dir: usize = 0;
        while dir < 4
            invariant
                dir <= 4,
                i < n,
                n == size * size,
                n + size <= usize::MAX,
                size > 0,
                seen@.len() == n,
                forall|k: int| 0 <= k < candidates@.len() ==> {
                    let (d, j) = #[trigger] candidates@[k];
                    &&& d < 4
                    &&& neighbor_spec(size as int, i as int, d as int) == Some(j as int)
                    &&& j < n
                    &&& !seen@[j as int]
                },
                forall|d: int| 0 <= d < dir && (#[trigger] neighbor_spec(size as int, i as int, d)) is Some
                    && !seen@[neighbor_spec(size as int, i as int, d).unwrap()] ==> candidates@.len() > 0,
                candidates@ == open_nbrs(size as int, seen@, i as int, dir as int),
            decreases 4 - dir,
        {
            proof {
                lemma_neighbor_symmetric(size as int, i as int, dir as int);
            }
            let ghost c0 = candidates@;
            if let Some(j) = neighbor(size, i, dir) {
                if !seen[j] {
                    candidates.push((dir, j));
                }
            }
            proof {
                assert(candidates@ =~= open_nbrs(size as int, seen@, i as int, dir as int + 1));
            }
            dir += 1;
        }
        let ghost cur = (tiles@, seen@, stack@, rng.0);
        proof {
            assert(2 * n - iters >= 1);
            assert(dfs_run(size as int, cur, (2 * n - iters) as nat)
                == dfs_run(size as int, dfs_step(size as int, cur), (2 * n - iters - 1) as nat));
        }
        if candidates.len() == 0 {
            proof {
                assert(nbrs_seen(size as int, seen@, i as int));
                lemma_dfs_finish(size as int, seen@, stack@);
            }
            stack.pop();
            proof {
                assert((tiles@, seen@, stack@, rng.0) == dfs_step(size as int, cur));
                iters = iters + 1;
            }
            continue;
        }
        let pick = (rng.next() % candidates.len() as u64) as usize;
        let (dir, j) = candidates[pick];
        let back = (dir + 2) % 4;
        proof {
            lemma_neighbor_symmetric(size as int, i as int, dir as int);
        }
        let pi = port_bit(dir);
        let pj = port_bit(back);
        let ghost t0 = tiles@;
        let old_i = tiles[i];
        let ti = old_i | pi;
        proof {
            lemma_or_port(old_i, dir as u8);
        }
        tiles.set(i, ti);
        let ghost t1 = tiles@;
        let old_j = tiles[j];
        let tj = old_j | pj;
        proof {
            lemma_or_port(old_j, back as u8);
        }
        tiles.set(j, tj);
        proof {
            let t2 = tiles@;
            assert forall|a: int, d: int| 0 <= a < n && 0 <= d < 4 && #[trigger] has_port(t2[a], d)
                implies linked(size as int, t2, a, d) by {
                lemma_port_shift(d);
                if a == i as int && d == dir as int {
                    assert(neighbor_spec(size as int, i as int, dir as int) == Some(j as int));
                    lemma_port_shift(back as int);
                    assert(has_port(t2[j as int], opposite(d)));
                } else if a == j as int && d == back as int {
                    assert(neighbor_spec(size as int, j as int, back as int) == Some(i as int));
                    lemma_port_shift(dir as int);
                    assert(has_port(t2[i as int], opposite(d)));
                } else {
                    assert(has_port(t0[a], d));
                    let nb = neighbor_spec(size as int, a, d).unwrap();
                    lemma_neighbor_symmetric(size as int, a, d);
                    lemma_port_shift(opposite(d));
                    assert(has_port(t0[nb], opposite(d)));
                    assert(has_port(t2[nb], opposite(d)));
                }
            }
            lemma_count_false_update(seen@, j as int);
            assert forall|a: int, d: int| 0 <= a < n && 0 <= d < 4 && #[trigger] has_port(t0[a], d) implies has_port(t2[a], d) by {
                lemma_port_shift(d);
            }
            lemma_port_shift(dir as int);
            lemma_port_shift(back as int);
            assert(linked(size as int, t2, i as int, dir as int));
            lemma_dfs_grow_marks(size as int, seen@, stack@, j);
            lemma_dfs_grow_reach(size as int, t0, t2, seen@, i as int, j as int, dir as int);
        }
        seen.set(j, true);
        stack.push(j);
        proof {
            assert(tiles@ =~= dfs_step(size as int, cur).0);
            assert(seen@ =~= dfs_step(size as int, cur).1);
            assert(stack@ =~= dfs_step(size as int, cur).2);
            assert((tiles@, seen@, stack@, rng.0) == dfs_step(size as int, cur));
            iters = iters + 1;
        }
    }
    proof {
        lemma_dfs_done(size as int, (tiles@, seen@, stack@, rng.0), (2 * n - iters) as nat);
        lemma_closed_covers(size as int, seen@, root as int);
        assert forall|c: int| 0 <= c < tiles@.len() implies #[trigger] reachable_within(size as int, tiles@, tiles@.len() as nat, c) by {
            assert(seen@[c]);
            lemma_reachable_mono(size as int, tiles@, (n - count_false(seen@)) as nat, n as nat, c);
        }
        lemma_leak_free_total(size as int, tiles@, n as int);
    }
    tiles
}

/// The center cell, where the water comes from.
pub open spec fn root_of(n: int) -> int {
    n / 2
}

/// Water flows from cell `a` into cell `b`: a port of `a` meets an open port of its neighbor `b`.
pub open spec fn flows(size: int, tiles: Seq<u8>, a: int, b: int) -> bool {
    exists|d: int| 0 <= d < 4 && #[trigger] linked(size, tiles, a, d) && neighbor_spec(size, a, d) == Some(b)
}

/// `path` starts at the center, stays on the board, and water flows along each step of it.
pub open spec fn is_path(size: int, tiles: Seq<u8>, path: Seq<int>) -> bool {
    &&& path.len() >= 1
    &&& path[0] == root_of(tiles.len() as int)
    &&& forall|m: int| 0 <= m < path.len() ==> 0 <= #[trigger] path[m] < tiles.len()
    &&& forall|m: int| 0 <= m < path.len() - 1 ==> flows(size, tiles, #[trigger] path[m], path[m + 1])
}

/// Cell `j` can be reached from the center in at most `k` steps through linked ports.
pub open spec fn reachable_within(size: int, tiles: Seq<u8>, k: nat, j: int) -> bool {
    exists|path: Seq<int>| #[trigger] is_path(size, tiles, path) && path.last() == j && path.len() <= k + 1
}

/// Every cell is connected to the center.
pub open spec fn all_connected(size: int, tiles: Seq<u8>) -> bool {
    forall|j: int| 0 <= j < tiles.len() ==> #[trigger] reachable_within(size, tiles, tiles.len() as nat, j)
}

/// The puzzle is solved: every tile is connected to the center and no port leaks.
pub open spec fn solved_spec(size: int, tiles: Seq<u8>) -> bool {
    all_connected(size, tiles) && leak_total(size, tiles, tiles.len() as int) == 0
}

proof fn lemma_reach_step(size: int, tiles: Seq<u8>, k: nat, i: int, d: int, j: int)
    requires
        0 <= i < tiles.len(),
        0 <= j < tiles.len(),
        0 <= d < 4,
        reachable_within(size, tiles, k, i),
        linked(size, tiles, i, d),
        neighbor_spec(size, i, d) == Some(j),
    ensures
        reachable_within(size, tiles, k + 1, j),
{
    let path = choose|path: Seq<int>| #[trigger] is_path(size, tiles, path) && path.last() == i && path.len() <= k + 1;
    let longer = path.push(j);
    assert(flows(size, tiles, i, j));
    assert forall|m: int| 0 <= m < longer.len() - 1 implies flows(size, tiles, #[trigger] longer[m], longer[m + 1]) by {
        if m < path.len() - 1 {
            assert(longer[m] == path[m] && longer[m + 1] == path[m + 1]);
        } else {
            assert(longer[m] == i && longer[m + 1] == j);
        }
    }
    assert forall|m: int| 0 <= m < longer.len() implies 0 <= #[trigger] longer[m] < tiles.len() by {
        if m < path.len() {
            assert(longer[m] == path[m]);
        }
    }
    assert(is_path(size, tiles, longer));
}

proof fn lemma_reachable_mono(size: int, tiles: Seq<u8>, k: nat, m: nat, j: int)
    requires
        k <= m,
        reachable_within(size, tiles, k, j),
    ensures
        reachable_within(size, tiles, m, j),
{
    let path = choose|path: Seq<int>| #[trigger] is_path(size, tiles, path) && path.last() == j && path.len() <= k + 1;
    assert(is_path(size, tiles, path) && path.last() == j && path.len() <= m + 1);
}

/// Every neighbor of cell `c` is marked in `seen`.
pub open spec fn nbrs_seen(size: int, seen: Seq<bool>, c: int) -> bool {
    forall|d: int| 0 <= d < 4 && (#[trigger] neighbor_spec(size, c, d)) is Some ==> seen[neighbor_spec(size, c, d).unwrap()]
}

/// The cell in column `x` of row `y`.
proof fn lemma_cell(size: int, x: int, y: int)
    requires
        0 <= x < size,
        0 <= y < size,
    ensures
        0 <= y * size + x < size * size,
        (y * size + x) % size == x,
        (y * size + x) / size == y,
        (y * size + x) + size == (y + 1) * size + x,
        (y * size + x) - size == (y - 1) * size + x,
{
    assert(0 <= y * size + x < size * size) by (nonlinear_arith)
        requires 0 <= x < size, 0 <= y < size;
    assert((y * size + x) % size == x && (y * size + x) / size == y) by (nonlinear_arith)
        requires 0 <= x < size, 0 <= y;
    assert((y * size + x) + size == (y + 1) * size + x) by (nonlinear_arith);
    assert((y * size + x) - size == (y - 1) * size + x) by (nonlinear_arith);
}

/// Marks closed under stepping to a neighbor spread along a row to the right.
proof fn lemma_walk_right(size: int, seen: Seq<bool>, y: int, x: int, k: int)
    requires
        seen.len() == size * size,
        forall|c: int| 0 <= c < size * size && seen[c] ==> #[trigger] nbrs_seen(size, seen, c),
        0 <= y < size,
        0 <= x,
        0 <= k,
        x + k < size,
        seen[y * size + x],
    ensures
        seen[y * size + x + k],
    decreases k,
{
    if k > 0 {
        lemma_walk_right(size, seen, y, x, k - 1);
        let c = y * size + x + k - 1;
        lemma_cell(size, x + k - 1, y);
        assert(nbrs_seen(size, seen, c));
        assert(neighbor_spec(size, c, 1) == Some(c + 1));
    }
}

/// ... and to the left.
proof fn lemma_walk_left(size: int, seen: Seq<bool>, y: int, x: int, k: int)
    requires
        seen.len() == size * size,
        forall|c: int| 0 <= c < size * size && seen[c] ==> #[trigger] nbrs_seen(size, seen, c),
        0 <= y < size,
        x < size,
        0 <= k,
        0 <= x - k,
        seen[y * size + x],
    ensures
        seen[y * size + x - k],
    decreases k,
{
    if k > 0 {
        lemma_walk_left(size, seen, y, x, k - 1);
        let c = y * size + x - k + 1;
        lemma_cell(size, x - k + 1, y);
        assert(nbrs_seen(size, seen, c));
        assert(neighbor_spec(size, c, 3) == Some(c - 1));
    }
}

/// ... and down a column.
proof fn lemma_walk_down(size: int, seen: Seq<bool>, x: int, y: int, k: int)
    requires
        seen.len() == size * size,
        forall|c: int| 0 <= c < size * size && seen[c] ==> #[trigger] nbrs_seen(size, seen, c),
        0 <= x < size,
        0 <= y,
        0 <= k,
        y + k < size,
        seen[y * size + x],
    ensures
        seen[(y + k) * size + x],
    decreases k,
{
    if k > 0 {
        lemma_walk_down(size, seen, x, y, k - 1);
        let c = (y + k - 1) * size + x;
        lemma_cell(size, x, y + k - 1);
        assert(nbrs_seen(size, seen, c));
        assert(neighbor_spec(size, c, 2) == Some(c + size));
    }
}

/// ... and up a column.
proof fn lemma_walk_up(size: int, seen: Seq<bool>, x: int, y: int, k: int)
    requires
        seen.len() == size * size,
        forall|c: int| 0 <= c < size * size && seen[c] ==> #[trigger] nbrs_seen(size, seen, c),
        0 <= x < size,
        y < size,
        0 <= k,
        0 <= y - k,
        seen[y * size + x],
    ensures
        seen[(y - k) * size + x],
    decreases k,
{
    if k > 0 {
        lemma_walk_up(size, seen, x, y, k - 1);
        let c = (y - k + 1) * size + x;
        lemma_cell(size, x, y - k + 1);
        assert(nbrs_seen(size, seen, c));
        assert(neighbor_spec(size, c, 0) == Some(c - size));
    }
}

/// The board is connected: marks that hold a cell and spread to every neighbor of a marked cell
/// hold every cell.
proof fn lemma_closed_covers(size: int, seen: Seq<bool>, root: int)
    requires
        size > 0,
        seen.len() == size * size,
        0 <= root < size * size,
        seen[root],
        forall|c: int| 0 <= c < size * size && seen[c] ==> #[trigger] nbrs_seen(size, seen, c),
    ensures
        forall|c: int| 0 <= c < size * size ==> #[trigger] seen[c],
{
    let rx = root % size;
    let ry = root / size;
    assert(0 <= rx < size && 0 <= ry < size && root == ry * size + rx) by (nonlinear_arith)
        requires rx == root % size, ry == root / size, size > 0, 0 <= root < size * size;
    assert forall|c: int| 0 <= c < size * size implies #[trigger] seen[c] by {
        let cx = c % size;
        let cy = c / size;
        assert(0 <= cx < size && 0 <= cy < size && c == cy * size + cx) by (nonlinear_arith)
            requires cx == c % size, cy == c / size, size > 0, 0 <= c < size * size;
        if cx >= rx {
            lemma_walk_right(size, seen, ry, rx, cx - rx);
        } else {
            lemma_walk_left(size, seen, ry, rx, rx - cx);
        }
        assert(seen[ry * size + cx]);
        if cy >= ry {
            lemma_walk_down(size, seen, cx, ry, cy - ry);
        } else {
            lemma_walk_up(size, seen, cx, ry, ry - cy);
        }
    }
}

/// The center reaches itself.
proof fn lemma_reach_root(size: int, tiles: Seq<u8>)
    requires
        tiles.len() > 0,
    ensures
        reachable_within(size, tiles, 0, root_of(tiles.len() as int)),
{
    let path = seq![root_of(tiles.len() as int)];
    assert(is_path(size, tiles, path));
}

/// Opening more ports keeps every cell the center reaches within reach.
proof fn lemma_reach_more_ports(size: int, t1: Seq<u8>, t2: Seq<u8>, k: nat, c: int)
    requires
        size > 0,
        t1.len() == size * size,
        t2.len() == t1.len(),
        forall|a: int, d: int| 0 <= a < t1.len() && 0 <= d < 4 && #[trigger] has_port(t1[a], d) ==> has_port(t2[a], d),
        reachable_within(size, t1, k, c),
    ensures
        reachable_within(size, t2, k, c),
{
    let path = choose|path: Seq<int>| #[trigger] is_path(size, t1, path) && path.last() == c && path.len() <= k + 1;
    assert forall|m: int| 0 <= m < path.len() - 1 implies flows(size, t2, #[trigger] path[m], path[m + 1]) by {
        let a = path[m];
        assert(flows(size, t1, a, path[m + 1]));
        let d = choose|d: int| 0 <= d < 4 && #[trigger] linked(size, t1, a, d) && neighbor_spec(size, a, d) == Some(path[m + 1]);
        lemma_neighbor_symmetric(size, a, d);
        assert(has_port(t2[path[m + 1]], opposite(d)));
        assert(linked(size, t2, a, d));
    }
    assert(is_path(size, t2, path));
}

/// No port leaks, so the leak count is zero.
proof fn lemma_leak_free_total(size: int, tiles: Seq<u8>, k: int)
    requires
        leak_free(size, tiles),
        0 <= k <= tiles.len(),
    ensures
        leak_total(size, tiles, k) == 0,
    decreases k,
{
    if k > 0 {
        lemma_leak_free_total(size, tiles, k - 1);
        assert(!leaks_at(size, tiles, k - 1, 0));
        assert(!leaks_at(size, tiles, k - 1, 1));
        assert(!leaks_at(size, tiles, k - 1, 2));
        assert(!leaks_at(size, tiles, k - 1, 3));
    }
}

/// The water's reach from the center: how far each tile is, how many tiles it reaches, and
/// how many open ports leak.
#[derive(Clone, Debug)]
pub struct Network {
    /// Distance from the source, also used to animate the completion wave.
    pub distance: Vec<Option<usize>>,
    pub connected: usize,
    pub leaks: usize,
}

impl Network {
    pub fn solved(&self) -> (b: bool)
        ensures
            b == (self.connected == self.distance@.len() && self.leaks == 0),
    {
        self.connected == self.distance.len() && self.leaks == 0
    }
}

/// The leaking ports of tile `i`.
fn cell_leak_count(size: usize, tiles: &Vec<u8>, i: usize) -> (c: usize)
    requires
        size > 0,
        tiles@.len() == size * size,
        tiles@.len() + size <= usize::MAX,
        i < tiles@.len(),
    ensures
        c == cell_leaks(size as int, tiles@, i as int),
{
    let mut c: usize = 0;
    let mut dir: usize = 0;
    while dir < 4
        invariant
            dir <= 4,
            size > 0,
            tiles@.len() == size * size,
            tiles@.len() + size <= usize::MAX,
            i < tiles@.len(),
            c == (if dir > 0 && leaks_at(size as int, tiles@, i as int, 0) { 1int } else { 0int })
                + (if dir > 1 && leaks_at(size as int, tiles@, i as int, 1) { 1int } else { 0int })
                + (if dir > 2 && leaks_at(size as int, tiles@, i as int, 2) { 1int } else { 0int })
                + (if dir > 3 && leaks_at(size as int, tiles@, i as int, 3) { 1int } else { 0int }),
        decreases 4 - dir,
    {
        proof {
            lemma_neighbor_symmetric(size as int, i as int, dir as int);
        }
        let open = tiles[i] & port_bit(dir) != 0;
        let leak = open && match neighbor(size, i, dir) {
            None => true,
            Some(j) => tiles[j] & port_bit((dir + 2) % 4) == 0,
        };
        if leak {
            c += 1;
        }
        dir += 1;
    }
    c
}

/// Every cell along a path from the center is reached, when the reached cells hold the center
/// and are closed under linked ports.
proof fn lemma_closed_holds_reachable(size: int, tiles: Seq<u8>, dist: Seq<Option<usize>>, k: nat, j: int)
    requires
        size > 0,
        tiles.len() == size * size,
        dist.len() == tiles.len(),
        dist[root_of(tiles.len() as int)] is Some,
        forall|i: int, d: int| 0 <= i < tiles.len() && 0 <= d < 4 && (#[trigger] dist[i]) is Some
            && #[trigger] linked(size, tiles, i, d) ==> dist[neighbor_spec(size, i, d).unwrap()] is Some,
        reachable_within(size, tiles, k, j),
    ensures
        dist[j] is Some,
{
    let path = choose|path: Seq<int>| #[trigger] is_path(size, tiles, path) && path.last() == j && path.len() <= k + 1;
    lemma_path_reached(size, tiles, dist, path, path.len() - 1);
}

proof fn lemma_path_reached(size: int, tiles: Seq<u8>, dist: Seq<Option<usize>>, path: Seq<int>, m: int)
    requires
        size > 0,
        tiles.len() == size * size,
        dist.len() == tiles.len(),
        dist[root_of(tiles.len() as int)] is Some,
        forall|i: int, d: int| 0 <= i < tiles.len() && 0 <= d < 4 && (#[trigger] dist[i]) is Some
            && #[trigger] linked(size, tiles, i, d) ==> dist[neighbor_spec(size, i, d).unwrap()] is Some,
        is_path(size, tiles, path),
        0 <= m < path.len(),
    ensures
        dist[path[m]] is Some,
    decreases m,
{
    if m > 0 {
        lemma_path_reached(size, tiles, dist, path, m - 1);
        assert(flows(size, tiles, path[m - 1], path[m - 1 + 1]));
        let d = choose|d: int| 0 <= d < 4 && #[trigger] linked(size, tiles, path[m - 1], d)
            && neighbor_spec(size, path[m - 1], d) == Some(path[m - 1 + 1]);
        assert(0 <= path[m - 1] < tiles.len());
    }
}

/// A tile at distance `k` is reachable within `k` steps, when each reached tile other than the
/// center has a linked neighbor one step closer.
proof fn lemma_distance_reachable(size: int, tiles: Seq<u8>, dist: Seq<Option<usize>>, j: int)
    requires
        size > 0,
        tiles.len() == size * size,
        dist.len() == tiles.len(),
        0 <= j < tiles.len(),
        dist[j] is Some,
        dist[root_of(tiles.len() as int)] == Some(0usize),
        forall|a: int| 0 <= a < tiles.len() && #[trigger] dist[a] == Some(0usize) ==> a == root_of(tiles.len() as int),
        forall|a: int| 0 <= a < tiles.len() && (#[trigger] dist[a]) is Some && a != root_of(tiles.len() as int)
            ==> exists|d: int| 0 <= d < 4 && #[trigger] linked(size, tiles, a, d)
                && dist[neighbor_spec(size, a, d).unwrap()] == Some((dist[a].unwrap() - 1) as usize),
    ensures
        reachable_within(size, tiles, dist[j].unwrap() as nat, j),
    decreases dist[j].unwrap(),
{
    let k = dist[j].unwrap();
    if j != root_of(tiles.len() as int) {
        assert(k != 0);
        let d = choose|d: int| 0 <= d < 4 && #[trigger] linked(size, tiles, j, d)
            && dist[neighbor_spec(size, j, d).unwrap()] == Some((dist[j].unwrap() - 1) as usize);
        let p = neighbor_spec(size, j, d).unwrap();
        lemma_neighbor_symmetric(size, j, d);
        lemma_distance_reachable(size, tiles, dist, p);
        assert(neighbor_spec(size, p, opposite(d)) == Some(j));
        assert(linked(size, tiles, p, opposite(d))) by {
            assert((opposite(d) + 2) % 4 == d);
        }
        let kn: nat = k as nat;
        assert(0 <= p < tiles.len());
        lemma_reach_step(size, tiles, (kn - 1) as nat, p, opposite(d), j);
    } else {
        let path = seq![j];
        assert(is_path(size, tiles, path));
        lemma_reachable_mono(size, tiles, 0, k as nat, j);
    }
}

proof fn lemma_count_some_full(s: Seq<Option<usize>>)
    ensures
        count_some(s) == s.len() <==> forall|i: int| 0 <= i < s.len() ==> (#[trigger] s[i]) is Some,
    decreases s.len(),
{
    if s.len() > 0 {
        lemma_count_some_full(s.drop_last());
        lemma_count_some_bounds(s.drop_last());
        if count_some(s) == s.len() {
            assert forall|i: int| 0 <= i < s.len() implies (#[trigger] s[i]) is Some by {
                if i < s.len() - 1 {
                    assert(s.drop_last()[i] == s[i]);
                }
            }
        }
        if forall|i: int| 0 <= i < s.len() ==> (#[trigger] s[i]) is Some {
            assert forall|i: int| 0 <= i < s.len() - 1 implies (#[trigger] s.drop_last()[i]) is Some by {
                assert(s.drop_last()[i] == s[i]);
            }
            assert(s[s.len() - 1] is Some);
        }
    }
}

/// The water's reach, as [`network`] computes it: exact distances, counts and leaks.
pub open spec fn network_spec(size: int, tiles: Seq<u8>, net: Network) -> bool {
    let n = tiles.len() as int;
    &&& net.distance@.len() == n
    &&& net.leaks == leak_total(size, tiles, n)
    &&& net.connected == count_some(net.distance@)
    &&& net.distance@[root_of(n)] == Some(0usize)
    &&& forall|j: int| 0 <= j < n ==> ((#[trigger] net.distance@[j]) is Some <==> reachable_within(size, tiles, n as nat, j))
    &&& forall|j: int| 0 <= j < n && (#[trigger] net.distance@[j]) is Some ==> reachable_within(size, tiles, net.distance@[j].unwrap() as nat, j)
    &&& forall|i: int, d: int| 0 <= i < n && 0 <= d < 4 && (#[trigger] net.distance@[i]) is Some
        && #[trigger] linked(size, tiles, i, d) ==> net.distance@[neighbor_spec(size, i, d).unwrap()] is Some
}

/// Giving cell `j` the distance one past its linked neighbor `i` keeps every reached cell
/// other than the center next to a linked cell one step closer.
proof fn lemma_predecessor_kept(size: int, tiles: Seq<u8>, d0: Seq<Option<usize>>, i: int, dir: int, j: int, root: int)
    requires
        size > 0,
        tiles.len() == size * size,
        d0.len() == tiles.len(),
        0 <= i < tiles.len(),
        0 <= dir < 4,
        neighbor_spec(size, i, dir) == Some(j),
        linked(size, tiles, i, dir),
        d0[i] is Some,
        d0[j] is None,
        d0[i].unwrap() + 1 <= usize::MAX,
        forall|a: int| 0 <= a < tiles.len() && (#[trigger] d0[a]) is Some && a != root
            ==> exists|d: int| 0 <= d < 4 && #[trigger] linked(size, tiles, a, d)
                && d0[neighbor_spec(size, a, d).unwrap()] == Some((d0[a].unwrap() - 1) as usize),
    ensures
        ({
            let d1 = d0.update(j, Some((d0[i].unwrap() + 1) as usize));
            forall|a: int| 0 <= a < tiles.len() && (#[trigger] d1[a]) is Some && a != root
                ==> exists|d: int| 0 <= d < 4 && #[trigger] linked(size, tiles, a, d)
                    && d1[neighbor_spec(size, a, d).unwrap()] == Some((d1[a].unwrap() - 1) as usize)
        }),
{
    let d1 = d0.update(j, Some((d0[i].unwrap() + 1) as usize));
    lemma_neighbor_symmetric(size, i, dir);
    assert forall|a: int| 0 <= a < tiles.len() && (#[trigger] d1[a]) is Some && a != root implies
        exists|d: int| 0 <= d < 4 && #[trigger] linked(size, tiles, a, d)
            && d1[neighbor_spec(size, a, d).unwrap()] == Some((d1[a].unwrap() - 1) as usize) by {
        if a == j {
            let od = opposite(dir);
            assert(neighbor_spec(size, j, od) == Some(i));
            assert((od + 2) % 4 == dir);
            assert(linked(size, tiles, a, od));
            assert(d1[i] == d0[i]);
        } else {
            let d = choose|d: int| 0 <= d < 4 && #[trigger] linked(size, tiles, a, d)
                && d0[neighbor_spec(size, a, d).unwrap()] == Some((d0[a].unwrap() - 1) as usize);
            assert(linked(size, tiles, a, d));
            lemma_neighbor_symmetric(size, a, d);
            let nb = neighbor_spec(size, a, d).unwrap();
            assert(nb != j);
            assert(d1[nb] == d0[nb]);
        }
    }
}

/// The water from the center over `tiles`: distances by breadth-first search, the tiles it
/// reaches, and the leaking ports.
#[verifier::rlimit(100)]
pub fn network_of(size: usize, tiles: &Vec<u8>) -> (net: Network)
    requires
        size > 0,
        tiles@.len() == size * size,
        tiles@.len() + size <= usize::MAX,
        tiles@.len() * 4 <= usize::MAX,
    ensures
        network_spec(size as int, tiles@, net),
        (net.connected == net.distance@.len() && net.leaks == 0) <==> solved_spec(size as int, tiles@),
{
    let n = tiles.len();
    let mut distance: Vec<Option<usize>> = vec![None; n];
    let root = n / 2;
    proof {
        assert(n / 2 < n) by (nonlinear_arith)
            requires n == size * size, size > 0;
        lemma_count_some_update(distance@, root as int, 0);
        assert(count_some(distance@) == 0) by {
            assert forall|k: int| 0 <= k <= distance@.len() implies count_some(#[trigger] distance@.take(k)) == 0 by {
                lemma_count_some_zero(distance@, k);
            }
            assert(distance@.take(distance@.len() as int) =~= distance@);
        }
    }
    distance.set(root, Some(0));
    let mut queue: VecDeque<usize> = VecDeque::new();
    queue.push_back(root);
    let mut connected: usize = 0;
    proof {
        assert(queue@[0] == root);
        assert(queue@.contains(root));
        assert forall|a: int| 0 <= a < n && (#[trigger] distance@[a]) is Some implies a == root by {
            if a != root {
                assert(distance@[a] == Some::<usize>(0) || distance@[a] is None);
            }
        }
    }
    loop
        invariant
            n == tiles@.len(),
            size > 0,
            n == size * size,
            n + size <= usize::MAX,
            root == root_of(n as int),
            root < n,
            distance@.len() == n,
            0 <= count_some(distance@) <= n,
            connected + queue@.len() == count_some(distance@),
            forall|k: int| 0 <= k < queue@.len() ==> #[trigger] queue@[k] < n && distance@[queue@[k] as int] is Some,
            distance@[root as int] == Some(0usize),
            forall|a: int| 0 <= a < n && (#[trigger] distance@[a]) is Some ==> distance@[a].unwrap() < count_some(distance@),
            forall|a: int| 0 <= a < n && #[trigger] distance@[a] == Some(0usize) ==> a == root,
            forall|a: int| 0 <= a < n && (#[trigger] distance@[a]) is Some && a != root
                ==> exists|d: int| 0 <= d < 4 && #[trigger] linked(size as int, tiles@, a, d)
                    && distance@[neighbor_spec(size as int, a, d).unwrap()] == Some((distance@[a].unwrap() - 1) as usize),
            forall|i: int, d: int| 0 <= i < n && 0 <= d < 4 && (#[trigger] distance@[i]) is Some
                && !queue@.contains(i as usize)
                && #[trigger] linked(size as int, tiles@, i, d) ==> distance@[neighbor_spec(size as int, i, d).unwrap()] is Some,
        ensures
            queue@.len() == 0,
        decreases 2 * (n - count_some(distance@)) + queue@.len(),
    {
        let ghost q0 = queue@;
        let i = match queue.pop_front() {
            Some(i) => i,
            None => {
                break;
            },
        };
        proof {
            assert(q0[0] == i);
        }
        connected += 1;
        let ghost dstart = distance@;
        let mut dir: usize = 0;
        while dir < 4
            invariant
                dir <= 4,
                n == tiles@.len(),
                size > 0,
                n == size * size,
                n + size <= usize::MAX,
                root == root_of(n as int),
                root < n,
                i < n,
                distance@.len() == n,
                dstart.len() == n,
                dstart[i as int] is Some,
                forall|a: int| 0 <= a < n && (#[trigger] dstart[a]) is Some ==> distance@[a] == dstart[a],
                forall|a: int| 0 <= a < n && (#[trigger] dstart[a]) is None && distance@[a] is Some ==> queue@.contains(a as usize),
                0 <= count_some(distance@) <= n,
                connected + queue@.len() == count_some(distance@),
                q0.len() > 0,
                q0[0] == i,
                forall|k: int| 0 <= k < queue@.len() ==> #[trigger] queue@[k] < n && distance@[queue@[k] as int] is Some,
                forall|k: int| 0 <= k < q0.len() - 1 ==> #[trigger] queue@[k] == q0[k + 1],
                queue@.len() >= q0.len() - 1,
                distance@[root as int] == Some(0usize),
                forall|a: int| 0 <= a < n && (#[trigger] distance@[a]) is Some ==> distance@[a].unwrap() < count_some(distance@),
                forall|a: int| 0 <= a < n && #[trigger] distance@[a] == Some(0usize) ==> a == root,
                forall|a: int| 0 <= a < n && (#[trigger] distance@[a]) is Some && a != root
                    ==> exists|d: int| 0 <= d < 4 && #[trigger] linked(size as int, tiles@, a, d)
                        && distance@[neighbor_spec(size as int, a, d).unwrap()] == Some((distance@[a].unwrap() - 1) as usize),
                forall|d: int| 0 <= d < dir && #[trigger] linked(size as int, tiles@, i as int, d)
                    ==> distance@[neighbor_spec(size as int, i as int, d).unwrap()] is Some,
            decreases 4 - dir,
        {
            proof {
                lemma_neighbor_symmetric(size as int, i as int, dir as int);
            }
            let mut target: Option<usize> = None;
            if tiles[i] & port_bit(dir) != 0 {
                if let Some(j) = neighbor(size, i, dir) {
                    if tiles[j] & port_bit((dir + 2) % 4) != 0 {
                        target = Some(j);
                    }
                }
            }
            proof {
                assert(target.is_some() <==> linked(size as int, tiles@, i as int, dir as int));
                assert(target matches Some(j) ==> neighbor_spec(size as int, i as int, dir as int) == Some(j as int));
            }
            let ghost dbefore = distance@;
            if let Some(j) = target {
                if distance[j].is_none() {
                    let di = distance[i].unwrap();
                    proof {
                        lemma_count_some_update(dbefore, j as int, (di + 1) as usize);
                        lemma_predecessor_kept(size as int, tiles@, dbefore, i as int, dir as int, j as int, root as int);
                    }
                    let ghost qb = queue@;
                    distance.set(j, Some(di + 1));
                    queue.push_back(j);
                    proof {
                        lemma_count_some_bounds(distance@);
                        assert(queue@[queue@.len() - 1] == j);
                        assert forall|a: int| 0 <= a < n && (#[trigger] dstart[a]) is None && distance@[a] is Some
                            implies queue@.contains(a as usize) by {
                            if a != j as int {
                                let m = choose|m: int| 0 <= m < qb.len() && qb[m] == a as usize;
                                assert(queue@[m] == qb[m]);
                            }
                        }
                    }
                }
            }
            proof {
                assert forall|d: int| 0 <= d < dir + 1 && #[trigger] linked(size as int, tiles@, i as int, d)
                    implies distance@[neighbor_spec(size as int, i as int, d).unwrap()] is Some by {
                    lemma_neighbor_symmetric(size as int, i as int, d);
                    if d < dir {
                        let nb = neighbor_spec(size as int, i as int, d).unwrap();
                        assert(dbefore[nb] is Some);
                    }
                }
            }
            dir += 1;
        }
        proof {
            assert forall|a: int, d: int| 0 <= a < n && 0 <= d < 4 && (#[trigger] distance@[a]) is Some
                && !queue@.contains(a as usize)
                && #[trigger] linked(size as int, tiles@, a, d) implies distance@[neighbor_spec(size as int, a, d).unwrap()] is Some by {
                if a != i as int {
                    if q0.contains(a as usize) {
                        let m = choose|m: int| 0 <= m < q0.len() && q0[m] == a as usize;
                        assert(m > 0);
                        assert(queue@[m - 1] == q0[m]);
                    }
                    assert(dstart[a] is Some);
                    lemma_neighbor_symmetric(size as int, a, d);
                    let nb = neighbor_spec(size as int, a, d).unwrap();
                    assert(dstart[nb] is Some);
                }
            }
        }
    }
    let mut leaks: usize = 0;
    let mut i: usize = 0;
    while i < n
        invariant
            i <= n,
            n == tiles@.len(),
            size > 0,
            n == size * size,
            n + size <= usize::MAX,
            n * 4 <= usize::MAX,
            leaks == leak_total(size as int, tiles@, i as int),
            leaks <= 4 * i,
        decreases n - i,
    {
        let c = cell_leak_count(size, tiles, i);
        leaks += c;
        i += 1;
    }
    let net = Network { distance, connected, leaks };
    proof {
        let dist = net.distance@;
        lemma_count_some_bounds(dist);
        assert forall|j: int| 0 <= j < n && (#[trigger] dist[j]) is Some implies reachable_within(size as int, tiles@, dist[j].unwrap() as nat, j) by {
            lemma_distance_reachable(size as int, tiles@, dist, j);
        }
        assert forall|j: int| 0 <= j < n implies ((#[trigger] dist[j]) is Some <==> reachable_within(size as int, tiles@, n as nat, j)) by {
            if dist[j] is Some {
                lemma_distance_reachable(size as int, tiles@, dist, j);
                lemma_reachable_mono(size as int, tiles@, dist[j].unwrap() as nat, n as nat, j);
            }
            if reachable_within(size as int, tiles@, n as nat, j) {
                lemma_closed_holds_reachable(size as int, tiles@, dist, n as nat, j);
            }
        }
        lemma_count_some_full(dist);
        if all_connected(size as int, tiles@) {
            assert forall|j: int| 0 <= j < n implies (#[trigger] dist[j]) is Some by {
                assert(reachable_within(size as int, tiles@, tiles@.len() as nat, j));
            }
        }
        if forall|j: int| 0 <= j < n ==> (#[trigger] dist[j]) is Some {
            assert forall|j: int| 0 <= j < tiles@.len() implies #[trigger] reachable_within(size as int, tiles@, tiles@.len() as nat, j) by {
                assert(dist[j] is Some);
            }
        }
    }
    net
}

proof fn lemma_count_some_zero(s: Seq<Option<usize>>, k: int)
    requires
        0 <= k <= s.len(),
        forall|i: int| 0 <= i < s.len() ==> (#[trigger] s[i]) is None,
    ensures
        count_some(s.take(k)) == 0,
    decreases k,
{
    if k > 0 {
        assert(s.take(k).drop_last() =~= s.take(k - 1));
        lemma_count_some_zero(s, k - 1);
    }
}

/// `a` is `b` turned some number of quarter turns.
pub open spec fn rotation_of(a: u8, b: u8) -> bool {
    a == b || a == rotate_spec(b) || a == rotate_spec(rotate_spec(b)) || a == rotate_spec(rotate_spec(rotate_spec(b)))
}

/// A puzzle in progress (and the durable snapshot the host saves).
#[derive(Clone, Debug, PartialEq)]
pub struct SaveState {
    pub size: usize,
    pub seed: u64,
    pub tiles: Vec<u8>,
    pub locked: Vec<bool>,
    pub moves: u32,
}

/// Leaks add up: no leaks at all means no port leaks anywhere.
proof fn lemma_no_leaks(size: int, tiles: Seq<u8>, k: int)
    requires
        0 <= k <= tiles.len(),
    ensures
        leak_total(size, tiles, k) >= 0,
        leak_total(size, tiles, k) == 0 ==> forall|i: int, d: int| 0 <= i < k && 0 <= d < 4
            ==> !#[trigger] leaks_at(size, tiles, i, d),
    decreases k,
{
    if k > 0 {
        lemma_no_leaks(size, tiles, k - 1);
    }
}

/// In a solved puzzle of at least two cells, no tile is blank and the top-left corner tile
/// has no north port.
proof fn lemma_solved_shape(size: int, tiles: Seq<u8>)
    requires
        size >= 2,
        tiles.len() == size * size,
        solved_spec(size, tiles),
    ensures
        forall|i: int| 0 <= i < tiles.len() ==> #[trigger] tiles[i] != 0,
        !has_port(tiles[0], 0),
        forall|i: int, d: int| 0 <= i < tiles.len() && 0 <= d < 4 ==> !#[trigger] leaks_at(size, tiles, i, d),
{
    let n = tiles.len() as int;
    lemma_no_leaks(size, tiles, n);
    assert(n >= 4) by (nonlinear_arith)
        requires n == size * size, size >= 2;
    assert(!leaks_at(size, tiles, 0, 0));
    assert(neighbor_spec(size, 0, 0) is None);
    assert forall|i: int| 0 <= i < tiles.len() implies #[trigger] tiles[i] != 0 by {
        assert(reachable_within(size, tiles, tiles.len() as nat, i));
        let path = choose|path: Seq<int>| #[trigger] is_path(size, tiles, path) && path.last() == i && path.len() <= n + 1;
        if i == root_of(n) {
            // The center has a neighbor, and that neighbor is reached through the center's port.
            let other = if i == 0 { 1int } else { 0int };
            assert(reachable_within(size, tiles, tiles.len() as nat, other));
            let p2 = choose|p2: Seq<int>| #[trigger] is_path(size, tiles, p2) && p2.last() == other && p2.len() <= n + 1;
            assert(p2.len() >= 2);
            assert(flows(size, tiles, p2[0], p2[1]));
            let d = choose|d: int| 0 <= d < 4 && #[trigger] linked(size, tiles, p2[0], d) && neighbor_spec(size, p2[0], d) == Some(p2[1]);
            assert(has_port(tiles[i], d));
            assert((0u8 & port(d)) == 0) by (bit_vector);
        } else {
            assert(path.len() >= 2);
            let m = path.len() - 2;
            assert(flows(size, tiles, path[m], path[m + 1]));
            let d = choose|d: int| 0 <= d < 4 && #[trigger] linked(size, tiles, path[m], d) && neighbor_spec(size, path[m], d) == Some(path[m + 1]);
            assert(path[m + 1] == i);
            assert(has_port(tiles[i], opposite(d)));
            let od = opposite(d);
            assert((0u8 & port(od)) == 0) by (bit_vector);
        }
    }
}

/// A quarter turn of a tile that is neither blank nor a cross opens a port it did not have.
proof fn lemma_turn_opens_port(m: u8)
    requires
        m < 16,
        m != 0,
        m != 15,
    ensures
        exists|d: int| 0 <= d < 4 && #[trigger] has_port(rotate_spec(m), d) && !has_port(m, d),
{
    assert((rotate_spec(m) & 1u8 != 0 && m & 1u8 == 0) || (rotate_spec(m) & 2u8 != 0 && m & 2u8 == 0)
        || (rotate_spec(m) & 4u8 != 0 && m & 4u8 == 0) || (rotate_spec(m) & 8u8 != 0 && m & 8u8 == 0)) by (bit_vector)
        requires m < 16, m != 0, m != 15;
    if rotate_spec(m) & 1u8 != 0 && m & 1u8 == 0 {
        assert(has_port(rotate_spec(m), 0));
    } else if rotate_spec(m) & 2u8 != 0 && m & 2u8 == 0 {
        assert(has_port(rotate_spec(m), 1));
    } else if rotate_spec(m) & 4u8 != 0 && m & 4u8 == 0 {
        assert(has_port(rotate_spec(m), 2));
    } else {
        assert(has_port(rotate_spec(m), 3));
    }
}

/// Turning one tile of a solved puzzle, when the turn changes the tile, breaks it.
proof fn lemma_turn_unsolves(size: int, tiles: Seq<u8>, i: int)
    requires
        size >= 2,
        tiles.len() == size * size,
        solved_spec(size, tiles),
        0 <= i < tiles.len(),
        tiles[i] < 16,
        tiles[i] != 15,
    ensures
        !solved_spec(size, tiles.update(i, rotate_spec(tiles[i]))),
{
    let m = tiles[i];
    let r = rotate_spec(m);
    let t2 = tiles.update(i, r);
    lemma_solved_shape(size, tiles);
    lemma_turn_opens_port(m);
    let d = choose|d: int| 0 <= d < 4 && #[trigger] has_port(r, d) && !has_port(m, d);
    lemma_neighbor_symmetric(size, i, d);
    // The new port leaks: nothing beyond it, or a neighbor whose side toward this tile is shut.
    if let Some(j) = neighbor_spec(size, i, d) {
        assert(j != i);
        if has_port(tiles[j], opposite(d)) {
            assert(!leaks_at(size, tiles, j, opposite(d)));
            assert((opposite(d) + 2) % 4 == d);
        }
        assert(t2[j] == tiles[j]);
    }
    assert(leaks_at(size, t2, i, d));
    lemma_leak_counts(size, t2, t2.len() as int, i, d);
}

/// A leaking port makes the leak count positive.
proof fn lemma_leak_counts(size: int, tiles: Seq<u8>, k: int, i: int, d: int)
    requires
        0 <= i < k <= tiles.len(),
        0 <= d < 4,
        leaks_at(size, tiles, i, d),
    ensures
        leak_total(size, tiles, k) > 0,
    decreases k,
{
    lemma_no_leaks(size, tiles, k - 1);
    if i < k - 1 {
        lemma_leak_counts(size, tiles, k - 1, i, d);
    }
}

/// `x` after `k` steps of the generator.
pub open spec fn xorshift_iter(x: u64, k: int) -> u64
    decreases k,
{
    if k <= 0 { x } else { xorshift(xorshift_iter(x, k - 1)) }
}

/// Tile `m` turned `t` quarter turns.
pub open spec fn turned(m: u8, t: int) -> u8
    decreases t,
{
    if t <= 0 { m } else { rotate_spec(turned(m, t - 1)) }
}

/// Turn every tile a random number (0 to 3) of quarter turns: tile `i` the next number the
/// generator gives after `i` others, modulo four.
fn scramble(tiles: &mut Vec<u8>, rng: &mut Rng)
    requires
        forall|i: int| 0 <= i < old(tiles)@.len() ==> #[trigger] old(tiles)@[i] < 16,
    ensures
        final(tiles)@.len() == old(tiles)@.len(),
        forall|i: int| 0 <= i < final(tiles)@.len() ==> #[trigger] final(tiles)@[i] < 16,
        forall|i: int| 0 <= i < final(tiles)@.len() ==> #[trigger] rotation_of(final(tiles)@[i], old(tiles)@[i]),
        forall|i: int| 0 <= i < final(tiles)@.len() ==> #[trigger] final(tiles)@[i]
            == turned(old(tiles)@[i], (xorshift_iter(old(rng).0, i + 1) % 4) as int),
        final(rng).0 == xorshift_iter(old(rng).0, old(tiles)@.len() as int),
{
    let ghost sol = tiles@;
    let ghost r0 = rng.0;
    let n = tiles.len();
    let mut k: usize = 0;
    while k < n
        invariant
            n == tiles@.len(),
            sol.len() == n,
            k <= n,
            rng.0 == xorshift_iter(r0, k as int),
            forall|i: int| 0 <= i < n ==> #[trigger] sol[i] < 16,
            forall|i: int| 0 <= i < n ==> #[trigger] tiles@[i] < 16,
            forall|i: int| 0 <= i < k ==> #[trigger] rotation_of(tiles@[i], sol[i]),
            forall|i: int| 0 <= i < k ==> #[trigger] tiles@[i] == turned(sol[i], (xorshift_iter(r0, i + 1) % 4) as int),
            forall|i: int| k <= i < n ==> #[trigger] tiles@[i] == sol[i],
        decreases n - k,
    {
        let turns = rng.next() % 4;
        let mut t: u64 = 0;
        let ghost orig = tiles@[k as int];
        while t < turns
            invariant
                n == tiles@.len(),
                sol.len() == n,
                k < n,
                t <= turns,
                turns < 4,
                orig == sol[k as int],
                orig < 16,
                forall|i: int| 0 <= i < n ==> #[trigger] tiles@[i] < 16,
                forall|i: int| 0 <= i < k ==> #[trigger] rotation_of(tiles@[i], sol[i]),
                forall|i: int| 0 <= i < k ==> #[trigger] tiles@[i] == turned(sol[i], (xorshift_iter(r0, i + 1) % 4) as int),
                forall|i: int| k < i < n ==> #[trigger] tiles@[i] == sol[i],
                tiles@[k as int] == turned(orig, t as int),
                t == 0 ==> tiles@[k as int] == orig,
                t == 1 ==> tiles@[k as int] == rotate_spec(orig),
                t == 2 ==> tiles@[k as int] == rotate_spec(rotate_spec(orig)),
                t == 3 ==> tiles@[k as int] == rotate_spec(rotate_spec(rotate_spec(orig))),
            decreases turns - t,
        {
            let cur = tiles[k];
            proof {
                lemma_rotate_turns_ports(cur);
            }
            tiles.set(k, rotate(cur));
            t += 1;
        }
        assert(rotation_of(tiles@[k as int], sol[k as int]));
        k += 1;
    }
}

impl SaveState {
    /// The board has `size` x `size` tiles and a lock flag for each.
    pub open spec fn wf(&self) -> bool {
        &&& self.size > 0
        &&& self.tiles@.len() == self.size * self.size
        &&& self.locked@.len() == self.tiles@.len()
        &&& self.tiles@.len() + self.size <= usize::MAX
        &&& self.tiles@.len() * 4 <= usize::MAX
    }

    /// The size is one of [`SIZES`].
    pub open spec fn offered_size(size: usize) -> bool {
        size == 5 || size == 7 || size == 9
    }

    /// A new puzzle: the seeded solution with every tile turned a random number of quarter
    /// turns, and never one that is already solved. Every puzzle can be solved: turning each
    /// tile back gives a leak-free board connected to the center.
    pub fn new(size: usize, seed: u64) -> (b: Self)
        requires
            Self::offered_size(size),
        ensures
            b.wf(),
            b.size == size,
            b.seed == seed,
            b.moves == 0,
            forall|i: int| 0 <= i < b.locked@.len() ==> !#[trigger] b.locked@[i],
            forall|i: int| 0 <= i < b.tiles@.len() ==> #[trigger] b.tiles@[i] < 16,
            !solved_spec(size as int, b.tiles@),
            exists|sol: Seq<u8>| #![trigger solved_spec(size as int, sol)] sol.len() == b.tiles@.len() && solved_spec(size as int, sol)
                && forall|i: int| 0 <= i < sol.len() ==> #[trigger] rotation_of(b.tiles@[i], sol[i]),
            b.tiles@.len() == size * size,
            forall|i: int| 0 <= i < b.tiles@.len() ==> #[trigger] rotation_of(b.tiles@[i], seeded_solution(size as int, seed)[i]),
    {
        let mut rng = Rng((seed ^ 0x9e3779b97f4a7c15u64) | 1);
        let mut tiles = solution(size, seed);
        let ghost sol = tiles@;
        scramble(&mut tiles, &mut rng);
        let n = tiles.len();
        let mut board = SaveState { size, seed, locked: vec![false; n], tiles, moves: 0 };
        let ghost scrambled = board.tiles@;
        board.unsolve();
        proof {
            assert forall|i: int| 0 <= i < sol.len() implies #[trigger] rotation_of(board.tiles@[i], sol[i]) by {
                lemma_rotate_turns_ports(sol[i]);
                assert(rotation_of(scrambled[i], sol[i]));
                assert(board.tiles@[i] == scrambled[i] || board.tiles@[i] == rotate_spec(scrambled[i]));
            }
            assert(sol.len() == board.tiles@.len() && solved_spec(size as int, sol));
        }
        board
    }

    /// A scramble that happens to be solved gets one non-cross tile turned a quarter turn.
    fn unsolve(&mut self)
        requires
            old(self).wf(),
            old(self).size >= 2,
            forall|i: int| 0 <= i < old(self).tiles@.len() ==> #[trigger] old(self).tiles@[i] < 16,
        ensures
            final(self).size == old(self).size,
            final(self).seed == old(self).seed,
            final(self).moves == old(self).moves,
            final(self).locked@ == old(self).locked@,
            final(self).tiles@.len() == old(self).tiles@.len(),
            forall|i: int| 0 <= i < final(self).tiles@.len() ==> #[trigger] final(self).tiles@[i] < 16,
            forall|i: int| 0 <= i < final(self).tiles@.len() ==> final(self).tiles@[i] == old(self).tiles@[i]
                || #[trigger] final(self).tiles@[i] == rotate_spec(old(self).tiles@[i]),
            !solved_spec(final(self).size as int, final(self).tiles@),
    {
        let n = self.tiles.len();
        let net = self.network();
        if net.solved() {
            let mut i: usize = 0;
            proof {
                lemma_solved_shape(self.size as int, self.tiles@);
                let len = self.tiles@.len() as int;
                let sz = self.size as int;
                assert(len >= 4) by (nonlinear_arith)
                    requires len == sz * sz, sz >= 2;
                assert((15u8 & 1u8) != 0) by (bit_vector);
                assert(self.tiles@[0] != 15u8);
            }
            while self.tiles[i] == 15
                invariant
                    i < n,
                    n == self.tiles@.len(),
                    self.tiles@[0] != 15u8,
                    forall|j: int| 0 <= j < i ==> self.tiles@[j] == 15u8,
                decreases n - i,
            {
                i += 1;
            }
            let cur = self.tiles[i];
            let ghost before = self.tiles@;
            proof {
                lemma_rotate_turns_ports(cur);
                lemma_turn_unsolves(self.size as int, before, i as int);
            }
            self.tiles.set(i, rotate(cur));
            proof {
                assert(self.tiles@ == before.update(i as int, rotate_spec(cur)));
            }
        }
    }

    pub fn save_state(&self) -> (s: Self)
        ensures
            s.size == self.size,
            s.seed == self.seed,
            s.tiles@ == self.tiles@,
            s.locked@ == self.locked@,
            s.moves == self.moves,
    {
        SaveState {
            size: self.size,
            seed: self.seed,
            tiles: self.tiles.clone(),
            locked: self.locked.clone(),
            moves: self.moves,
        }
    }

    /// The snapshot, when it describes this seed's puzzle: an offered size, a tile and a lock
    /// for every cell, and each tile a turn of the seeded solution's tile there.
    pub fn apply_save(self) -> (res: Option<Self>)
        ensures
            res matches Some(b) ==> {
                &&& b == self
                &&& Self::offered_size(b.size)
                &&& b.wf()
                &&& exists|sol: Seq<u8>| #![trigger solved_spec(self.size as int, sol)] sol.len() == self.tiles@.len() && solved_spec(self.size as int, sol)
                    && forall|i: int| 0 <= i < sol.len() ==> #[trigger] rotation_of(self.tiles@[i], sol[i])
            },
            !Self::offered_size(self.size) ==> res is None,
            Self::offered_size(self.size) && (self.tiles@.len() != self.size * self.size
                || self.locked@.len() != self.tiles@.len()) ==> res is None,
            res is Some <==> Self::offered_size(self.size) && self.tiles@.len() == self.size * self.size
                && self.locked@.len() == self.tiles@.len()
                && forall|i: int| 0 <= i < self.tiles@.len()
                    ==> #[trigger] rotation_of(self.tiles@[i], seeded_solution(self.size as int, self.seed)[i]),
    {
        if !(self.size == 5 || self.size == 7 || self.size == 9)
            || self.tiles.len() != self.size * self.size
            || self.locked.len() != self.tiles.len()
        {
            return None;
        }
        let seeded = solution(self.size, self.seed);
        let n = self.tiles.len();
        let mut k: usize = 0;
        while k < n
            invariant
                n == self.tiles@.len(),
                seeded@.len() == n,
                seeded@ == seeded_solution(self.size as int, self.seed),
                k <= n,
                forall|i: int| 0 <= i < n ==> #[trigger] seeded@[i] < 16,
                forall|i: int| 0 <= i < k ==> #[trigger] rotation_of(self.tiles@[i], seeded@[i]),
            decreases n - k,
        {
            let mask = self.tiles[k];
            let mut expected = seeded[k];
            let mut matches = false;
            let mut t: usize = 0;
            while t < 4
                invariant
                    t <= 4,
                    k < n,
                    n == self.tiles@.len(),
                    seeded@.len() == n,
                    mask == self.tiles@[k as int],
                    t == 0 ==> expected == seeded@[k as int],
                    t == 1 ==> expected == rotate_spec(seeded@[k as int]),
                    t == 2 ==> expected == rotate_spec(rotate_spec(seeded@[k as int])),
                    t == 3 ==> expected == rotate_spec(rotate_spec(rotate_spec(seeded@[k as int]))),
                    matches == ((t > 0 && mask == seeded@[k as int])
                        || (t > 1 && mask == rotate_spec(seeded@[k as int]))
                        || (t > 2 && mask == rotate_spec(rotate_spec(seeded@[k as int])))
                        || (t > 3 && mask == rotate_spec(rotate_spec(rotate_spec(seeded@[k as int]))))),
                decreases 4 - t,
            {
                matches = matches || mask == expected;
                expected = rotate(expected);
                t += 1;
            }
            if !matches {
                proof {
                    assert(!rotation_of(self.tiles@[k as int], seeded_solution(self.size as int, self.seed)[k as int]));
                }
                return None;
            }
            k += 1;
        }
        proof {
            assert(seeded@.len() == self.tiles@.len() && solved_spec(self.size as int, seeded@));
        }
        Some(self)
    }

    /// Turn tile `i` a quarter turn. Refused on a locked tile, a solved board, off the board,
    /// and for a tile a turn does not change.
    pub fn turn(&mut self, i: usize) -> (turned: bool)
        requires
            old(self).wf(),
        ensures
            turned == (i < old(self).tiles@.len() && !old(self).locked@[i as int]
                && !solved_spec(old(self).size as int, old(self).tiles@)
                && rotate_spec(old(self).tiles@[i as int]) != old(self).tiles@[i as int]),
            turned ==> final(self).tiles@ == old(self).tiles@.update(i as int, rotate_spec(old(self).tiles@[i as int]))
                && final(self).moves == (if old(self).moves == u32::MAX { u32::MAX } else { (old(self).moves + 1) as u32 })
                && final(self).size == old(self).size
                && final(self).seed == old(self).seed
                && final(self).locked@ == old(self).locked@,
            !turned ==> *final(self) == *old(self),
    {
        if i >= self.tiles.len() || self.locked[i] || self.network().solved() {
            return false;
        }
        let next = rotate(self.tiles[i]);
        if next == self.tiles[i] {
            return false;
        }
        self.tiles.set(i, next);
        self.moves = self.moves.saturating_add(1);
        true
    }

    /// Lock or unlock tile `i`; refused off the board and on a solved board.
    pub fn toggle_lock(&mut self, i: usize) -> (done: bool)
        requires
            old(self).wf(),
        ensures
            done == (i < old(self).tiles@.len() && !solved_spec(old(self).size as int, old(self).tiles@)),
            done ==> final(self).locked@ == old(self).locked@.update(i as int, !old(self).locked@[i as int])
                && final(self).tiles@ == old(self).tiles@
                && final(self).size == old(self).size
                && final(self).seed == old(self).seed
                && final(self).moves == old(self).moves,
            !done ==> *final(self) == *old(self),
    {
        if i >= self.tiles.len() || self.network().solved() {
            return false;
        }
        let flipped = !self.locked[i];
        self.locked.set(i, flipped);
        true
    }

    /// The same puzzle from the start: the seed's scramble, no locks, no moves.
    pub fn restart(&mut self)
        requires
            Self::offered_size(old(self).size),
        ensures
            final(self).wf(),
            final(self).size == old(self).size,
            final(self).seed == old(self).seed,
            final(self).moves == 0,
            !solved_spec(final(self).size as int, final(self).tiles@),
    {
        *self = Self::new(self.size, self.seed);
    }

    /// The water from the center: distances, connected tiles and leaks.
    pub fn network(&self) -> (net: Network)
        requires
            self.wf(),
        ensures
            network_spec(self.size as int, self.tiles@, net),
            (net.connected == net.distance@.len() && net.leaks == 0) <==> solved_spec(self.size as int, self.tiles@),
    {
        network_of(self.size, &self.tiles)
    }
}

} // verus!
