use daygames::blockblast::{
    idx, move_score, shape_at, solvable, Difficulty, Grid, Model, Piece, Rng, CELLS, N,
    PERFECT_BONUS, SHAPE_COUNT,
};

fn shape(id: &str) -> usize {
    (0..SHAPE_COUNT)
        .position(|i| shape_at(i).id == id)
        .expect("known shape")
}

/// A model on an empty board with the given tray (all red).
fn with_tray(ids: [&str; 3]) -> Model {
    let mut m = Model::new(7, Difficulty::Normal);
    m.grid = [None; CELLS];
    m.tray = ids.map(|id| {
        Some(Piece {
            shape: shape(id),
            color: 0,
        })
    });
    m
}

fn fill(m: &mut Model, cells: impl IntoIterator<Item = usize>) {
    for i in cells {
        m.grid[i] = Some(3);
    }
}

#[test]
fn shapes_are_unique_normalized_and_named() {
    for i in 0..SHAPE_COUNT {
        let s = shape_at(i);
        assert!(s.cells.iter().any(|c| c.0 == 0), "{} touches row 0", s.id);
        assert!(s.cells.iter().any(|c| c.1 == 0), "{} touches col 0", s.id);
        for j in i + 1..SHAPE_COUNT {
            let t = shape_at(j);
            assert_ne!(s.id, t.id);
            let mut a = s.cells.to_vec();
            let mut b = t.cells.to_vec();
            a.sort_unstable();
            b.sort_unstable();
            assert_ne!(a, b, "{} and {} are the same shape", s.id, t.id);
        }
    }
}

#[test]
fn placement_fills_cells_and_scores_ten_a_cell() {
    let mut m = with_tray(["L_bl", "dot", "dot"]);
    let p = m.place(0, 2, 3).expect("fits");
    assert_eq!(p.cells, vec![idx(2, 3), idx(3, 3), idx(3, 4)]);
    assert!(p.cells.iter().all(|&i| m.grid[i] == Some(0)));
    assert_eq!(p.gain, 30);
    assert_eq!(m.score, 30);
    assert_eq!(m.tray[0], None, "the slot empties");
    assert!(!p.refilled, "two pieces are still in the tray");
}

#[test]
fn overlap_and_out_of_bounds_are_refused_without_change() {
    let mut m = with_tray(["h3", "dot", "dot"]);
    m.grid[idx(0, 2)] = Some(1);
    let before = m.grid;
    assert!(m.place(0, 0, 0).is_none(), "overlaps a filled cell");
    assert!(m.place(0, 0, 6).is_none(), "runs off the right edge");
    assert!(m.place(0, -1, 0).is_none(), "above the board");
    assert_eq!(m.grid, before);
    assert_eq!(m.score, 0);
    assert!(m.tray[0].is_some());
}

#[test]
fn a_full_row_and_a_full_column_clear_together_and_share_their_crossing() {
    let mut m = with_tray(["dot", "dot", "dot"]);
    fill(&mut m, (0..N).filter(|&c| c != 2).map(|c| idx(5, c)));
    fill(&mut m, (0..N).filter(|&r| r != 5).map(|r| idx(r, 2)));
    m.grid[idx(0, 0)] = Some(4);
    let p = m.place(0, 5, 2).expect("fits");
    assert_eq!(p.rows, vec![5]);
    assert_eq!(p.cols, vec![2]);
    assert_eq!(p.cleared.len(), 15, "8 + 8 cells, the crossing once");
    assert!((0..N).all(|c| m.grid[idx(5, c)].is_none()));
    assert!((0..N).all(|r| m.grid[idx(r, 2)].is_none()));
    assert_eq!(m.grid[idx(0, 0)], Some(4));
    assert_eq!(
        p.gain,
        10 + 400,
        "one cell, two lines squared, first combo ×1"
    );
    assert!(!p.perfect);
}

#[test]
fn combos_multiply_and_survive_two_clearless_placements() {
    let mut m = with_tray(["dot", "dot", "dot"]);
    let mut gains = Vec::new();
    for round in 0..4 {
        m.tray = [Some(Piece {
            shape: shape("dot"),
            color: 0,
        }); 3];
        fill(&mut m, (1..N).map(|c| idx(0, c)));
        m.grid[idx(7, round)] = Some(2);
        let p = m.place(0, 0, 0).expect("fits");
        gains.push((p.gain, p.combo));
    }
    assert_eq!(gains, vec![(110, 1), (165, 2), (220, 3), (275, 4)]);
    m.tray = [Some(Piece {
        shape: shape("dot"),
        color: 0,
    }); 3];
    m.place(0, 3, 3).unwrap();
    m.place(1, 3, 5).unwrap();
    assert_eq!(m.combo, 4, "still alive after two misses");
    m.place(2, 5, 5).unwrap();
    assert_eq!(m.combo, 0, "the third miss breaks it");
}

#[test]
fn emptying_the_board_pays_the_perfect_bonus() {
    let mut m = with_tray(["h2", "dot", "dot"]);
    fill(&mut m, (0..6).map(|c| idx(4, c)));
    let p = m.place(0, 4, 6).expect("fits");
    assert!(p.perfect);
    assert_eq!(p.gain, 20 + 100 + PERFECT_BONUS);
    assert_eq!(p.tier(), 6);
}

#[test]
fn a_new_tray_is_dealt_only_after_all_three_are_placed() {
    let mut m = with_tray(["dot", "dot", "dot"]);
    assert!(!m.place(0, 0, 0).unwrap().refilled);
    assert!(!m.place(1, 0, 2).unwrap().refilled);
    let p = m.place(2, 0, 4).unwrap();
    assert!(p.refilled);
    assert!(m.tray.iter().all(Option::is_some));
}

#[test]
fn the_game_ends_when_no_tray_piece_fits() {
    let mut m = with_tray(["dot", "sq3", "h5"]);
    fill(&mut m, (0..CELLS).filter(|i| (i / N + i % N) % 2 == 1));
    let p = m.place(0, 0, 0).expect("the dot fits");
    assert_eq!(p.lines(), 0);
    assert!(
        p.game_over,
        "neither the 3×3 nor the 1×5 fits the last hole"
    );
    assert!(m.game_over);
    assert!(m.place(1, 0, 0).is_none(), "no moves after the end");
}

#[test]
fn solvability_sees_orders_greedy_first_fit_would_miss() {
    let mut g: Grid = [Some(1); CELLS];
    for c in 5..N {
        g[idx(7, c)] = None;
    }
    for r in 5..7 {
        for c in 0..3 {
            g[idx(r, c)] = None;
        }
    }
    assert_eq!(
        solvable(&g, [shape("sq3"), shape("h3"), shape("dot")]),
        Some(true)
    );
    assert_eq!(
        solvable(&g, [shape("sq3"), shape("sq3"), shape("sq3")]),
        Some(false)
    );
}

#[test]
fn easy_always_deals_a_tray_that_can_be_placed() {
    let mut m = Model::new(11, Difficulty::Easy);
    let mut rng = Rng(99);
    for _ in 0..60 {
        let mut g: Grid = [None; CELLS];
        for cell in g.iter_mut() {
            if rng.below(100) < 62 {
                *cell = Some(2);
            }
        }
        g[idx(rng.below(N), rng.below(N))] = None;
        m.grid = g;
        m.refill();
        let shapes = m.tray.map(|p| p.expect("dealt").shape);
        assert_ne!(
            solvable(&m.grid, shapes),
            Some(false),
            "Easy dealt a dead tray"
        );
    }
}

#[test]
fn nearest_fit_prefers_the_middle() {
    let m = with_tray(["sq2", "dot", "dot"]);
    assert_eq!(m.nearest_fit(0), Some((3, 3)));
}

#[test]
fn lines_if_placed_previews_the_clear_without_changing_the_board() {
    let mut m = with_tray(["h2", "dot", "dot"]);
    fill(&mut m, (0..6).map(|c| idx(2, c)));
    let before = m.grid;
    assert_eq!(m.lines_if_placed(0, 2, 6), (vec![2], vec![]));
    assert_eq!(m.lines_if_placed(0, 3, 6), (vec![], vec![]));
    assert_eq!(m.grid, before);
}

#[test]
fn save_restore_round_trips_and_bad_saves_are_refused() {
    let mut m = with_tray(["T_up", "v3", "dot"]);
    m.place(1, 0, 0).unwrap();
    m.score = 1234;
    m.best = 5000;
    let saved = m.save_state();
    let mut r = Model::new(3, Difficulty::Hard);
    assert!(r.apply_save(saved));
    assert_eq!(r.grid, m.grid);
    assert_eq!(r.tray, m.tray);
    assert_eq!(
        (r.score, r.best, r.difficulty),
        (1234, 5000, Difficulty::Normal)
    );

    let mut bad = m.save_state();
    bad.tray[0] = Some(("hexagon".into(), 0));
    let mut r = Model::new(3, Difficulty::Hard);
    let before = r.grid;
    assert!(!r.apply_save(bad));
    assert_eq!(r.grid, before, "a refused save changes nothing");
    let mut short = m.save_state();
    short.grid.pop();
    assert!(!Model::new(3, Difficulty::Hard).apply_save(short));
}

#[test]
fn move_score_matches_the_published_table() {
    assert_eq!(move_score(4, 0, 0, false), 40);
    assert_eq!(move_score(3, 1, 1, false), 130);
    assert_eq!(move_score(3, 2, 2, false), (30 + 400) * 3 / 2);
    assert_eq!(move_score(5, 3, 9, false), (50 + 900) * 4);
    assert_eq!(move_score(1, 1, 1, true), 110 + PERFECT_BONUS);
}

#[test]
fn on_an_empty_board_the_first_random_set_is_kept() {
    // Any three shapes fit an empty board, so Normal and Easy keep their first draw: the very
    // set Hard, which never retries, deals from the same generator state.
    for seed in [3u64, 77, 1234] {
        let mut hard = Model::new(seed, Difficulty::Hard);
        hard.grid = [None; CELLS];
        let start = hard.rng.0;
        hard.refill();
        for difficulty in [Difficulty::Normal, Difficulty::Easy] {
            let mut m = Model::new(seed, difficulty);
            m.grid = [None; CELLS];
            m.rng = Rng(start);
            m.refill();
            assert_eq!(m.tray, hard.tray, "seed {seed}");
            assert_eq!(m.rng.0, hard.rng.0, "seed {seed}");
        }
    }
}
