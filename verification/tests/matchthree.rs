use daygames::matchthree::{active, stage, Candy, Game, Phase, Save, Special, LEN, LEVELS, N};

fn blank() -> Game {
    let mut g = Game::new(0, 15);
    g.grid = (0..LEN)
        .map(|i| Some(Candy::plain(((i / N * 2 + i % N) % 5) as u8)))
        .collect();
    g
}

#[test]
fn generated_boards_are_stable_playable_and_valid() {
    for level in 0..LEVELS {
        for seed in 1..100 {
            let g = Game::new(level, seed);
            assert!(g.groups().is_empty());
            assert!(g.hint().is_some());
            assert!(Save { game: g, stars: [0; LEVELS] }.valid().is_some());
        }
    }
}

#[test]
fn invalid_swap_restores_everything_and_costs_no_move() {
    let mut g = blank();
    let before = g.clone();
    let turn = g.swap(0, 1);
    assert!(!turn.valid);
    assert_eq!(turn.frames.len(), 2);
    assert_eq!(g.grid, before.grid);
    assert_eq!(g.frost, before.frost);
    assert_eq!(
        (g.level, g.moves, g.score, g.collected, g.rng),
        (before.level, before.moves, before.score, before.collected, before.rng)
    );
    assert!(!g.swap(6, 7).valid);
}

#[test]
fn four_five_and_cross_make_specials() {
    for (count, expected) in [(4, Special::Row), (5, Special::Rainbow)] {
        let mut g = blank();
        for c in 0..count {
            g.grid[2 * N + c] = Some(Candy::plain(0));
        }
        g.grid[2 * N + 1] = Some(Candy::plain(1));
        g.grid[N + 1] = Some(Candy::plain(0));
        let turn = g.swap(N + 1, 2 * N + 1);
        assert!(turn.valid);
        assert!(turn.frames.iter().any(|f| f.phase == Phase::Fall
            && f.grid.iter().flatten().any(|c| c.special == expected)));
    }
    let mut g = blank();
    for i in [17, 23, 24, 26, 31] {
        g.grid[i] = Some(Candy::plain(0));
    }
    g.grid[25] = Some(Candy::plain(1));
    let t = g.swap(26, 25);
    assert!(t.valid);
    assert!(t.frames.iter().any(|f| {
        f.phase == Phase::Fall && f.grid.iter().flatten().any(|c| c.special == Special::Wrapped)
    }));
}

#[test]
fn rainbow_combo_and_frosting_resolve_without_double_counting() {
    let mut g = blank();
    g.grid[0].as_mut().unwrap().special = Special::Rainbow;
    g.grid[1].as_mut().unwrap().special = Special::Rainbow;
    g.frost.fill(2);
    let t = g.swap(0, 1);
    assert!(t.valid);
    let burst = t.frames.iter().find(|f| f.phase == Phase::Burst).unwrap();
    assert_eq!(burst.cleared.len(), LEN);
    assert_eq!(burst.points, LEN as u32 * 60);
    assert!(g.frost.iter().all(|&x| x <= 1));
    assert_eq!(g.moves, 21);
}

#[test]
fn seeded_play_survives_roundtrip_and_preserves_holes() {
    for level in 0..LEVELS {
        let mut g = Game::new(level, 15);
        for _ in 0..34 {
            if g.over() {
                break;
            }
            let (a, b) = g.hint().unwrap();
            assert!(g.swap(a, b).valid);
            assert!(g.groups().is_empty());
            for i in 0..LEN {
                assert_eq!(g.grid[i].is_some(), active(level, i));
            }
            let s = Save { game: g.clone(), stars: [0; LEVELS] };
            assert!(s.clone().valid().is_some());
        }
    }
}

#[test]
fn win_on_last_move_precedes_failure_and_unlocks() {
    let mut s = Save::new(15);
    s.game.score = stage(0).target;
    s.game.moves = 0;
    assert!(s.game.won());
    s.record();
    assert_eq!(s.stars[0], 1);
    assert!(s.unlocked(1));
    assert!(!s.unlocked(2));
}

#[test]
fn malformed_save_rejected() {
    let mut s = Save::new(15);
    s.game.grid.pop();
    assert!(s.valid().is_none());
    let mut s = Save::new(15);
    s.game.level = 99;
    assert!(s.valid().is_none());
}

#[test]
fn holes_split_gravity_wells() {
    let mut g = Game::new(2, 15);
    g.grid[2] = None;
    g.grid[4 * N + 2] = None;
    let motion = g.fall();
    for (from, to) in motion {
        if from < LEN {
            assert_eq!(from % N, to % N);
            assert!((from..=to).step_by(N).all(|i| active(g.level, i)));
        }
    }
}

#[test]
fn stripes_and_wrapped_combinations_chain() {
    for special in [Special::Row, Special::Column, Special::Wrapped] {
        let mut g = blank();
        g.grid[23].as_mut().unwrap().special = special;
        g.grid[24].as_mut().unwrap().special = Special::Row;
        let t = g.swap(23, 24);
        assert!(t.valid);
        let burst = t.frames.iter().find(|f| f.phase == Phase::Burst).unwrap();
        assert!(burst.cleared.contains(&3));
        assert!(burst.cleared.contains(&21));
        if special == Special::Wrapped {
            assert!(burst.cleared.contains(&16));
            assert!(burst.cleared.contains(&32));
        }
    }
}

#[test]
fn deterministic_levels_are_winnable() {
    // A greedy objective-aware player proves every authored stage can be completed.
    for level in 0..LEVELS {
        let st = stage(level);
        let mut g = Game::new(level, 15);
        let mut moves = vec![];
        while !g.over() {
            let mut best: Option<(u64, Game, usize, usize)> = None;
            for a in 0..LEN {
                for b in [a + 1, a + N] {
                    if !Game::adjacent(a, b) {
                        continue;
                    }
                    let mut next = g.clone();
                    let turn = next.swap(a, b);
                    if !turn.valid {
                        continue;
                    }
                    let gain = (g.frosting() - next.frosting()) as u64 * 10000
                        + (next.collected.min(st.collect) - g.collected.min(st.collect)) as u64 * 2000
                        + (next.score - g.score) as u64;
                    if best.as_ref().is_none_or(|(score, _, _, _)| gain > *score) {
                        best = Some((gain, next, a, b));
                    }
                }
            }
            let (_, next, a, b) = best.expect("a playable board");
            g = next;
            moves.push((a, b, g.score, g.moves));
        }
        println!("LEVEL {level}: {moves:?}");
        assert!(
            g.won(),
            "stage {level}: score {}, hearts {}, frost {}",
            g.score,
            g.collected,
            g.frosting()
        );
    }
}

#[test]
fn stage_table_and_board_shapes() {
    assert_eq!(stage(0).moves, 22);
    assert_eq!(stage(3).colors, 6);
    assert_eq!(stage(5).target, 3200);
    assert!(!active(1, 0));
    assert!(active(1, 1));
    assert!(!active(2, 3 * N + 2));
    assert!(!active(3, 0));
    assert!(active(3, 3));
    assert!(!active(5, 3 * N + 3));
    assert!(active(0, 48));
}

#[test]
fn neighbors_are_side_by_side_or_stacked() {
    assert!(Game::adjacent(0, 1));
    assert!(Game::adjacent(0, N));
    assert!(!Game::adjacent(6, 7));
    assert!(!Game::adjacent(48, 49));
    assert!(!Game::adjacent(0, 2));
}

#[test]
fn stars_follow_the_moves_left() {
    let mut g = blank();
    g.score = stage(0).target;
    g.moves = 10;
    assert_eq!(g.stars(), 3);
    g.moves = 5;
    assert_eq!(g.stars(), 2);
    g.moves = 4;
    assert_eq!(g.stars(), 1);
    g.score = 0;
    assert_eq!(g.stars(), 0);
    assert!(!g.over());
    g.moves = 0;
    assert!(g.over());
}

#[test]
fn a_new_level_carries_its_frosting() {
    let g = Game::new(4, 3);
    assert_eq!(g.frost[N + 1], 2);
    assert_eq!(g.frost[0], 0);
    assert_eq!(g.frosting(), 2 * 9);
    let g = Game::new(99, 3);
    assert_eq!(g.level, LEVELS - 1);
    assert_eq!(g.moves, 34);
}

#[test]
fn recording_a_level_never_lowers_its_stars() {
    let mut save = Save { game: Game::new(0, 3), stars: [2, 1, 0, 0, 0, 0] };
    save.game.score = 1_000_000;
    save.game.collected = 1_000;
    let before = save.stars;
    save.record();
    for k in 0..6 {
        assert!(save.stars[k] >= before[k]);
        if k != 0 {
            assert_eq!(save.stars[k], before[k]);
        }
    }
}

#[test]
fn a_seed_deals_the_same_board() {
    let a = Game::new(1, 99);
    let b = Game::new(1, 99);
    assert_eq!(a.grid, b.grid);
    assert_eq!(a.rng, b.rng);
}

#[test]
fn a_counted_swap_scores_exactly_its_bursts() {
    let mut g = Game::new(0, 15);
    if let Some((a, b)) = g.hint() {
        let before = g.score;
        let t = g.swap(a, b);
        assert!(t.valid);
        let points: u32 = t.frames.iter().map(|f| f.points).sum();
        assert_eq!(g.score, before + points);
        for f in &t.frames {
            if f.phase == Phase::Burst {
                let mult = if f.chain < 5 { f.chain } else { 5 };
                assert_eq!(f.points, f.cleared.len() as u32 * 60 * mult);
            } else {
                assert_eq!(f.points, 0);
            }
        }
    }
}
