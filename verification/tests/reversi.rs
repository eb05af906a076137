use daygames::reversi::{Board, SaveState};

#[test]
fn opening_and_illegal_moves() {
    let mut b = Board::default();
    assert_eq!(b.legal(true), [19, 26, 37, 44]);
    let old = b;
    assert_eq!(b.play(27), None);
    assert_eq!(b.play(64), None);
    assert_eq!(b, old);
    assert_eq!(b.play(19), Some(1 << 27));
    assert_eq!((b.count(true), b.count(false), b.turn), (4, 1, false));
}

#[test]
fn captures_all_eight_directions_without_wrapping_edges() {
    let mut b = Board {
        black: 0,
        white: 0,
        turn: true,
    };
    for (dx, dy) in [
        (-1, -1),
        (0, -1),
        (1, -1),
        (-1, 0),
        (1, 0),
        (-1, 1),
        (0, 1),
        (1, 1),
    ] {
        b.white |= 1 << ((3 + dy) * 8 + 3 + dx);
        b.black |= 1 << ((3 + 2 * dy) * 8 + 3 + 2 * dx);
    }
    assert_eq!(b.play(27).unwrap().count_ones(), 8);
    let b = Board {
        black: 1 << 9,
        white: 1 << 8,
        turn: true,
    };
    assert_eq!(b.flips(7, true), 0);
}

#[test]
fn forced_pass_and_early_finish() {
    let mut b = Board {
        black: !(1 | (1 << 1) | (1 << 3) | (1 << 4)),
        white: (1 << 1) | (1 << 4),
        turn: true,
    };
    b.play(0).unwrap();
    assert!(b.turn, "white must pass");
    assert!(!b.finished());
    b.play(3).unwrap();
    assert!(b.finished());
    assert_eq!(b.count(true), 64);
    assert!(Board {
        black: 0b1111,
        white: 0,
        turn: true
    }
    .finished());
}

#[test]
fn seeded_games_terminate_and_conserve_discs() {
    for seed in 1..12 {
        let mut g = SaveState::new(0, 0, seed);
        for _ in 0..60 {
            let Some(i) = g.computer_move() else { break };
            let before = (g.board.black | g.board.white).count_ones();
            g.board.play(i).unwrap();
            assert_eq!(g.board.black & g.board.white, 0);
            assert_eq!((g.board.black | g.board.white).count_ones(), before + 1);
        }
        assert!(g.board.finished());
    }
}

#[test]
fn save_roundtrip_and_validation() {
    let mut g = SaveState::new(1, 2, 15);
    g.board.play(19);
    let restored = g.clone().apply_save().unwrap();
    assert_eq!(g.board, restored.board);
    assert_eq!(
        (restored.mode, restored.difficulty, restored.rng),
        (1, 2, 15)
    );
    g.board.white |= g.board.black;
    assert!(g.apply_save().is_none());
}

#[test]
fn opponents_choose_legal_moves_and_take_a_winning_corner() {
    for difficulty in 0..3 {
        let mut g = SaveState::new(0, difficulty, 15);
        let i = g.computer_move().unwrap();
        assert!(g.board.legal(true).contains(&i));
    }
    let mut g = SaveState::new(0, 2, 15);
    g.board = Board {
        black: 1 << 2,
        white: 1 << 1,
        turn: true,
    };
    assert_eq!(g.computer_move(), Some(0));
}

#[test]
fn the_opening_has_two_discs_a_side() {
    let b = Board::default();
    assert_eq!((b.count(true), b.count(false)), (2, 2));
    assert_eq!(b.discs(true), (1 << 28) | (1 << 35));
    assert_eq!(b.discs(false), (1 << 27) | (1 << 36));
    assert_eq!(b.legal(false), [20, 29, 34, 43]);
    assert!(!b.finished());
    assert_eq!(b.flips(28, true), 0, "an occupied square captures nothing");
    assert_eq!(b.flips(64, true), 0, "off the board");
}

#[test]
fn a_save_needs_its_modes_and_four_discs() {
    let g = SaveState::new(2, 0, 1);
    assert!(g.apply_save().is_none(), "no third mode");
    let g = SaveState::new(0, 3, 1);
    assert!(g.apply_save().is_none(), "no fourth difficulty");
    let mut g = SaveState::new(0, 0, 4);
    g.board.black = 1;
    g.board.white = 2;
    assert!(g.apply_save().is_none(), "fewer than four discs");
    let g = SaveState::new(1, 1, 4).apply_save().unwrap();
    assert_eq!(g.rng, 5, "the generator is made odd");
}

#[test]
fn a_side_without_a_move_passes_on_restore() {
    let mut g = SaveState::new(1, 0, 3);
    g.board = Board {
        black: 0b1111,
        white: 0,
        turn: false,
    };
    let r = g.apply_save().unwrap();
    assert!(r.board.turn, "white has no move, so black plays");
}

#[test]
fn no_move_no_computer_move() {
    let mut g = SaveState::new(0, 1, 9);
    g.board = Board {
        black: 0b1111,
        white: 0,
        turn: true,
    };
    assert_eq!(g.computer_move(), None);
    assert_eq!(g.rng, 9, "nothing drawn");
}

#[test]
fn the_easy_computer_draws_its_move() {
    let mut g = SaveState::new(0, 0, 7);
    let before = g.rng;
    let i = g.computer_move().unwrap();
    assert_ne!(g.rng, before, "one draw spent");
    assert!([19, 26, 37, 44].contains(&i));
}
