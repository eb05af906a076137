use daygames::mines::{difficulties, Board, Cell, Difficulty, Outcome, SaveState, Settings};

fn board() -> Board {
    Board::new(9, 9, 10, 7)
}

/// Open the board from a corner, which lays the mines.
fn started() -> Board {
    let mut b = board();
    b.uncover(0);
    b
}

/// A revealed number that still has a hidden safe square beside it, so chording it has
/// something to open; a number whose hidden neighbors are all mines opens nothing.
fn chordable(b: &Board) -> usize {
    (0..b.cells())
        .find(|&i| {
            b.state[i] == Cell::Revealed
                && b.near[i] > 0
                && b.neighbors(i)
                    .iter()
                    .any(|&n| b.state[n] == Cell::Hidden && !b.mine[n])
        })
        .expect("a number with a hidden safe square beside it")
}

#[test]
fn a_board_holds_its_mines_and_counts_them() {
    let b = started();
    assert_eq!(b.mine.iter().filter(|m| **m).count(), 10);
    for i in 0..b.cells() {
        let around = b.neighbors(i).iter().filter(|&&n| b.mine[n]).count();
        assert_eq!(b.near[i] as usize, around, "cell {i}");
    }
}

#[test]
fn the_first_tap_is_safe_and_opens_a_clearing() {
    for seed in 1..40u64 {
        let mut b = Board::new(9, 9, 10, seed);
        let out = b.uncover(b.at(4, 4));
        assert!(
            out.boom.is_none(),
            "seed {seed} put a mine under the first tap"
        );
        // Its neighbors are clear too, so the first tap always opens more than one cell.
        assert!(
            out.revealed.len() >= 9,
            "seed {seed}: {} cells",
            out.revealed.len()
        );
    }
}

#[test]
fn mines_stay_off_the_first_tap_and_its_neighbors() {
    let mut b = Board::new(5, 5, 16, 3);
    let safe = b.at(2, 2);
    b.uncover(safe);
    for i in std::iter::once(safe).chain(b.neighbors(safe)) {
        assert!(!b.mine[i], "cell {i} under the opening");
    }
    assert_eq!(b.mine.iter().filter(|m| **m).count(), 16);
}

#[test]
fn a_board_with_no_room_for_its_mines_takes_what_fits() {
    let b = Board::new(3, 3, 20, 1);
    assert_eq!(b.mines, 0, "a 3x3 is all opening");
}

#[test]
fn a_blank_opens_its_whole_region_and_stops_at_the_numbers() {
    let mut b = started();
    let out = b.uncover(0);
    assert!(out.refused, "tapping a revealed blank again does nothing");
    // Every revealed blank has all of its neighbors revealed; every revealed number does not
    // have to.
    for i in 0..b.cells() {
        if b.state[i] == Cell::Revealed && b.near[i] == 0 {
            for n in b.neighbors(i) {
                assert_eq!(b.state[n], Cell::Revealed, "{n} beside blank {i}");
            }
        }
    }
    assert!(b.state.contains(&Cell::Hidden), "not the whole board");
}

#[test]
fn a_mine_ends_the_game() {
    let mut b = started();
    let mine = (0..b.cells()).find(|&i| b.mine[i]).unwrap();
    let out = b.uncover(mine);
    assert_eq!(out.boom, Some(mine));
    assert!(b.over() && !b.won);
    assert!(b.uncover(0).refused, "the board is finished");
    assert!(b.flag(1).refused);
}

#[test]
fn flags_toggle_and_hold_a_cell_shut() {
    let mut b = started();
    let hidden = (0..b.cells())
        .find(|&i| b.state[i] == Cell::Hidden)
        .unwrap();
    assert_eq!(b.flag(hidden).flagged, Some(hidden));
    assert_eq!(b.mines_left(), 9);
    assert!(b.uncover(hidden).refused, "a flagged cell does not open");
    assert_eq!(b.flag(hidden).unflagged, Some(hidden));
    assert_eq!(b.mines_left(), 10);
    assert!(b.flag(0).refused, "a revealed cell cannot be flagged");
}

#[test]
fn flagging_before_the_first_tap_lays_nothing() {
    let mut b = board();
    assert_eq!(b.flag(0).flagged, Some(0));
    assert!(!b.laid, "the mines wait for the first reveal");
    b.flag(0);
    let out = b.uncover(0);
    assert!(out.boom.is_none() && b.laid);
}

#[test]
fn chording_opens_the_rest_once_the_flags_match() {
    let mut b = started();
    // A revealed number whose mines are all flagged.
    let numbered = chordable(&b);
    assert!(b.chord(numbered).refused, "no flags yet");
    for n in b.neighbors(numbered) {
        if b.mine[n] {
            b.flag(n);
        }
    }
    let out = b.chord(numbered);
    assert!(out.chorded && !out.revealed.is_empty() && out.boom.is_none());
    assert!(b.chord(numbered).refused, "nothing left to open");
}

#[test]
fn chording_on_a_wrong_flag_ends_the_game() {
    // The first board with a revealed 1 that still has both a hidden mine and a hidden safe
    // square beside it: flag the safe one instead, and chording opens the mine.
    let mut tried = 0;
    for seed in 1..60u64 {
        let mut b = Board::new(9, 9, 10, seed);
        b.uncover(b.at(4, 4));
        let Some((numbered, wrong)) = (0..b.cells()).find_map(|i| {
            if b.state[i] != Cell::Revealed || b.near[i] != 1 {
                return None;
            }
            let around = b.neighbors(i);
            let mine = around
                .iter()
                .any(|&n| b.mine[n] && b.state[n] == Cell::Hidden);
            let safe = around
                .iter()
                .find(|&&n| !b.mine[n] && b.state[n] == Cell::Hidden)?;
            mine.then_some((i, *safe))
        }) else {
            continue;
        };
        b.flag(wrong);
        let out = b.chord(numbered);
        assert!(out.boom.is_some(), "seed {seed}: the chord opened the mine");
        assert!(b.over() && !b.won);
        tried += 1;
        if tried == 3 {
            return;
        }
    }
    panic!("no board offered a 1 with a hidden mine and a hidden safe square");
}

#[test]
fn tapping_a_number_chords_it() {
    let mut b = started();
    let numbered = chordable(&b);
    for n in b.neighbors(numbered) {
        if b.mine[n] {
            b.flag(n);
        }
    }
    let out = b.uncover(numbered);
    assert!(out.chorded, "a tap on a satisfied number chords");
}

#[test]
fn sweeping_every_safe_cell_wins_and_flags_the_rest() {
    let mut b = started();
    for i in 0..b.cells() {
        if !b.mine[i] {
            b.uncover(i);
        }
    }
    assert!(b.won && b.lost_at.is_none());
    assert_eq!(b.left_to_find(), 0);
    assert_eq!(b.mines_left(), 0, "the mines it never touched are flagged");
    assert!(b.state.iter().filter(|c| **c == Cell::Flagged).count() == b.mines);
}

#[test]
fn a_seed_lays_the_same_board_twice() {
    let mut a = Board::new(9, 9, 10, 99);
    let mut b = Board::new(9, 9, 10, 99);
    a.uncover(a.at(4, 4));
    b.uncover(b.at(4, 4));
    assert_eq!(a.mine, b.mine);
}

#[test]
fn a_game_in_progress_comes_back_from_its_save() {
    let mut b = started();
    b.flag(b.cells() - 1);
    let (back, d) = Board::from_save(b.save_state(Difficulty::Medium)).expect("restored");
    assert_eq!(d, Difficulty::Medium);
    assert_eq!(back.state, b.state);
    assert_eq!(back.near, b.near);
    assert_eq!(back.flags, b.flags);
    assert_eq!(back.revealed, b.revealed);
}

#[test]
fn a_finished_game_does_not_come_back() {
    let mut lost = started();
    let mine = (0..lost.cells()).find(|&i| lost.mine[i]).unwrap();
    lost.uncover(mine);
    assert!(Board::from_save(lost.save_state(Difficulty::Easy)).is_none());

    let mut won = started();
    for i in 0..won.cells() {
        if !won.mine[i] {
            won.uncover(i);
        }
    }
    assert!(Board::from_save(won.save_state(Difficulty::Easy)).is_none());
}

#[test]
fn the_board_turns_with_the_window() {
    for d in difficulties() {
        let (pc, pr) = d.shape(false);
        let (lc, lr) = d.shape(true);
        assert_eq!((pc, pr), (lr, lc), "{d:?} holds the same cells either way");
        assert!(pr >= pc, "{d:?} stands tall in portrait");
        assert!(pc * pr > d.mines(), "{d:?} has room for its mines");
        // Dense enough to be a puzzle, sparse enough to be fair.
        let density = d.mines() as f64 / (pc * pr) as f64;
        assert!((0.1..0.25).contains(&density), "{d:?}: {density}");
    }
}

#[test]
fn difficulties_give_their_sizes_and_indices() {
    assert_eq!(Difficulty::Easy.shape(false), (9, 9));
    assert_eq!(Difficulty::Medium.shape(false), (10, 15));
    assert_eq!(Difficulty::Medium.shape(true), (15, 10));
    assert_eq!(Difficulty::Hard.shape(false), (12, 20));
    assert_eq!(
        (Difficulty::Easy.mines(), Difficulty::Medium.mines(), Difficulty::Hard.mines()),
        (10, 25, 55)
    );
    assert_eq!(
        (Difficulty::Easy.index(), Difficulty::Medium.index(), Difficulty::Hard.index()),
        (0, 1, 2)
    );
}

#[test]
fn a_new_board_is_hidden_and_unlaid() {
    let b = Board::new(4, 5, 3, 8);
    assert_eq!(b.cells(), 20);
    assert_eq!(b.mines, 3);
    assert!(!b.laid && !b.live() && !b.over());
    assert!(b.state.iter().all(|c| *c == Cell::Hidden));
    assert_eq!(b.seed, 9, "the seed is made odd");
    assert_eq!(b.left_to_find(), 17);
    assert_eq!(b.at(3, 2), 11);
    assert_eq!(b.col_row(11), (3, 2));
}

#[test]
fn a_cell_has_up_to_eight_neighbors_on_the_board() {
    let b = Board::new(3, 3, 0, 1);
    assert_eq!(b.neighbors(0), vec![1, 3, 4]);
    assert_eq!(b.neighbors(4), vec![0, 1, 2, 3, 5, 6, 7, 8]);
    assert_eq!(b.neighbors(8), vec![4, 5, 7]);
    assert_eq!(b.neighbors(5), vec![1, 2, 4, 7, 8]);
}

#[test]
fn taps_off_the_board_are_refused() {
    let mut b = board();
    assert!(b.uncover(81).refused);
    assert!(b.flag(81).refused);
    assert!(!b.uncover(81).did_something());
    assert!(!b.laid, "a refused tap lays nothing");
}

#[test]
fn the_first_tap_goes_live_and_the_clock_may_run() {
    let mut b = board();
    assert!(!b.live());
    let out = b.uncover(40);
    assert!(out.did_something());
    assert!(b.live());
    assert_eq!(out.revealed[0], 40, "the tapped cell opens first");
    assert_eq!(b.revealed, out.revealed.len());
}

#[test]
fn an_empty_board_is_all_opening() {
    // A board with no mines opens whole on the first tap and is won at once.
    let mut b = Board::new(4, 4, 0, 5);
    let out = b.uncover(5);
    assert!(out.won && b.won);
    assert_eq!(out.revealed.len(), 16);
    assert_eq!(b.left_to_find(), 0);
}

fn save(b: &Board) -> SaveState {
    b.save_state(Difficulty::Hard)
}

#[test]
fn a_save_keeps_the_cells_as_bytes() {
    let mut b = started();
    let hidden = (0..b.cells()).find(|&i| b.state[i] == Cell::Hidden).unwrap();
    b.flag(hidden);
    let s = save(&b);
    assert_eq!(s.state[0], 2);
    assert_eq!(s.state[hidden], 1);
    assert_eq!((s.cols, s.rows, s.mines, s.laid, s.seed), (9, 9, 10, true, 7));
    assert_eq!(s.mine, b.mine);
}

#[test]
fn a_save_that_describes_no_board_is_refused() {
    let b = started();
    let mut short = save(&b);
    short.mine.pop();
    assert!(Board::from_save(short).is_none(), "a layout of the wrong size");

    let mut empty = save(&b);
    empty.cols = 0;
    empty.mine.clear();
    empty.state.clear();
    assert!(Board::from_save(empty).is_none(), "a board of no cells");

    let mut huge = save(&b);
    huge.cols = usize::MAX;
    assert!(Board::from_save(huge).is_none(), "a size that does not fit");

    let mut extra = save(&b);
    let spare = (0..81).find(|&i| !extra.mine[i] && extra.state[i] == 0).unwrap();
    extra.mine[spare] = true;
    assert!(Board::from_save(extra).is_none(), "more mines than the board holds");

    let mut early = save(&board());
    early.state[3] = 2;
    assert!(Board::from_save(early).is_none(), "an uncovered cell before the first tap");
}

#[test]
fn an_unstarted_game_comes_back_unlaid() {
    let mut b = board();
    b.flag(4);
    let (back, d) = Board::from_save(b.save_state(Difficulty::Easy)).expect("restored");
    assert_eq!(d, Difficulty::Easy);
    assert!(!back.laid);
    assert_eq!(back.state[4], Cell::Flagged);
    assert_eq!(back.flags, 1);
}

#[test]
fn settings_default_to_sound_and_easy() {
    let s = Settings::default();
    assert!(s.sounds && s.vibrations && !s.instructions_shown);
    assert_eq!(s.difficulty, Difficulty::Easy);
}

#[test]
fn an_outcome_says_whether_it_did_something() {
    let mut b = board();
    let out: Outcome = b.flag(3);
    assert!(out.did_something());
    assert!(!b.flag(99).did_something());
}
