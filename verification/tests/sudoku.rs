use daygames::sudoku::{difficulties, fmt_time, idx, is_consistent, Difficulty, Model, Records, Settings, CELLS};

fn model() -> Model {
    Model::new(0xC0FFEE, Difficulty::Easy)
}

/// Solve the whole board via the public input path (selection + place).
fn solve(m: &mut Model) {
    for i in 0..CELLS {
        if !m.original[i] {
            m.selected = Some(i);
            m.place(m.solution[i]);
        }
    }
}

#[test]
fn generated_puzzle_is_consistent_with_its_solution() {
    for seed in 1..40u64 {
        for d in difficulties() {
            let m = Model::new(seed, d);
            let mut full = Model::new(1, Difficulty::Easy);
            full.values = m.solution.clone();
            assert!(full.is_board_valid(), "seed {seed}: solution is a Sudoku");
            let clues = m.values.iter().filter(|&&v| v != 0).count();
            assert_eq!(clues, d.clues(), "seed {seed}: exact clue count");
            assert!(is_consistent(&m.values));
            for i in 0..CELLS {
                assert!(m.values[i] == 0 || m.values[i] == m.solution[i]);
                assert_eq!(m.original[i], m.values[i] != 0);
            }
        }
    }
}

/// The scripted walkthroughs run with seed 15 and tap cells 40–42 expecting them empty at
/// Medium. A generator change that fills one breaks the walkthrough, so it breaks here first.
#[test]
fn scripted_seed_keeps_the_walkthrough_cells_empty() {
    let m = Model::new(15, Difficulty::Medium);
    for i in [40usize, 41, 42] {
        assert!(!m.original[i], "cell {i} must be empty for seed 15");
    }
}

#[test]
fn removal_is_symmetric() {
    let m = Model::new(5, Difficulty::Hard);
    // With an even number of removals every hole has its 180° mate, bar the center.
    let asymmetric = (0..CELLS)
        .filter(|&i| i != 40 && (m.values[i] == 0) != (m.values[CELLS - 1 - i] == 0))
        .count();
    assert!(asymmetric <= 1, "at most the final unpaired removal");
}

#[test]
fn place_undo_redo_round_trip_with_peer_notes() {
    let mut m = model();
    let i = (0..CELLS).find(|&i| !m.original[i]).unwrap();
    let j = (0..CELLS)
        .find(|&j| Model::is_peer(i, j) && !m.original[j])
        .unwrap();
    let d = m.solution[i];
    m.selected = Some(j);
    m.notes_mode = true;
    m.place(d);
    m.notes_mode = false;
    assert_ne!(m.notes[j] & (1 << d), 0);

    m.selected = Some(i);
    assert!(m.place(d));
    assert_eq!(m.values[i], d);
    assert_eq!(m.notes[j] & (1 << d), 0, "peer note stripped");

    m.undo();
    assert_eq!(m.values[i], 0);
    assert_ne!(m.notes[j] & (1 << d), 0, "peer note restored");
    m.redo();
    assert_eq!(m.values[i], d);
    assert_eq!(m.notes[j] & (1 << d), 0, "peer note re-stripped");
}

#[test]
fn easy_flags_conflicts_and_locks_exhausted_digits() {
    let mut m = model();
    let empties: Vec<usize> = (0..CELLS).filter(|&i| !m.original[i]).collect();
    let i = empties[0];
    // A digit already present in i's row is a conflict in Easy.
    let row = i / 9;
    let dup = (0..9)
        .map(|c| m.values[idx(row, c)])
        .find(|&v| v != 0)
        .unwrap();
    m.selected = Some(i);
    assert!(m.place(dup));
    assert!(m.is_obvious_mistake(i));
    // Expert never flags.
    let mut e = Model::new(0xC0FFEE, Difficulty::Expert);
    let ei = (0..CELLS).find(|&i| !e.original[i]).unwrap();
    let erow = ei / 9;
    let edup = (0..9)
        .map(|c| e.values[idx(erow, c)])
        .find(|&v| v != 0)
        .unwrap();
    e.selected = Some(ei);
    assert!(e.place(edup));
    assert!(!e.is_obvious_mistake(ei));
    assert!(!e.is_exhausted(edup));
}

#[test]
fn checkpoint_revert_drops_session_and_keeps_prior_undo() {
    let mut m = model();
    let empties: Vec<usize> = (0..CELLS).filter(|&i| !m.original[i]).collect();
    m.selected = Some(empties[0]);
    m.place(m.solution[empties[0]]);
    let before = m.values.clone();

    m.enter_checkpoint();
    m.selected = Some(empties[1]);
    m.place(m.solution[empties[1]]);
    assert!(m.provisional[empties[1]]);
    m.revert_checkpoint();
    assert_eq!(m.values, before);
    assert!(m.can_undo());
    m.undo();
    assert_eq!(m.values[empties[0]], 0);
}

#[test]
fn checkpoint_commit_keeps_values_and_clears_provisional() {
    let mut m = model();
    let i = (0..CELLS).find(|&i| !m.original[i]).unwrap();
    m.enter_checkpoint();
    m.selected = Some(i);
    m.place(m.solution[i]);
    m.commit_checkpoint();
    assert_eq!(m.values[i], m.solution[i]);
    assert!(!m.provisional[i]);
    assert!(!m.can_undo(), "history cleared on commit");
}

#[test]
fn solving_sets_complete_and_records() {
    let mut m = model();
    m.elapsed_secs = 100;
    solve(&mut m);
    assert!(m.complete && m.new_best && m.locked());
    assert_eq!(m.records.best[Difficulty::Easy.index()], 100);
    assert_eq!(m.records.solved, 1);
    let records = m.records.clone();
    let mut m2 = Model::new(7, Difficulty::Easy);
    m2.records = records;
    m2.elapsed_secs = 200;
    solve(&mut m2);
    assert!(m2.complete && !m2.new_best);
    assert_eq!(m2.records.best[Difficulty::Easy.index()], 100);
    assert_eq!(m2.records.solved, 2);
}

#[test]
fn hint_fills_correct_digit_committed_and_spends_budget() {
    let mut m = Model::new(3, Difficulty::Medium);
    assert_eq!(m.hints_remaining, 3);
    let i = (0..CELLS).find(|&i| !m.original[i]).unwrap();
    m.enter_checkpoint();
    m.selected = Some(i);
    assert!(m.hint());
    assert_eq!(m.values[i], m.solution[i]);
    assert!(!m.provisional[i], "a hint is committed inside a checkpoint");
    assert_eq!(m.hints_remaining, 2);
    // With nothing selected the first empty cell takes the hint.
    m.selected = None;
    assert!(m.hint());
    assert_eq!(m.hints_remaining, 1);
    // Easy is unlimited; Hard grants none.
    let mut e = Model::new(3, Difficulty::Easy);
    for _ in 0..5 {
        assert!(e.hint());
    }
    assert_eq!(e.hints_remaining, -1);
    let h = Model::new(3, Difficulty::Hard);
    assert!(!h.can_hint());
}

#[test]
fn pause_stops_the_clock_and_input() {
    // The clock itself runs on the host; the model refuses input while paused.
    let mut m = model();
    let i = (0..CELLS).find(|&i| !m.original[i]).unwrap();
    m.paused = true;
    assert!(m.busy());
    m.selected = Some(i);
    assert!(!m.place(m.solution[i]));
    m.paused = false;
    assert!(m.place(m.solution[i]));
}

#[test]
fn arrows_move_the_selection() {
    let mut m = model();
    m.move_selection(0, 1);
    assert_eq!(m.selected, Some(idx(4, 5)));
    m.move_selection(-9, 0);
    assert_eq!(m.selected, Some(idx(0, 5)));
}

#[test]
fn save_restore_round_trips() {
    let mut m = model();
    let i = (0..CELLS).find(|&i| !m.original[i]).unwrap();
    m.selected = Some(i);
    m.notes_mode = true;
    m.place(3);
    m.notes_mode = false;
    m.elapsed_secs = 42;
    let s = m.save_state();
    let mut m2 = Model::new(99, Difficulty::Hard);
    assert!(m2.apply_save(s));
    assert_eq!(m2.values, m.values);
    assert_eq!(m2.notes, m.notes);
    assert_eq!(m2.difficulty, Difficulty::Easy);
    assert_eq!(m2.elapsed_secs, 42);
    assert!(m2.can_undo());
}

#[test]
fn inconsistent_save_is_rejected() {
    let m = model();
    let mut s = m.save_state();
    // A clue that contradicts the solution.
    let i = (0..CELLS).find(|&i| s.original[i]).unwrap();
    s.values[i] = s.solution[i] % 9 + 1;
    let mut m2 = Model::new(99, Difficulty::Hard);
    assert!(!m2.apply_save(s));
    assert_eq!(m2.difficulty, Difficulty::Hard, "untouched");
}

#[test]
fn give_up_fills_empties_keeps_wrong_entries_and_locks() {
    let mut m = model();
    let empties: Vec<usize> = (0..CELLS).filter(|&i| !m.original[i]).collect();
    let (i, j) = (empties[0], empties[1]);
    m.selected = Some(i);
    m.place(m.solution[i] % 9 + 1); // a wrong digit
    m.enter_checkpoint();
    m.give_up();
    assert!(m.given_up && m.locked() && !m.checkpoint_active);
    assert_ne!(m.values[i], m.solution[i], "the wrong entry stays");
    assert!(m.is_user_wrong(i));
    assert_eq!(m.values[j], m.solution[j]);
    assert!(m.given_up_fill[j] && !m.given_up_fill[i]);
    assert!(!m.complete, "give up is not a win");
    assert_eq!(m.records.solved, 0);
}

#[test]
fn times_read_as_minutes_and_hours() {
    assert_eq!(fmt_time(0), "00:00");
    assert_eq!(fmt_time(75), "01:15");
    assert_eq!(fmt_time(3599), "59:59");
    assert_eq!(fmt_time(3600), "1:00:00");
    assert_eq!(fmt_time(3 * 3600 + 7 * 60 + 9), "3:07:09");
    assert_eq!(fmt_time(12 * 3600), "12:00:00");
}

#[test]
fn difficulties_set_clues_and_hints() {
    let ds = difficulties();
    assert_eq!(ds.map(|d| d.clues()), [46, 36, 30, 26]);
    assert_eq!(ds.map(|d| d.hints()), [None, Some(3), Some(0), Some(0)]);
    assert_eq!(ds.map(|d| d.unlimited_hints()), [true, false, false, false]);
    assert_eq!(ds.map(|d| d.hints_enabled()), [true, true, false, false]);
    assert_eq!(ds.map(|d| d.highlights_same_digit()), [true, true, true, false]);
    assert_eq!(ds.map(|d| d.flags_mistakes()), [true, false, false, false]);
    for (i, d) in ds.iter().enumerate() {
        assert_eq!(d.index(), i);
        assert_eq!(Difficulty::from_index(i), *d);
    }
    assert_eq!(Difficulty::from_index(4), Difficulty::Medium);
    assert_eq!(Difficulty::from_index(usize::MAX), Difficulty::Medium);
}

#[test]
fn peers_share_a_row_a_column_or_a_box() {
    assert!(Model::is_peer(0, 8), "same row");
    assert!(Model::is_peer(0, 72), "same column");
    assert!(Model::is_peer(0, 20), "same box");
    assert!(!Model::is_peer(0, 0), "not itself");
    assert!(!Model::is_peer(0, 30));
    assert!(!Model::is_peer(40, 80));
    assert_eq!(idx(8, 8), 80);
}

#[test]
fn consistency_needs_81_cells_and_no_repeats() {
    assert!(is_consistent(&[0u8; 81]));
    assert!(!is_consistent(&[0u8; 80]));
    let mut g = [0u8; 81];
    g[0] = 5;
    g[8] = 5;
    assert!(!is_consistent(&g), "twice in a row");
    let mut g = [0u8; 81];
    g[0] = 5;
    g[72] = 5;
    assert!(!is_consistent(&g), "twice in a column");
    let mut g = [0u8; 81];
    g[0] = 5;
    g[20] = 5;
    assert!(!is_consistent(&g), "twice in a box");
    let mut g = [0u8; 81];
    g[0] = 5;
    g[30] = 5;
    assert!(is_consistent(&g), "not peers");
    let mut g = [0u8; 81];
    g[4] = 10;
    assert!(!is_consistent(&g), "a digit above nine");
}

#[test]
fn erase_clears_a_cell_and_undoes() {
    let mut m = model();
    let i = (0..CELLS).find(|&i| !m.original[i]).unwrap();
    m.selected = Some(i);
    assert!(!m.erase(), "nothing to erase");
    m.place(m.solution[i]);
    assert!(m.clears_with(m.solution[i]));
    assert!(m.erase());
    assert_eq!(m.values[i], 0);
    m.undo();
    assert_eq!(m.values[i], m.solution[i]);
    let clue = (0..CELLS).find(|&i| m.original[i]).unwrap();
    m.selected = Some(clue);
    assert!(m.clue_selected());
    assert!(!m.erase(), "a clue stays");
}

#[test]
fn the_same_digit_again_clears_the_cell() {
    let mut m = model();
    let i = (0..CELLS).find(|&i| !m.original[i]).unwrap();
    m.selected = Some(i);
    assert!(m.place(4));
    assert!(m.place(4));
    assert_eq!(m.values[i], 0);
    assert!(!m.place(0), "0 is no digit");
    assert!(!m.place(10), "10 is no digit");
    m.selected = None;
    assert!(!m.place(4), "nothing selected");
}

#[test]
fn arrows_stop_at_the_edges_and_start_at_the_center() {
    let mut m = model();
    m.move_selection(0, 0);
    assert_eq!(m.selected, Some(40));
    m.move_selection(100, 100);
    assert_eq!(m.selected, Some(80));
    m.move_selection(-100, -3);
    assert_eq!(m.selected, Some(5));
}

#[test]
fn conflicts_and_counts() {
    let mut m = model();
    let i = (0..CELLS).find(|&i| !m.original[i]).unwrap();
    m.selected = Some(i);
    let d = m.solution[i];
    let before = m.placed_count(d);
    m.place(d);
    assert_eq!(m.placed_count(d), before + 1);
    assert!(!m.has_conflict(i), "the solution's digit conflicts with nothing");
}

#[test]
fn a_save_with_a_history_off_the_board_is_rejected() {
    let mut m = model();
    let i = (0..CELLS).find(|&i| !m.original[i]).unwrap();
    m.selected = Some(i);
    m.place(m.solution[i]);
    let mut s = m.save_state();
    s.history[0].i = CELLS;
    let mut m2 = Model::new(99, Difficulty::Hard);
    assert!(!m2.apply_save(s));

    let mut s = m.save_state();
    s.cursor = 2;
    assert!(!m2.apply_save(s), "a cursor past the history");

    let mut s = m.save_state();
    s.solution[0] = 0;
    assert!(!m2.apply_save(s), "a solution with a hole");

    let mut s = m.save_state();
    s.notes.pop();
    assert!(!m2.apply_save(s), "a board of the wrong size");
}

#[test]
fn a_new_game_keeps_the_records() {
    let mut m = model();
    m.records.solved = 4;
    m.new_game(Difficulty::Hard);
    assert_eq!(m.records.solved, 4);
    assert_eq!(m.difficulty, Difficulty::Hard);
    assert_eq!(m.hints_remaining, 0);
    assert!(!m.can_undo() && !m.can_redo());
}

#[test]
fn settings_and_records_start_plain() {
    let s = Settings::default();
    assert!(s.sounds && s.vibrations && !s.instructions_shown);
    assert_eq!(s.default_difficulty, Difficulty::Medium);
    let r = Records::default();
    assert_eq!(r.best, [0; 4]);
    assert_eq!(r.solved, 0);
}

#[test]
fn a_seed_always_gives_the_same_puzzle() {
    let a = Model::new(42, Difficulty::Medium);
    let b = Model::new(42, Difficulty::Medium);
    assert_eq!(a.values, b.values);
    assert_eq!(a.solution, b.solution);
}
