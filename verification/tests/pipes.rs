use daygames::pipes::{neighbor, rotate, solution, SaveState, SIZES};

#[test]
fn rotations_keep_ports_and_return_to_start() {
    assert_eq!([rotate(1), rotate(2), rotate(4), rotate(8)], [2, 4, 8, 1]);
    for mask in 1..16 {
        let mut m = mask;
        for _ in 0..4 {
            m = rotate(m);
            assert_eq!(m.count_ones(), mask.count_ones());
        }
        assert_eq!(m, mask);
    }
}

#[test]
fn generation_is_solvable_nontrivial_and_deterministic() {
    for size in SIZES {
        for seed in 0..100 {
            let mut b = SaveState::new(size, seed);
            assert_eq!(b, SaveState::new(size, seed));
            assert!(!b.network().solved());
            assert_eq!(
                b.tiles.iter().map(|m| m.count_ones()).sum::<u32>(),
                2 * (size * size - 1) as u32
            );
            b.tiles = solution(size, seed);
            assert!(b.network().solved());
        }
    }
    assert_ne!(SaveState::new(5, 1).tiles, SaveState::new(5, 3).tiles);
}

#[test]
fn ports_must_match_and_cannot_wrap() {
    let b = SaveState {
        size: 3,
        seed: 1,
        tiles: vec![0, 0, 2, 8, 2, 8, 0, 0, 0],
        locked: vec![false; 9],
        moves: 0,
    };
    assert_eq!(b.network().connected, 2);
    assert_eq!(b.network().leaks, 2);
    let mut b = b;
    b.tiles[5] = 2;
    assert_eq!(b.network().connected, 1);
    assert!(!b.network().solved());
}

#[test]
fn locked_tiles_and_finished_boards_reject_moves() {
    let mut b = SaveState::new(5, 15);
    let i = b.tiles.iter().position(|&m| m != 15).unwrap();
    b.toggle_lock(i);
    let before = b.clone();
    assert!(!b.turn(i));
    assert_eq!(b, before);
    b.toggle_lock(i);
    assert!(b.turn(i));
    assert_eq!(b.moves, 1);
    assert!(!b.turn(usize::MAX));
    b.tiles = solution(b.size, b.seed);
    assert!(!b.turn(i));
    assert!(!b.toggle_lock(i));
}

#[test]
fn restart_and_save_restore_preserve_the_puzzle() {
    let mut b = SaveState::new(7, 15);
    let original = b.clone();
    b.turn(0);
    b.toggle_lock(1);
    assert_eq!(b.save_state().apply_save().unwrap(), b);
    b.restart();
    assert_eq!(b, original);
    let mut bad = b.clone();
    bad.tiles.pop();
    assert!(bad.apply_save().is_none());
    let mut bad = b.clone();
    bad.locked.clear();
    assert!(bad.apply_save().is_none());
    let mut bad = b.clone();
    bad.tiles[0] = 0;
    assert!(bad.apply_save().is_none());
    b.size = usize::MAX;
    assert!(b.apply_save().is_none());
}

#[test]
fn a_full_solution_can_be_reached_using_only_player_rotations() {
    let mut b = SaveState::new(5, 15);
    let solved = solution(b.size, b.seed);
    for (i, &want) in solved.iter().enumerate() {
        for _ in 0..4 {
            if b.tiles[i] == want {
                break;
            }
            assert!(b.turn(i));
        }
        assert_eq!(b.tiles[i], want);
    }
    assert!(b.network().solved());
    // Shared with the scripted walkthrough; keep this identical on 32- and 64-bit targets.
    assert_eq!(b.moves, 33);
}

#[test]
fn neighbors_stay_on_the_board() {
    assert_eq!(neighbor(5, 0, 0), None);
    assert_eq!(neighbor(5, 0, 3), None);
    assert_eq!(neighbor(5, 4, 1), None);
    assert_eq!(neighbor(5, 0, 1), Some(1));
    assert_eq!(neighbor(5, 0, 2), Some(5));
    assert_eq!(neighbor(5, 24, 2), None);
    assert_eq!(neighbor(5, 12, 0), Some(7));
    assert_eq!(neighbor(5, 12, 3), Some(11));
}

#[test]
fn a_solution_is_a_spanning_tree_without_leaks() {
    for size in SIZES {
        let tiles = solution(size, 7);
        assert_eq!(tiles.len(), size * size);
        let b = SaveState { size, seed: 7, locked: vec![false; tiles.len()], tiles, moves: 0 };
        let net = b.network();
        assert_eq!(net.leaks, 0);
        assert_eq!(net.connected, size * size);
        assert_eq!(net.distance[size * size / 2], Some(0));
    }
}
