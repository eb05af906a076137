use daygames::solitaire::{
    deal_limits, deal_order, draw_modes, replays_to_win, Card, DealSearch, DrawMode, Limits, Model, Move, Pile,
    Rng, SCol, SState, Solver, Step, Table, Verdict, COLS, MAX_HIDDEN, SCORE_REVEAL, SCORE_TO_FOUNDATION,
};


/// "AS" is the ace of spades, "TH" the ten of hearts.
fn c(s: &str) -> Card {
    let b = s.as_bytes();
    let rank = match b[0] {
        b'A' => 1,
        b'T' => 10,
        b'J' => 11,
        b'Q' => 12,
        b'K' => 13,
        d => d - b'0',
    };
    let suit = match b[1] {
        b'S' => 0,
        b'H' => 1,
        b'C' => 2,
        _ => 3,
    };
    Card::new(suit, rank)
}

fn cards(spec: &str) -> Vec<Card> {
    spec.split_whitespace().map(c).collect()
}

/// A table with every card home except those placed. A suit is home up to its lowest card
/// placed, so a fixture places every card of a suit above that one somewhere.
fn endgame(tableau: [(&str, usize); COLS], stock: &str, waste: &str) -> Table {
    let mut t = Table::default();
    let mut placed = Vec::new();
    for (i, (spec, hidden)) in tableau.iter().enumerate() {
        t.tableau[i] = cards(spec);
        t.hidden[i] = *hidden;
        placed.extend(t.tableau[i].iter().copied());
    }
    t.stock = cards(stock);
    t.waste = cards(waste);
    placed.extend(t.stock.iter().chain(&t.waste).copied());
    for s in 0..4u8 {
        // A suit is home up to its lowest card still out.
        let low = placed
            .iter()
            .filter(|c| c.suit() == s)
            .map(|c| c.rank())
            .min()
            .unwrap_or(14);
        t.foundations[s as usize] = (1..low).map(|r| Card::new(s, r)).collect();
    }
    assert!(t.valid(), "the fixture is a real position: {t:?}");
    t
}

#[test]
fn a_deal_lays_out_the_classic_tableau() {
    let t = Table::deal(42);
    for col in 0..COLS {
        assert_eq!(t.tableau[col].len(), col + 1);
        assert_eq!(t.hidden[col], col, "only the last card is face up");
    }
    assert_eq!(t.stock.len(), 24);
    assert!(t.waste.is_empty() && t.valid());
    assert_eq!(t, Table::deal(42), "a seed always deals the same");
    assert_ne!(t, Table::deal(43));
}

#[test]
fn the_tableau_builds_down_in_alternating_colors_and_a_king_takes_an_empty_column() {
    let t = endgame(
        [
            ("KS", 0),
            ("QH", 0),
            ("QC", 0),
            ("JD", 0),
            ("", 0),
            ("", 0),
            ("", 0),
        ],
        "KC QD KD",
        "KH",
    );
    let m = Model::new(DrawMode::One, t, false);
    let (t0, t1, t2, t3, t4) = (
        Pile::Tableau(0),
        Pile::Tableau(1),
        Pile::Tableau(2),
        Pile::Tableau(3),
        Pile::Tableau(4),
    );
    assert!(m.can_shift(t1, 1, t0), "a red queen on a black king");
    assert!(!m.can_shift(t2, 1, t0), "not a black queen on a black king");
    assert!(m.can_shift(t3, 1, t2), "a red jack on a black queen");
    assert!(!m.can_shift(t3, 1, t0), "not two ranks down");
    assert!(m.can_shift(Pile::Waste, 1, t4), "a king to an empty column");
    assert!(!m.can_shift(t1, 1, t4), "a queen may not");
    assert!(!m.can_shift(Pile::Stock, 1, t4), "the stock only turns");
}

#[test]
fn foundations_build_up_by_suit_from_the_ace() {
    let mut t = Table::deal(7);
    let ace = c("AH");
    // Put the ace of hearts on the waste, wherever the deal left it.
    for col in t.tableau.iter_mut() {
        col.retain(|&x| x != ace);
    }
    t.stock.retain(|&x| x != ace);
    for (col, h) in t.tableau.iter().zip(t.hidden.iter_mut()) {
        *h = (*h).min(col.len().saturating_sub(1));
    }
    t.waste.push(ace);
    let mut m = Model::new(DrawMode::One, t, false);
    assert_eq!(m.table.foundation_slot(ace), Some(0));
    assert_eq!(
        m.table.foundation_slot(c("2H")),
        None,
        "a two needs its ace"
    );
    let out = m
        .apply(Move::Shift {
            from: Pile::Waste,
            count: 1,
            to: Pile::Foundation(0),
        })
        .expect("the ace goes home");
    assert_eq!(out.homed, Some(ace));
    assert_eq!(m.score, SCORE_TO_FOUNDATION);
    assert_eq!(m.table.foundation_slot(c("2H")), Some(0));
    assert_eq!(m.table.foundation_slot(c("2S")), None);
    assert_eq!(
        m.table.foundation_slot(c("AS")),
        Some(1),
        "the next empty pile"
    );
}

#[test]
fn draw_three_turns_three_and_recycles_in_the_same_order() {
    let mut t = Table::deal(3);
    let order: Vec<Card> = t.stock.iter().rev().copied().collect();
    t.waste.clear();
    let mut m = Model::new(DrawMode::Three, t, false);
    let out = m.apply(Move::Draw).unwrap();
    assert_eq!(out.drew, 3);
    assert_eq!(m.table.waste, order[..3].to_vec());
    assert_eq!(
        m.table.waste.last(),
        Some(&order[2]),
        "the third card is on top"
    );
    for _ in 0..7 {
        m.apply(Move::Draw).unwrap();
    }
    assert!(m.table.stock.is_empty());
    m.score = 50;
    let out = m.apply(Move::Draw).unwrap();
    assert!(out.recycled);
    assert_eq!(m.score, 30, "turning the waste over costs 20 in draw three");
    m.apply(Move::Draw).unwrap();
    assert_eq!(
        m.table.waste,
        order[..3].to_vec(),
        "the same cards come up again"
    );
    // In draw one it costs 100, and never takes the score below zero.
    let mut one = Model::new(DrawMode::One, Table::deal(3), false);
    for _ in 0..24 {
        one.apply(Move::Draw).unwrap();
    }
    one.score = 40;
    assert_eq!(one.apply(Move::Draw).unwrap().gain, -40);
    assert_eq!(one.score, 0);
}

#[test]
fn moving_off_a_face_down_card_turns_it_up_and_scores() {
    let t = endgame(
        [
            ("9C 8H", 1),
            ("9S", 0),
            ("", 0),
            ("", 0),
            ("", 0),
            ("", 0),
            ("", 0),
        ],
        "TS JS QS KS TC JC QC KC 9H TH JH QH KH",
        "",
    );
    let mut m = Model::new(DrawMode::One, t, false);
    let out = m
        .apply(Move::Shift {
            from: Pile::Tableau(0),
            count: 1,
            to: Pile::Tableau(1),
        })
        .expect("the eight of hearts goes on the nine of spades");
    assert_eq!(out.revealed, Some((0, c("9C"))));
    assert_eq!(m.table.hidden[0], 0);
    assert_eq!(m.score, SCORE_REVEAL);
    assert!(m.undo());
    assert_eq!(m.table.hidden[0], 1, "undo turns it back down");
    assert_eq!(m.score, 0);
    assert!(!m.undo(), "nothing more to undo");
}

#[test]
fn a_save_round_trips_and_a_tampered_one_is_refused() {
    let mut m = Model::new(DrawMode::Three, Table::deal(11), true);
    m.apply(Move::Draw).unwrap();
    m.apply(Move::Draw).unwrap();
    let s = m.save_state();
    let back = Model::from_save(s.clone()).expect("a save loads");
    assert_eq!(back.table, m.table);
    assert_eq!(
        (back.score, back.moves, back.mode),
        (m.score, m.moves, m.mode)
    );
    assert_eq!(back.history, m.history);
    let mut dup = s.clone();
    dup.table = dup.table.replacen('A', "B", 1);
    assert!(Model::from_save(dup).is_none(), "a card twice is refused");
    let mut bad = s;
    bad.table = "junk".into();
    assert!(Model::from_save(bad).is_none());
}

#[test]
fn a_table_comes_back_from_its_text() {
    let t = Table::deal(7);
    let text = t.encode();
    // Seven columns, each its face-down count then its cards, then stock, waste, foundations.
    assert_eq!(text.split(';').count(), 4);
    assert!(text.starts_with('0'));
    assert_eq!(Table::decode(&text), Some(t.clone()));
    let end = endgame(
        [("KS", 0), ("", 0), ("", 0), ("", 0), ("", 0), ("", 0), ("", 0)],
        "",
        "",
    );
    assert_eq!(Table::decode(&end.encode()), Some(end.clone()));
    let mut shifted = end.encode();
    shifted.insert(0, '1');
    assert_eq!(Table::decode(&shifted), None, "a stray character is no card");
    assert_eq!(Table::decode(""), None);
    assert_eq!(Table::decode("0;;;"), None, "six columns are missing");
}

#[test]
fn a_position_with_nothing_to_play_is_stuck() {
    // Only spades are left and spades never stack on spades. The ace is buried under the
    // king, every column is taken, and the red and club kings have no empty column to go to.
    let stuck = endgame(
        [
            ("AS KS", 1),
            ("2S", 0),
            ("3S", 0),
            ("4S", 0),
            ("5S", 0),
            ("6S", 0),
            ("7S", 0),
        ],
        "8S 9S TS JS QS",
        "",
    );
    let m = Model::new(DrawMode::One, stuck.clone(), false);
    assert!(m.stuck());
    assert_eq!(exhaustive(&stuck, DrawMode::One, 20_000), Some(false));
    assert_eq!(
        Solver::new(&stuck, DrawMode::One, deal_limits())
            .run(u64::MAX)
            .cloned(),
        Some(Verdict::Unwinnable)
    );
    // With a column free, the king moves over and the ace comes up.
    let live = endgame(
        [
            ("AS KS", 1),
            ("2S", 0),
            ("3S", 0),
            ("4S", 0),
            ("5S", 0),
            ("6S", 0),
            ("", 0),
        ],
        "7S 8S 9S TS JS QS",
        "",
    );
    assert!(!Model::new(DrawMode::One, live, false).stuck());
}

#[test]
fn finishing_plays_every_card_home() {
    let t = endgame(
        [
            ("KS QH JC", 0),
            ("KH QS", 0),
            ("KC QD JS", 0),
            ("KD QC JH", 0),
            ("JD", 0),
            ("", 0),
            ("", 0),
        ],
        "",
        "",
    );
    let mut m = Model::new(DrawMode::Three, t, false);
    assert!(m.can_finish());
    let mut n = 0;
    while let Some(mv) = m.finish_move() {
        m.apply(mv).expect("each finishing move is legal");
        n += 1;
    }
    assert!(m.won);
    assert_eq!(n, 12);
}

#[test]
fn the_solver_wins_an_endgame_and_the_line_replays() {
    let t = endgame(
        [
            ("8C 7D", 1),
            ("9H 8S", 0),
            ("7C", 0),
            ("9S", 0),
            ("TD 9C", 1),
            ("", 0),
            ("", 0),
        ],
        "KS KH KC KD QS QH QC QD JS JH JC JD TS TH TC 8H 9D 8D 7S 7H",
        "",
    );
    for mode in draw_modes() {
        let mut s = Solver::new(&t, mode, deal_limits());
        let Some(Verdict::Winnable(path)) = s.run(u64::MAX).cloned() else {
            panic!("{mode:?}: the endgame is winnable");
        };
        assert!(
            replays_to_win(&t, mode, &path),
            "{mode:?}: the line replays"
        );
    }
}

/// Why `steps` fail to replay, or `None` when they win.
fn replay_error(t: &Table, mode: DrawMode, steps: &[Step]) -> Option<String> {
    let mut m = Model::new(mode, t.clone(), false);
    for (i, &step) in steps.iter().enumerate() {
        let Some(moves) = m.moves_for(step) else {
            return Some(format!(
                "step {i} {step:?}: no moves for it at {}",
                m.table.encode()
            ));
        };
        for mv in moves {
            if m.apply(mv).is_none() {
                return Some(format!(
                    "step {i} {step:?}: {mv:?} refused at {}",
                    m.table.encode()
                ));
            }
        }
    }
    (!m.won).then(|| format!("no win after the steps: {}", m.table.encode()))
}

/// Every legal move, for the exhaustive search the solver is checked against.
fn every_move(m: &Model) -> Vec<Move> {
    let mut out = vec![Move::Draw];
    let froms = [Pile::Waste]
        .into_iter()
        .chain((0..4).map(Pile::Foundation))
        .chain((0..COLS).map(Pile::Tableau));
    let tos: Vec<Pile> = (0..4)
        .map(Pile::Foundation)
        .chain((0..COLS).map(Pile::Tableau))
        .collect();
    for from in froms {
        let most = match from {
            Pile::Tableau(c) => m.table.face_up(c),
            _ => 1,
        };
        for count in 1..=most {
            for &to in &tos {
                let mv = Move::Shift { from, count, to };
                if m.legal(mv) {
                    out.push(mv);
                }
            }
        }
    }
    out.retain(|&mv| m.legal(mv));
    out
}

/// Winnability by brute force over every legal move, no pruning at all; `None` past `cap`.
fn exhaustive(t: &Table, mode: DrawMode, cap: usize) -> Option<bool> {
    let mut seen = std::collections::HashSet::new();
    let mut stack = vec![t.clone()];
    while let Some(t) = stack.pop() {
        if t.won() {
            return Some(true);
        }
        if !seen.insert(t.encode()) {
            continue;
        }
        if seen.len() > cap {
            return None;
        }
        let m = Model::new(mode, t, false);
        for mv in every_move(&m) {
            let mut next = Model::new(mode, m.table.clone(), false);
            if next.apply(mv).is_some() {
                stack.push(next.table);
            }
        }
    }
    Some(false)
}

#[test]
fn every_win_the_solver_finds_on_real_deals_replays() {
    let small = Limits {
        streamlined: 1_500,
        restart: 2_000,
        restarts: 2,
        full: 4_000,
    };
    let mut wins = 0;
    for seed in 1..=12 {
        for mode in draw_modes() {
            let t = Table::deal(seed * 7919);
            if let Some(Verdict::Winnable(path)) =
                Solver::new(&t, mode, small).run(u64::MAX).cloned()
            {
                assert!(replays_to_win(&t, mode, &path), "seed {seed} {mode:?}");
                wins += 1;
            }
        }
    }
    assert!(wins > 6, "most deals are won quickly: {wins}");
}

#[test]
fn the_winnable_deal_search_is_deterministic_and_proven() {
    for mode in draw_modes() {
        let (a, proven) = DealSearch::new(15, mode).finish();
        assert!(proven, "{mode:?}: a winnable deal turns up");
        // Slicing the work differently finds the same deal.
        let mut sliced = DealSearch::new(15, mode);
        let b = loop {
            if let Some((t, _)) = sliced.step(97) {
                break t;
            }
        };
        assert_eq!(a, b, "{mode:?}");
    }
}

#[test]
fn the_search_key_ignores_the_order_of_the_columns() {
    let col = |cards: &[u8], hidden: u8| {
        let mut c = SCol { cards: [0; 19], len: cards.len() as u8, hidden };
        c.cards[..cards.len()].copy_from_slice(cards);
        c
    };
    let empty = col(&[], 0);
    let mut a = SState { cols: [empty; 7], found: [3, 0, 1, 0], talon: [0; 24], tlen: 3, w: 1 };
    a.talon[..3].copy_from_slice(&[40, 41, 42]);
    a.cols[0] = col(&[12, 24], 1);
    a.cols[2] = col(&[51], 0);
    a.cols[5] = col(&[7, 8, 9], 2);
    let mut b = a;
    b.cols.swap(0, 5);
    b.cols.swap(2, 6);
    for mode in draw_modes() {
        assert_eq!(a.key(mode), b.key(mode), "{mode:?}");
    }
    let mut c = a;
    c.cols[2] = col(&[50], 0);
    assert_ne!(a.key(DrawMode::One), c.key(DrawMode::One), "another card, another key");
}

#[test]
fn the_deal_goes_across_a_row_at_a_time() {
    let order = deal_order();
    assert_eq!(order.len(), 28);
    assert_eq!(&order[..8], &[(0, 0), (1, 0), (2, 0), (3, 0), (4, 0), (5, 0), (6, 0), (1, 1)]);
    assert_eq!(order[27], (6, 6));
}

#[test]
fn text_that_is_no_save_decodes_to_nothing() {
    assert_eq!(Table::decode("junk"), None);
    let t = Table::deal(11);
    let text = t.encode();
    // Write the first card of the stock where the last one stands: one card twice.
    let parts: Vec<&str> = text.split(';').collect();
    let stock = parts[1];
    let first = stock.chars().next().unwrap();
    let mut twice: String = stock.chars().take(stock.len() - 1).collect();
    twice.push(first);
    let broken = format!("{};{};{};{}", parts[0], twice, parts[2], parts[3]);
    assert_eq!(Table::decode(&broken), None);
}

#[test]
fn a_seed_always_deals_the_same_table_and_seeds_differ() {
    assert_eq!(Table::deal(5), Table::deal(5));
    assert_ne!(Table::deal(5), Table::deal(6));
    let t = Table::deal(5);
    let mut all = Vec::new();
    for col in 0..COLS {
        all.extend(t.tableau[col].iter().cloned());
    }
    all.extend(t.stock.iter().cloned());
    assert_eq!(all.len(), 52);
}

#[test]
fn a_search_without_a_verdict_spends_its_whole_budget() {
    let t = Table::deal(3);
    let mut s = Solver::new(&t, DrawMode::Three, deal_limits());
    let before = s.work;
    if s.run(5).is_none() {
        assert_eq!(s.work, before + 5);
    }
}
