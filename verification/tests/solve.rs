use sigmars_lib::{
    priority, solve_board, solve_dfs, Board, BoardCoord, MatchSet, MoveType, Solvable, Tile,
    Visited,
};

const LAYOUT: &str = "AF_L_E
____W__
T__WA__T
FWDAW___E
_TAA4_2QFA
D_FQLA_EFL_
QE___EFE0W
E_Q_3FW__
_QW__W_L
TF_ED__
5_D_1A";

const SMALL: &str = "QFA1
_E5__
AWW_DL
__WED_F
WLF_FE
_E0_Q
TAAT";

/// Plays a solution move by move and holds every move against the board.
fn replay(mut board: Board, solution: Vec<MatchSet>) {
    for match_set in solution {
        // Ensure all tiles in the match set are selectable.
        let selectables = board.selectable_tiles();
        for coord in match_set.iter() {
            assert!(
                selectables.iter().any(|(c, _)| c == coord),
                "Move set contains non-selectable tile {:?}",
                coord
            );
        }
        assert!(board.find_match_sets().contains(&match_set));
        board.remove_match_set(&match_set);
    }
    assert!(board.is_empty(), "Board not empty after solution");
}

#[test]
fn solves_a_full_board() {
    let board = Board::from_str(6, LAYOUT).unwrap();
    let solution = solve_board(&board);
    assert!(solution.is_some(), "No solution found");
    replay(board, solution.unwrap());
}

#[test]
fn solves_a_small_board() {
    let board = Board::from_str(4, SMALL).unwrap();
    let solution = solve_board(&board).unwrap();
    // One move for Gold, two tiles for every other move.
    assert_eq!(solution.len(), 14);
    replay(board, solution);
}

#[test]
fn an_empty_board_needs_no_move() {
    assert_eq!(solve_board(&Board::empty(3)), Some(Vec::new()));
}

#[test]
fn a_board_that_cannot_be_cleared_has_no_solution() {
    assert_eq!(solve_board(&Board::from_str(2, "F_\n___\n_W").unwrap()), None);
    // Two Fires and a Theta: whichever pair goes first, one tile is left.
    assert_eq!(solve_board(&Board::from_str(2, "FF\n_T_\n__").unwrap()), None);
    // Quicksilver walled in between two Leads.
    assert_eq!(solve_board(&Board::from_str(2, "0_\n_Q_\n_0").unwrap()), None);
}

#[test]
fn gold_goes_first_and_metals_in_their_order() {
    let board = Board::from_str(2, "01\n_Q_\nQ5").unwrap();
    let solution = solve_board(&board).unwrap();
    assert_eq!(
        solution,
        vec![
            MatchSet::from([BoardCoord::new(2, 1)]),
            MatchSet::from([BoardCoord::new(0, 0), BoardCoord::new(2, 0)]),
            MatchSet::from([BoardCoord::new(0, 1), BoardCoord::new(1, 1)]),
        ]
    );
    replay(board, solution);
}

#[test]
fn moves_are_told_apart_by_their_tiles() {
    let board = Board::from_str(2, "FT\nL5D\nQ0").unwrap();
    let at = |row, col| BoardCoord::new(row, col);
    let kind = |set: MatchSet| MoveType::identify(&board, &set);
    assert_eq!(kind(MatchSet::from([at(0, 0)])), MoveType::Element);
    assert_eq!(kind(MatchSet::from([at(0, 1)])), MoveType::ThetaTheta);
    assert_eq!(kind(MatchSet::from([at(0, 0), at(0, 1)])), MoveType::ElementTheta);
    assert_eq!(kind(MatchSet::from([at(1, 0), at(1, 2)])), MoveType::Duality);
    assert_eq!(kind(MatchSet::from([at(2, 0), at(2, 1)])), MoveType::Metal);
    assert_eq!(kind(MatchSet::from([at(2, 1)])), MoveType::Metal);
    assert_eq!(kind(MatchSet::from([at(1, 1)])), MoveType::Gold);
    assert_eq!(kind(MatchSet::from([at(1, 1), at(2, 1)])), MoveType::Unknown);
    assert_eq!(kind(MatchSet::from([at(0, 0), at(1, 0)])), MoveType::Unknown);
}

#[test]
fn places_of_the_kinds_of_moves() {
    let board = Board::from_str(3, "FFF\nWW_T\nLD5Q0\nT_1_\n___").unwrap();
    let at = |row, col| BoardCoord::new(row, col);
    let place = |set: MatchSet| priority(&board, &set);
    assert_eq!(place(MatchSet::from([at(2, 2)])), 0);
    assert_eq!(place(MatchSet::from([at(2, 3), at(2, 4)])), 1);
    // Two Waters are left, and three Fires.
    assert_eq!(place(MatchSet::from([at(1, 0), at(1, 1)])), 2);
    assert_eq!(place(MatchSet::from([at(0, 0), at(0, 1)])), 3);
    assert_eq!(place(MatchSet::from([at(2, 0), at(2, 1)])), 3);
    assert_eq!(place(MatchSet::from([at(2, 0), at(2, 2)])), 4);
    assert_eq!(place(MatchSet::from([at(1, 3), at(3, 0)])), 5);
    assert_eq!(place(MatchSet::from([at(1, 3), at(1, 1)])), 6);
}

#[test]
fn next_steps_are_the_moves_in_their_order() {
    let board = Board::from_str(6, LAYOUT).unwrap();
    let steps = board.next_steps();
    let moves = board.find_match_sets();
    assert_eq!(steps.len(), 57);
    assert_eq!(moves.len(), 57);
    for step in &steps {
        assert!(moves.contains(step));
    }
    for (i, step) in steps.iter().enumerate() {
        assert!(steps[..i].iter().all(|earlier| earlier != step));
    }
    let places: Vec<u8> = steps.iter().map(|step| priority(&board, step)).collect();
    assert!(places.windows(2).all(|pair| pair[0] <= pair[1]));
    assert_eq!(steps[0], MatchSet::from([BoardCoord::new(10, 0)]));
    assert_eq!(places.iter().filter(|&&place| place == 0).count(), 1);
    assert_eq!(places.iter().filter(|&&place| place == 3).count(), 17);
    assert_eq!(places.iter().filter(|&&place| place == 5).count(), 3);
    assert_eq!(places.iter().filter(|&&place| place == 6).count(), 36);
}

#[test]
fn goal_and_step() {
    let board = Board::from_str(2, "__\n_5_\n__").unwrap();
    assert!(!board.is_goal());
    let next = board.apply_step(&MatchSet::from([BoardCoord::new(1, 1)]));
    assert!(next.is_goal());
    assert_eq!(next, Board::empty(2));
    assert_eq!(board.get_tile(&BoardCoord::new(1, 1)), &Tile::Gold);
}

#[test]
fn visited_keeps_the_last_depth_of_a_board() {
    let mut seen = Visited::new();
    let one = Board::from_str(2, "__\n_5_\n__").unwrap();
    let other = Board::empty(2);
    assert_eq!(seen.get(&one), None);
    seen.insert(one.clone(), 4);
    assert_eq!(seen.get(&one), Some(4));
    assert_eq!(seen.get(&other), None);
    seen.insert(other.clone(), 7);
    seen.insert(one.clone(), 2);
    assert_eq!(seen.get(&one), Some(2));
    assert_eq!(seen.get(&other), Some(7));
}

#[test]
fn fingerprints_go_by_the_tiles() {
    assert_eq!(Board::from_str(1, "5").unwrap().fingerprint(), 14);
    assert_eq!(Board::empty(2).fingerprint(), 0);
    let board = Board::from_str(2, "AF\nWET\nLD").unwrap();
    assert_eq!(board.fingerprint(), 1864739008);
    assert_eq!(board.clone().fingerprint(), board.fingerprint());
    // Beyond 64 bits the fingerprint wraps around.
    let tiles: Vec<Tile> = "QFA1_E5__AWW_DLQFA1_E5__AWW_DL4"
        .chars()
        .map(|symbol| Tile::try_from(symbol).unwrap())
        .collect();
    assert_eq!(tiles.len(), 31);
    let mut wide = vec![Tile::Empty; 37];
    wide[6..].copy_from_slice(&tiles);
    assert_eq!(Board::from_tiles(4, wide).fingerprint(), 8974265641711646317);
    assert_eq!(Tile::Gold.code(), 14);
    assert_eq!(Tile::Empty.code(), 0);
}

#[test]
fn the_search_for_any_puzzle_solves_boards() {
    let board = Board::from_str(4, SMALL).unwrap();
    let solution = solve_dfs(&board).unwrap();
    assert_eq!(Some(solution.clone()), solve_board(&board));
    replay(board, solution);
    assert_eq!(solve_dfs(&Board::from_str(2, "F_\n___\n_W").unwrap()), None);
}

#[test]
fn what_a_board_offers_the_search() {
    let board = Board::from_str(2, "01\n_Q_\nQ5").unwrap();
    assert!(board.is_same(&board.copy()));
    assert!(!board.is_same(&Board::empty(2)));
    assert_eq!(board.digest(), board.fingerprint());
    let step = MatchSet::from([BoardCoord::new(2, 1)]);
    assert_eq!(Board::copy_step(&step), step);
    assert_eq!(board.next_steps()[0], step);
    assert_eq!(board.apply_step(&step), Board::from_str(2, "01\n_Q_\nQ_").unwrap());
}
