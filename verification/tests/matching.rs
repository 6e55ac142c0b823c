use sigmars_lib::tile::{find_first_with, find_lowest_metal};
use sigmars_lib::{
    BinaryTile, Board, BoardCoord, ElementTile, MatchSet, Matchable, MetalTile, Tile,
};

#[test]
fn test_no_matches_when_blocked() {
    // Place two Fire tiles and one Water tile in a line
    // i.e. no matches are selectable
    let board = Board::from_iter(
        3,
        vec![
            (BoardCoord::new(0, 0), Tile::Element(ElementTile::Fire)),
            (BoardCoord::new(1, 1), Tile::Element(ElementTile::Fire)),
            (BoardCoord::new(2, 2), Tile::Element(ElementTile::Water)),
        ],
    );
    let match_sets = board.find_match_sets();

    assert!(match_sets.is_empty());
}

#[test]
fn test_element_tile_matches_same_type() {
    // Place two Fire tiles and one Water tile
    let tiles = vec![
        (BoardCoord::new(0, 0), Tile::Element(ElementTile::Fire)),
        (BoardCoord::new(0, 1), Tile::Element(ElementTile::Fire)),
        (BoardCoord::new(2, 1), Tile::Element(ElementTile::Water)),
    ];
    let board = Board::from_iter(2, tiles);
    let match_sets = board.find_match_sets();

    assert!(match_sets.len() == 1);
    let match_set = match_sets.into_iter().next().unwrap();
    assert!(match_set.len() == 2);
    // Should only have fire matches.
    assert!(match_set.contains(&BoardCoord::new(0, 0)));
    assert!(match_set.contains(&BoardCoord::new(0, 1)));
}

#[test]
fn test_element_tile_does_not_match_other_types() {
    // Place two Fire tiles and one Water tile
    let tiles = vec![
        (BoardCoord::new(0, 0), Tile::Element(ElementTile::Fire)),
        (BoardCoord::new(0, 1), Tile::Element(ElementTile::Earth)),
        (BoardCoord::new(2, 1), Tile::Element(ElementTile::Water)),
    ];
    let board = Board::from_iter(2, tiles);
    let match_sets = board.find_match_sets();

    assert!(match_sets.is_empty());
}

#[test]
fn test_element_tile_does_not_match_self() {
    // Place one Fire tile
    let tiles = vec![(BoardCoord::new(1, 1), Tile::Element(ElementTile::Fire))];
    let board = Board::from_iter(2, tiles);
    let match_sets = board.find_match_sets();

    // Should not match with itself
    assert!(match_sets.is_empty());
}

#[test]
fn test_element_tile_multiple_matches() {
    // Place three Water tiles
    let tiles = vec![
        (BoardCoord::new(0, 0), Tile::Element(ElementTile::Water)),
        (BoardCoord::new(1, 2), Tile::Element(ElementTile::Water)),
        (BoardCoord::new(2, 0), Tile::Element(ElementTile::Water)),
    ];
    let board = Board::from_iter(2, tiles);
    let match_sets = board.find_match_sets();

    // Should match with both other Water tiles
    assert_eq!(match_sets.len(), 3);
    assert!(match_sets.contains(&MatchSet::from([
        BoardCoord::new(0, 0),
        BoardCoord::new(1, 2)
    ])));
    assert!(match_sets.contains(&MatchSet::from([
        BoardCoord::new(0, 0),
        BoardCoord::new(2, 0)
    ])));
    assert!(match_sets.contains(&MatchSet::from([
        BoardCoord::new(1, 2),
        BoardCoord::new(2, 0)
    ])));
}

#[test]
fn a_lone_gold_clears_itself() {
    let board = Board::from_iter(2, vec![(BoardCoord::new(1, 1), Tile::Gold)]);
    let match_sets = board.find_match_sets();
    assert_eq!(match_sets.len(), 1);
    assert!(match_sets.contains(&MatchSet::from([BoardCoord::new(1, 1)])));
}

#[test]
fn theta_takes_thetas_and_every_element() {
    let board = Board::from_str(2, "T_\nF_W\n_T").unwrap();
    let at = |row, col| BoardCoord::new(row, col);
    let match_sets = board.find_match_sets();
    assert_eq!(match_sets.len(), 5);
    assert!(match_sets.contains(&MatchSet::from([at(0, 0), at(2, 1)])));
    assert!(match_sets.contains(&MatchSet::from([at(0, 0), at(1, 0)])));
    assert!(match_sets.contains(&MatchSet::from([at(0, 0), at(1, 2)])));
    assert!(match_sets.contains(&MatchSet::from([at(2, 1), at(1, 0)])));
    assert!(match_sets.contains(&MatchSet::from([at(2, 1), at(1, 2)])));
    assert!(!match_sets.contains(&MatchSet::from([at(1, 0), at(1, 2)])));
}

#[test]
fn an_element_does_not_take_a_theta() {
    let board = Board::from_str(2, "T_\nF_W\n_T").unwrap();
    let candidates = board.selectable_tiles();
    let fire = Tile::Element(ElementTile::Fire);
    assert!(fire.filter_matches(&BoardCoord::new(1, 0), &board, &candidates).is_empty());
    assert!(ElementTile::Fire
        .filter_matches(&BoardCoord::new(1, 0), &board, &candidates)
        .is_empty());
    let found = Tile::Theta.filter_matches(&BoardCoord::new(0, 0), &board, &candidates);
    assert_eq!(found.len(), 3);
}

#[test]
fn opposites_take_each_other() {
    let board = Board::from_str(2, "L_\nD_L\n_D").unwrap();
    let at = |row, col| BoardCoord::new(row, col);
    let match_sets = board.find_match_sets();
    assert_eq!(match_sets.len(), 4);
    assert!(match_sets.contains(&MatchSet::from([at(0, 0), at(1, 0)])));
    assert!(match_sets.contains(&MatchSet::from([at(0, 0), at(2, 1)])));
    assert!(match_sets.contains(&MatchSet::from([at(1, 2), at(1, 0)])));
    assert!(match_sets.contains(&MatchSet::from([at(1, 2), at(2, 1)])));
    let candidates = board.selectable_tiles();
    let found = BinaryTile::Life.filter_matches(&at(0, 0), &board, &candidates);
    assert_eq!(found.len(), 2);
    assert!(!found.contains(&MatchSet::from([at(0, 0), at(1, 2)])));
}

#[test]
fn metals_and_empty_cells_find_nothing() {
    let board = Board::from_str(2, "0_\n_Q_\n_1").unwrap();
    let candidates = board.selectable_tiles();
    let at = BoardCoord::new(0, 0);
    assert!(Tile::Metal(MetalTile::Lead).filter_matches(&at, &board, &candidates).is_empty());
    assert!(Tile::Empty.filter_matches(&at, &board, &candidates).is_empty());
}

#[test]
fn quicksilver_takes_the_lowest_metal_of_the_board() {
    let at = |row, col| BoardCoord::new(row, col);
    // Lead and Tin are both selectable: Lead goes.
    let board = Board::from_str(2, "01\n___\nQ_").unwrap();
    let match_sets = board.find_match_sets();
    assert_eq!(match_sets.len(), 1);
    assert!(match_sets.contains(&MatchSet::from([at(2, 0), at(0, 0)])));
    // Lead is on the board but walled in: Tin has to wait.
    let board = Board::from_str(
        4,
        "QFA1\n_E5__\nAWW_DL\n__WED_F\nWLF_FE\n_E0_Q\nTAAT",
    )
    .unwrap();
    let candidates = board.selectable_tiles();
    assert!(candidates.contains(&(at(0, 0), Tile::Quicksilver)));
    assert!(candidates.contains(&(at(0, 3), Tile::Metal(MetalTile::Tin))));
    let match_sets = board.find_match_sets();
    assert_eq!(match_sets.len(), 8);
    assert!(match_sets
        .iter()
        .all(|set| !set.contains(&at(0, 0)) && !set.contains(&at(0, 3))));
    // No metal at all.
    let board = Board::from_str(2, "Q_\n___\n_Q").unwrap();
    assert!(board.find_match_sets().is_empty());
}

#[test]
fn quicksilver_takes_one_of_two_equal_metals() {
    let at = |row, col| BoardCoord::new(row, col);
    let board = Board::from_str(2, "0_\n__Q\n0_").unwrap();
    let match_sets = board.find_match_sets();
    assert_eq!(match_sets.len(), 1);
    assert!(match_sets.contains(&MatchSet::from([at(1, 2), at(0, 0)])));
}

#[test]
fn lowest_metal_and_first_holder() {
    let iron = Tile::Metal(MetalTile::Iron);
    let tin = Tile::Metal(MetalTile::Tin);
    assert_eq!(find_lowest_metal(&[Tile::Gold, iron, Tile::Empty, tin, iron]), Some(MetalTile::Tin));
    assert_eq!(find_lowest_metal(&[Tile::Gold, Tile::Quicksilver]), None);
    assert_eq!(find_lowest_metal(&[]), None);
    let cells = vec![
        (BoardCoord::new(0, 0), Tile::Gold),
        (BoardCoord::new(0, 1), iron),
        (BoardCoord::new(1, 1), iron),
    ];
    assert_eq!(find_first_with(&cells, iron), Some(BoardCoord::new(0, 1)));
    assert_eq!(find_first_with(&cells, tin), None);
}

#[test]
fn partners_take_each_other() {
    let board = Board::from_str(2, "TL\nF_F\nDT").unwrap();
    let candidates = board.selectable_tiles();
    assert_eq!(candidates.len(), 6);
    for (a, tile_a) in &candidates {
        for (b, tile_b) in &candidates {
            if a == b {
                continue;
            }
            let pair = MatchSet::from([*a, *b]);
            let there = tile_a.filter_matches(a, &board, &candidates).contains(&pair);
            let back = tile_b.filter_matches(b, &board, &candidates).contains(&pair);
            let theta_with_element =
                |x: &Tile, y: &Tile| *x == Tile::Theta && matches!(y, Tile::Element(_));
            if theta_with_element(tile_a, tile_b) {
                assert!(there && !back);
            } else if !theta_with_element(tile_b, tile_a) {
                assert_eq!(there, back);
            }
        }
    }
}

#[test]
fn a_walled_in_pair_finds_no_match() {
    // Two Fires and a Water inside a ring of Silver: none of the three has
    // three empty neighbours in a row.
    let walled = Board::from_str(3, "444\n4F44\n44W44\n44F4\n444").unwrap();
    let candidates = walled.selectable_tiles();
    assert_eq!(candidates.len(), 6);
    assert!(candidates.iter().all(|(_, tile)| *tile == Tile::Metal(MetalTile::Silver)));
    assert!(walled.find_match_sets().is_empty());
    // Without the ring the two Fires match.
    let open = Board::from_str(3, "___\n_F__\n__W__\n__F_\n___").unwrap();
    let match_sets = open.find_match_sets();
    assert_eq!(match_sets.len(), 1);
    assert!(match_sets.contains(&MatchSet::from([BoardCoord::new(1, 1), BoardCoord::new(3, 2)])));
}

#[test]
fn what_a_tile_takes_as_its_partner() {
    let here = BoardCoord::new(0, 0);
    let there = BoardCoord::new(1, 1);
    let fire = Tile::Element(ElementTile::Fire);
    let water = Tile::Element(ElementTile::Water);
    let life = Tile::Binary(BinaryTile::Life);
    let death = Tile::Binary(BinaryTile::Death);
    assert!(fire.takes(&here, &(there, fire)));
    assert!(!fire.takes(&here, &(here, fire)));
    assert!(!fire.takes(&here, &(there, water)));
    assert!(!fire.takes(&here, &(there, Tile::Theta)));
    assert!(Tile::Theta.takes(&here, &(there, Tile::Theta)));
    assert!(!Tile::Theta.takes(&here, &(here, Tile::Theta)));
    assert!(Tile::Theta.takes(&here, &(there, water)));
    assert!(!Tile::Theta.takes(&here, &(there, life)));
    assert!(life.takes(&here, &(there, death)));
    assert!(death.takes(&here, &(there, life)));
    assert!(!life.takes(&here, &(there, life)));
    assert!(!life.takes(&here, &(there, fire)));
    for tile in [Tile::Empty, Tile::Gold, Tile::Quicksilver, Tile::Metal(MetalTile::Lead)] {
        assert!(!tile.takes(&here, &(there, tile)));
        assert!(!tile.takes(&here, &(there, Tile::Metal(MetalTile::Lead))));
    }
}
