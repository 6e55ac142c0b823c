use sigmars_lib::math::board_area;
use sigmars_lib::{
    BinaryTile, Board, BoardCoord, ElementTile, MatchSet, MetalTile, Solvable, Tile,
};

const LAYOUT: &str = "AF_L_E
____W__
T__WA__T
FWDAW___E
_TAA4_2QFA
D_FQLA_EFL_
QE___EFE0W
E_Q_3FW__
_QW__W_L
TF_ED__
5_D_1A";

#[test]
fn empty_board_is_empty() {
    let board = Board::empty(3);
    assert!(board.is_empty());
    assert_eq!(board.size(), 3);
    assert_eq!(board.as_slice().len(), 19);
    assert!(board.tiles().all(|tile| *tile == Tile::Empty));
    assert!(board.nonempty_tiles().is_empty());
    assert!(board.selectable_tiles().is_empty());
}

#[test]
fn set_get_and_remove_a_tile() {
    let mut board = Board::empty(2);
    let coord = BoardCoord::new(1, 2);
    board.set_tile(&coord, Tile::Quicksilver);
    assert_eq!(board.get_tile(&coord), &Tile::Quicksilver);
    assert_eq!(board.as_slice()[4], Tile::Quicksilver);
    assert!(!board.is_empty());
    assert_eq!(board.nonempty_tiles(), vec![(coord, Tile::Quicksilver)]);
    board.remove_tile(&coord);
    assert_eq!(board.get_tile(&coord), &Tile::Empty);
    assert!(board.is_empty());
}

#[test]
fn from_tiles_keeps_row_major_order() {
    let mut tiles = vec![Tile::Empty; board_area(2)];
    tiles[5] = Tile::Gold;
    let board = Board::from_tiles(2, tiles);
    assert_eq!(board.get_tile(&BoardCoord::new(2, 0)), &Tile::Gold);
    assert_eq!(board.nonempty_tiles(), vec![(BoardCoord::new(2, 0), Tile::Gold)]);
}

#[test]
fn from_iter_keeps_the_later_tile() {
    let board = Board::from_iter(
        2,
        vec![
            (BoardCoord::new(0, 1), Tile::Theta),
            (BoardCoord::new(2, 1), Tile::Gold),
            (BoardCoord::new(0, 1), Tile::Metal(MetalTile::Iron)),
        ],
    );
    assert_eq!(board.get_tile(&BoardCoord::new(0, 1)), &Tile::Metal(MetalTile::Iron));
    assert_eq!(board.get_tile(&BoardCoord::new(2, 1)), &Tile::Gold);
    assert_eq!(board.nonempty_tiles().len(), 2);
}

#[test]
fn boards_are_equal_by_their_tiles() {
    let one = Board::from_iter(2, vec![(BoardCoord::new(0, 1), Tile::Theta)]);
    let mut other = Board::empty(2);
    assert!(one != other);
    assert!(!one.same(&other));
    other.set_tile(&BoardCoord::new(0, 1), Tile::Theta);
    assert!(one == other);
    assert!(one.same(&other));
    assert!(one.clone() == one);
    assert!(Board::empty(2) != Board::empty(3));
}

#[test]
fn remove_match_set_empties_its_cells_only() {
    let mut board = Board::from_str(2, "AF\nWET\nLD").unwrap();
    let gone = MatchSet::from([BoardCoord::new(0, 1), BoardCoord::new(2, 0)]);
    let kept = board.without_match_set(&gone);
    assert_eq!(board.nonempty_tiles().len(), 7);
    board.remove_match_set(&gone);
    assert!(board == kept);
    assert_eq!(board, Board::from_str(2, "A_\nWET\n_D").unwrap());
}

#[test]
fn cleared_cells_are_not_selectable_afterwards() {
    let board = Board::from_str(6, LAYOUT).unwrap();
    for step in board.find_match_sets().into_vec() {
        let next = board.without_match_set(&step);
        let selectable = next.selectable_tiles();
        for coord in step.iter() {
            assert!(selectable.iter().all(|(at, _)| at != coord));
            assert_eq!(next.get_tile(coord), &Tile::Empty);
        }
    }
}

#[test]
fn tiles_of_a_laid_out_board() {
    let board = Board::from_str(6, LAYOUT).unwrap();

    assert_eq!(board.tiles().filter(|t| t == &&Tile::Empty).count(), 36);
    assert_eq!(board.nonempty_tiles().len(), 55);
    let selectable_tiles = board.selectable_tiles();
    assert_eq!(selectable_tiles.len(), 24);
    assert_eq!(
        selectable_tiles,
        vec![
            (BoardCoord::new(0, 0), Tile::Element(ElementTile::Air)),
            (BoardCoord::new(0, 1), Tile::Element(ElementTile::Fire)),
            (BoardCoord::new(0, 3), Tile::Binary(BinaryTile::Life)),
            (BoardCoord::new(0, 5), Tile::Element(ElementTile::Earth)),
            (BoardCoord::new(1, 4), Tile::Element(ElementTile::Water)),
            (BoardCoord::new(2, 0), Tile::Theta),
            (BoardCoord::new(2, 3), Tile::Element(ElementTile::Water)),
            (BoardCoord::new(2, 7), Tile::Theta),
            (BoardCoord::new(3, 0), Tile::Element(ElementTile::Fire)),
            (BoardCoord::new(4, 6), Tile::Metal(MetalTile::Iron)),
            (BoardCoord::new(4, 9), Tile::Element(ElementTile::Air)),
            (BoardCoord::new(5, 0), Tile::Binary(BinaryTile::Death)),
            (BoardCoord::new(6, 9), Tile::Element(ElementTile::Water)),
            (BoardCoord::new(7, 0), Tile::Element(ElementTile::Earth)),
            (BoardCoord::new(7, 2), Tile::Quicksilver),
            (BoardCoord::new(7, 4), Tile::Metal(MetalTile::Copper)),
            (BoardCoord::new(8, 2), Tile::Element(ElementTile::Water)),
            (BoardCoord::new(8, 7), Tile::Binary(BinaryTile::Life)),
            (BoardCoord::new(9, 0), Tile::Theta),
            (BoardCoord::new(9, 3), Tile::Element(ElementTile::Earth)),
            (BoardCoord::new(10, 0), Tile::Gold),
            (BoardCoord::new(10, 2), Tile::Binary(BinaryTile::Death)),
            (BoardCoord::new(10, 4), Tile::Metal(MetalTile::Tin)),
            (BoardCoord::new(10, 5), Tile::Element(ElementTile::Air)),
        ]
    );
    assert_eq!(board.count_tile(&Tile::Element(ElementTile::Water)), 8);
    assert_eq!(board.count_tile(&Tile::Gold), 1);
    assert_eq!(board.count_tile(&Tile::Empty), 36);
}

/// The coordinate at which a board finds the tile that stands at place `idx`
/// of its tiles.
fn coord_of(size: usize, idx: usize) -> BoardCoord {
    let mut tiles = vec![Tile::Empty; board_area(size)];
    tiles[idx] = Tile::Gold;
    let board = Board::from_tiles(size, tiles);
    let found = board.nonempty_tiles();
    assert_eq!(found.len(), 1);
    assert_eq!(found[0].1, Tile::Gold);
    assert_eq!(board.get_tile(&found[0].0), &Tile::Gold);
    found[0].0
}

#[test]
fn board_test_index_to_coord_size_1() {
    // Only one tile at (0, 0)
    assert_eq!(coord_of(1, 0), BoardCoord::new(0, 0));
}

#[test]
fn board_test_index_to_coord_size_2() {
    // Row 0: 2 tiles
    assert_eq!(coord_of(2, 0), BoardCoord::new(0, 0));
    assert_eq!(coord_of(2, 1), BoardCoord::new(0, 1));
    // Row 1: 3 tiles
    assert_eq!(coord_of(2, 2), BoardCoord::new(1, 0));
    assert_eq!(coord_of(2, 3), BoardCoord::new(1, 1));
    assert_eq!(coord_of(2, 4), BoardCoord::new(1, 2));
    // Row 2: 2 tiles
    assert_eq!(coord_of(2, 5), BoardCoord::new(2, 0));
    assert_eq!(coord_of(2, 6), BoardCoord::new(2, 1));
}

#[test]
fn board_test_index_to_coord_size_3() {
    // Row 0: 3 tiles
    assert_eq!(coord_of(3, 0), BoardCoord::new(0, 0));
    assert_eq!(coord_of(3, 1), BoardCoord::new(0, 1));
    assert_eq!(coord_of(3, 2), BoardCoord::new(0, 2));
    // Row 1: 4 tiles
    assert_eq!(coord_of(3, 3), BoardCoord::new(1, 0));
    assert_eq!(coord_of(3, 4), BoardCoord::new(1, 1));
    assert_eq!(coord_of(3, 5), BoardCoord::new(1, 2));
    assert_eq!(coord_of(3, 6), BoardCoord::new(1, 3));
    // Row 2: 5 tiles
    assert_eq!(coord_of(3, 7), BoardCoord::new(2, 0));
    assert_eq!(coord_of(3, 8), BoardCoord::new(2, 1));
    assert_eq!(coord_of(3, 9), BoardCoord::new(2, 2));
    assert_eq!(coord_of(3, 10), BoardCoord::new(2, 3));
    assert_eq!(coord_of(3, 11), BoardCoord::new(2, 4));
    // Row 3: 4 tiles
    assert_eq!(coord_of(3, 12), BoardCoord::new(3, 0));
    assert_eq!(coord_of(3, 13), BoardCoord::new(3, 1));
    assert_eq!(coord_of(3, 14), BoardCoord::new(3, 2));
    assert_eq!(coord_of(3, 15), BoardCoord::new(3, 3));
    // Row 4: 3 tiles
    assert_eq!(coord_of(3, 16), BoardCoord::new(4, 0));
    assert_eq!(coord_of(3, 17), BoardCoord::new(4, 1));
    assert_eq!(coord_of(3, 18), BoardCoord::new(4, 2));
}

#[test]
fn board_test_index_to_coord_size_6() {
    let total_tiles = board_area(6);
    for idx in 0..total_tiles {
        let coord = coord_of(6, idx);
        let back_idx = coord.as_index(6);
        assert_eq!(
            idx, back_idx,
            "Index to coord and back failed for index {}",
            idx
        );
    }

    assert_eq!(coord_of(6, 16), BoardCoord::new(2, 3));
}

#[test]
fn board_test_no_matches_when_blocked() {
    // Place two Fire tiles and one Water tile in a line
    // i.e. no matches are selectable
    let mut board = Board::empty(3);
    board.set_tile(&BoardCoord::new(0, 0), Tile::Element(ElementTile::Fire));
    board.set_tile(&BoardCoord::new(1, 1), Tile::Element(ElementTile::Fire));
    board.set_tile(&BoardCoord::new(2, 2), Tile::Element(ElementTile::Water));
    let match_sets = board.find_match_sets();

    assert!(match_sets.is_empty());
    assert!(board.next_steps().is_empty());
}
