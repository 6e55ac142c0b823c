use sigmars_lib::layout::split_rows;
use sigmars_lib::{BinaryTile, Board, BoardCoord, BoardParseError, ElementTile, MetalTile, Tile};

#[test]
fn every_symbol_stands_for_its_tile() {
    let pairs = [
        (' ', Tile::Empty),
        ('_', Tile::Empty),
        ('F', Tile::Element(ElementTile::Fire)),
        ('W', Tile::Element(ElementTile::Water)),
        ('A', Tile::Element(ElementTile::Air)),
        ('E', Tile::Element(ElementTile::Earth)),
        ('L', Tile::Binary(BinaryTile::Life)),
        ('D', Tile::Binary(BinaryTile::Death)),
        ('T', Tile::Theta),
        ('Q', Tile::Quicksilver),
        ('0', Tile::Metal(MetalTile::Lead)),
        ('1', Tile::Metal(MetalTile::Tin)),
        ('2', Tile::Metal(MetalTile::Iron)),
        ('3', Tile::Metal(MetalTile::Copper)),
        ('4', Tile::Metal(MetalTile::Silver)),
        ('5', Tile::Gold),
    ];
    for (symbol, tile) in pairs {
        assert_eq!(Tile::try_from(symbol), Ok(tile));
    }
    for symbol in ['f', 'X', '6', '\r', '\t', 'é'] {
        assert_eq!(
            Tile::try_from(symbol),
            Err(BoardParseError::UnexpectedTileCharacter(symbol))
        );
    }
}

#[test]
fn metals_are_ranked() {
    assert_eq!(MetalTile::Lead.rank(), 0);
    assert_eq!(MetalTile::Tin.rank(), 1);
    assert_eq!(MetalTile::Iron.rank(), 2);
    assert_eq!(MetalTile::Copper.rank(), 3);
    assert_eq!(MetalTile::Silver.rank(), 4);
}

#[test]
fn a_layout_fills_the_rows_in_order() {
    let board = Board::from_str(2, "F \n_5T\nQ4").unwrap();
    assert_eq!(
        board.as_slice(),
        &[
            Tile::Element(ElementTile::Fire),
            Tile::Empty,
            Tile::Empty,
            Tile::Gold,
            Tile::Theta,
            Tile::Quicksilver,
            Tile::Metal(MetalTile::Silver),
        ]
    );
    assert_eq!(board.get_tile(&BoardCoord::new(1, 2)), &Tile::Theta);
    assert_eq!(Board::from_str(1, "5").unwrap().as_slice(), &[Tile::Gold]);
}

#[test]
fn a_wrong_number_of_rows_is_refused() {
    assert_eq!(
        Board::from_str(2, "FF\n___").unwrap_err(),
        BoardParseError::InvalidRowCount(3, 2)
    );
    assert_eq!(
        Board::from_str(2, "FF\n___\n__\n").unwrap_err(),
        BoardParseError::InvalidRowCount(3, 4)
    );
    assert_eq!(Board::from_str(2, "").unwrap_err(), BoardParseError::InvalidRowCount(3, 1));
    // The number of rows is held against the grid before any row is read.
    assert_eq!(
        Board::from_str(3, "x\ny").unwrap_err(),
        BoardParseError::InvalidRowCount(5, 2)
    );
}

#[test]
fn a_wrong_row_length_is_refused() {
    assert_eq!(
        Board::from_str(2, "FF\n__\n__").unwrap_err(),
        BoardParseError::InvalidRowLength(3, 2)
    );
    assert_eq!(
        Board::from_str(2, "FFF\n___\n__").unwrap_err(),
        BoardParseError::InvalidRowLength(2, 3)
    );
    // A line feed at the end leaves a last row without cells.
    assert_eq!(
        Board::from_str(2, "FF\n___\n").unwrap_err(),
        BoardParseError::InvalidRowLength(2, 0)
    );
}

#[test]
fn an_unknown_symbol_is_refused() {
    assert_eq!(
        Board::from_str(2, "FF\n_x_\n__").unwrap_err(),
        BoardParseError::UnexpectedTileCharacter('x')
    );
    // The first fault in reading order is the one that is told.
    assert_eq!(
        Board::from_str(2, "Fy\n_x_\n_").unwrap_err(),
        BoardParseError::UnexpectedTileCharacter('y')
    );
    assert_eq!(
        Board::from_str(2, "FF\n__\n_z").unwrap_err(),
        BoardParseError::InvalidRowLength(3, 2)
    );
}

#[test]
fn carriage_returns_before_line_feeds_are_dropped() {
    let plain = Board::from_str(2, "FF\n___\n_5").unwrap();
    let dos = Board::from_str(2, "FF\r\n___\r\n_5").unwrap();
    assert_eq!(plain, dos);
    // At the end of the text a carriage return is a character of the row.
    assert_eq!(
        Board::from_str(2, "FF\r\n___\r\n_5\r").unwrap_err(),
        BoardParseError::InvalidRowLength(2, 3)
    );
}

#[test]
fn rows_of_a_text() {
    let rows: Vec<String> = split_rows("ab\r\n\ncd\r").into_iter().map(|row| row.into_iter().collect()).collect();
    assert_eq!(rows, vec!["ab".to_string(), "".to_string(), "cd\r".to_string()]);
    assert_eq!(split_rows("").len(), 1);
    assert_eq!(split_rows("\n").len(), 2);
}
