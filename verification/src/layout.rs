//! The textual layout of a board: one line for each row of the grid, one
//! character for each cell.

use vstd::prelude::*;
use crate::board::{Board, Grid};
use crate::errors::BoardParseError;
use crate::math::{
    cells_before, lemma_cells_total, lemma_usable_small, row_count, row_length, rows, usable,
    width,
};
use crate::tile::{tile_of, Tile};

verus! {

/// The lines of a text: what stands between one line feed and the next, before
/// the first and after the last. A text without a line feed is one line.
pub open spec fn lines_of(text: Seq<char>) -> Seq<Seq<char>>
    decreases text.len(),
{
    if text.len() == 0 {
        seq![Seq::empty()]
    } else if text.last() == '\n' {
        lines_of(text.drop_last()).push(Seq::empty())
    } else {
        let before = lines_of(text.drop_last());
        before.drop_last().push(before.last().push(text.last()))
    }
}

/// A line without the carriage return at its end, if it has one.
pub open spec fn stripped(line: Seq<char>) -> Seq<char> {
    if line.len() > 0 && line.last() == '\r' {
        line.drop_last()
    } else {
        line
    }
}

/// The lines, each without the carriage return at its end.
pub open spec fn all_stripped(lines: Seq<Seq<char>>) -> Seq<Seq<char>> {
    lines.map_values(|line: Seq<char>| stripped(line))
}

/// The rows that a text holds: its lines, each but the last without the
/// carriage return before its line feed.
pub open spec fn rows_of(text: Seq<char>) -> Seq<Seq<char>> {
    all_stripped(lines_of(text).drop_last()).push(lines_of(text).last())
}

/// The first character of a line that stands for no tile.
pub open spec fn first_stranger(line: Seq<char>) -> Option<char>
    decreases line.len(),
{
    if line.len() == 0 {
        None
    } else if tile_of(line[0]) is None {
        Some(line[0])
    } else {
        first_stranger(line.drop_first())
    }
}

/// What is wrong with a line as row `row` of a grid, if anything: its
/// length, or else the first of its characters that stands for no tile.
pub open spec fn row_fault(size: nat, row: nat, line: Seq<char>) -> Option<BoardParseError> {
    if line.len() != width(size, row) {
        Some(
            BoardParseError::InvalidRowLength(width(size, row) as usize, line.len() as usize),
        )
    } else {
        match first_stranger(line) {
            Some(symbol) => Some(BoardParseError::UnexpectedTileCharacter(symbol)),
            None => None,
        }
    }
}

/// What is wrong with the first faulty row from row `row` on, if any is.
pub open spec fn fault_from(size: nat, lines: Seq<Seq<char>>, row: nat) -> Option<BoardParseError>
    decreases lines.len() - row,
{
    if row >= lines.len() {
        None
    } else {
        match row_fault(size, row, lines[row as int]) {
            Some(fault) => Some(fault),
            None => fault_from(size, lines, row + 1),
        }
    }
}

/// The tiles that the characters stand for.
pub open spec fn tiles_of(symbols: Seq<char>) -> Seq<Tile> {
    symbols.map_values(|symbol: char| tile_of(symbol)->0)
}

/// The board that a text lays out, or what is wrong with the text: the
/// number of its rows, or else the first fault of its first faulty row.
pub open spec fn layout(size: nat, text: Seq<char>) -> Result<Grid, BoardParseError> {
    let lines = rows_of(text);
    if lines.len() != rows(size) {
        Err(BoardParseError::InvalidRowCount(rows(size) as usize, lines.len() as usize))
    } else {
        match fault_from(size, lines, 0) {
            Some(fault) => Err(fault),
            None => Ok(Grid { size, tiles: tiles_of(lines.flatten()) }),
        }
    }
}

/// The characters of each line.
pub open spec fn texts(lines: Seq<Vec<char>>) -> Seq<Seq<char>> {
    lines.map_values(|line: Vec<char>| line@)
}

/// The rows that a text holds.
pub fn split_rows(text: &str) -> (lines: Vec<Vec<char>>)
    ensures
        texts(lines@) == rows_of(text@),
{
    let mut lines: Vec<Vec<char>> = Vec::new();
    let mut current: Vec<char> = Vec::new();
    assert(texts(lines@) =~= all_stripped(lines_of(text@.take(0)).drop_last()));
    for symbol in walk: text.chars()
        invariant
            walk.seq() == text@,
            texts(lines@) == all_stripped(lines_of(text@.take(walk.index() as int)).drop_last()),
            current@ == lines_of(text@.take(walk.index() as int)).last(),
    {
        let ghost before = lines_of(text@.take(walk.index() as int));
        proof {
            assert(text@.take(walk.index() + 1).drop_last() =~= text@.take(walk.index() as int));
        }
        if symbol == '\n' {
            let ghost raw = current@;
            if current.len() > 0 && current[current.len() - 1] == '\r' {
                current.pop();
            }
            proof {
                assert(current@ =~= stripped(raw));
                assert(before =~= before.drop_last().push(before.last()));
                assert(all_stripped(before) =~= all_stripped(before.drop_last()).push(
                    stripped(before.last()),
                ));
                assert(texts(lines@.push(current)) =~= texts(lines@).push(current@));
                assert(before.push(Seq::empty()).drop_last() =~= before);
            }
            lines.push(current);
            current = Vec::new();
        } else {
            current.push(symbol);
            proof {
                assert(before.drop_last().push(before.last().push(symbol)).drop_last()
                    =~= before.drop_last());
            }
        }
    }
    proof {
        assert(text@.take(text@.len() as int) =~= text@);
        assert(texts(lines@.push(current)) =~= rows_of(text@));
    }
    lines.push(current);
    lines
}

/// No character of the line before `upto` stands for no tile.
pub proof fn lemma_first_stranger_skips(line: Seq<char>, upto: int)
    requires
        0 <= upto <= line.len(),
        forall|k: int| 0 <= k < upto ==> tile_of(line[k]) is Some,
    ensures
        first_stranger(line) == first_stranger(line.skip(upto)),
    decreases upto,
{
    if upto > 0 {
        lemma_first_stranger_skips(line.drop_first(), upto - 1);
        assert(line.drop_first().skip(upto - 1) =~= line.skip(upto));
    } else {
        assert(line.skip(0) =~= line);
    }
}

impl Board {
    /// The board that a text lays out, or what is wrong with the text.
    pub fn from_str(size: usize, text: &str) -> (parsed: Result<Board, BoardParseError>)
        requires
            usable(size as nat),
        ensures
            match parsed {
                Ok(board) => layout(size as nat, text@) == Ok::<Grid, BoardParseError>(board@),
                Err(fault) => layout(size as nat, text@) == Err::<Grid, BoardParseError>(fault),
            },
    {
        let lines = split_rows(text);
        let line_count = row_count(size);
        if lines.len() != line_count {
            return Err(BoardParseError::InvalidRowCount(line_count, lines.len()));
        }
        let ghost marks = texts(lines@);
        let mut tiles: Vec<Tile> = Vec::new();
        let mut row: usize = 0;
        assert(marks.take(0).flatten() =~= Seq::empty());
        while row < lines.len()
            invariant
                usable(size as nat),
                row <= lines.len(),
                lines.len() == rows(size as nat),
                marks == texts(lines@),
                marks == rows_of(text@),
                fault_from(size as nat, marks, 0) == fault_from(size as nat, marks, row as nat),
                tiles@ == tiles_of(marks.take(row as int).flatten()),
                tiles@.len() == cells_before(size as nat, row as nat),
            decreases lines.len() - row,
        {
            let line = &lines[row];
            let expected = row_length(size, row);
            assert(marks[row as int] == line@);
            if line.len() != expected {
                return Err(BoardParseError::InvalidRowLength(expected, line.len()));
            }
            let ghost above = marks.take(row as int).flatten();
            let mut col: usize = 0;
            assert(above + line@.take(0) =~= above);
            while col < line.len()
                invariant
                    col <= line.len(),
                    row < lines.len(),
                    lines.len() == rows(size as nat),
                    marks == rows_of(text@),
                    marks.len() == lines.len(),
                    marks[row as int] == line@,
                    line@.len() == width(size as nat, row as nat),
                    fault_from(size as nat, marks, 0) == fault_from(
                        size as nat,
                        marks,
                        row as nat,
                    ),
                    forall|k: int| 0 <= k < col ==> tile_of(line@[k]) is Some,
                    tiles@ == tiles_of(above + line@.take(col as int)),
                decreases line.len() - col,
            {
                match Tile::try_from(line[col]) {
                    Ok(tile) => {
                        tiles.push(tile);
                        assert(above + line@.take(col + 1) =~= (above + line@.take(
                            col as int,
                        )).push(line@[col as int]));
                        assert(tiles@ =~= tiles_of(above + line@.take(col + 1)));
                    },
                    Err(fault) => {
                        proof {
                            lemma_first_stranger_skips(line@, col as int);
                            assert(line@.skip(col as int)[0] == line@[col as int]);
                            assert(first_stranger(line@) == Some(line@[col as int]));
                            assert(row_fault(size as nat, row as nat, line@) == Some(fault));
                        }
                        return Err(fault);
                    },
                }
                col = col + 1;
            }
            proof {
                lemma_first_stranger_skips(line@, line@.len() as int);
                assert(line@.take(line@.len() as int) =~= line@);
                assert(marks.take(row + 1) =~= marks.take(row as int).push(line@));
                marks.take(row as int).lemma_flatten_push(line@);
            }
            row = row + 1;
        }
        proof {
            assert(marks.take(lines.len() as int) =~= marks);
            lemma_cells_total(size as nat);
        }
        Ok(Board::from_tiles(size, tiles))
    }
}

} // verus!
