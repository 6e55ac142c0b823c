//! The board: a grid of tiles, the neighbours of a cell, the rule that makes
//! a tile selectable, and the moves that a position offers.

use vstd::prelude::*;
use vstd::std_specs::cmp::PartialEqSpecImpl;
use vstd::std_specs::iter::IteratorSpec;
use vstd::std_specs::slice::axiom_spec_slice_iter;
use crate::coord::{
    lemma_at_of_index, lemma_index_in_range, lemma_index_of_at, BoardCoord, MatchSet, MatchSets,
};
use crate::math::{
    area, board_area, lemma_usable_small, row_count, row_length, rows, usable, width,
};
use crate::tile::{Matchable, Tile};

verus! {

/// The mathematical board: the size of the grid and the tiles of its cells
/// in row-major order.
pub struct Grid {
    pub size: nat,
    pub tiles: Seq<Tile>,
}

impl Grid {
    /// The grid has a usable size and one tile for each of its cells.
    pub open spec fn wf(self) -> bool {
        usable(self.size) && self.tiles.len() == area(self.size)
    }

    /// The coordinate names a cell of this grid.
    pub open spec fn has(self, coord: BoardCoord) -> bool {
        coord.in_grid(self.size)
    }

    /// The tile at a coordinate.
    pub open spec fn tile(self, coord: BoardCoord) -> Tile {
        self.tiles[coord.index(self.size) as int]
    }

    /// The grid with the tile at `coord` replaced.
    pub open spec fn put(self, coord: BoardCoord, tile: Tile) -> Grid {
        Grid { size: self.size, tiles: self.tiles.update(coord.index(self.size) as int, tile) }
    }

    /// Every cell is empty.
    pub open spec fn cleared(self) -> bool {
        forall|i: int| 0 <= i < self.tiles.len() ==> self.tiles[i] == Tile::Empty
    }

    /// The grid of the given size with every cell empty.
    pub open spec fn blank(size: nat) -> Grid {
        Grid { size, tiles: Seq::new(area(size), |i: int| Tile::Empty) }
    }

    /// The grid with every cell of `gone` emptied.
    pub open spec fn without(self, gone: Set<BoardCoord>) -> Grid {
        Grid {
            size: self.size,
            tiles: Seq::new(
                self.tiles.len(),
                |i: int|
                    if gone.contains(BoardCoord::at(self.size, i as nat)) {
                        Tile::Empty
                    } else {
                        self.tiles[i]
                    },
            ),
        }
    }

    /// The grid with the given tiles placed one after the other, a later
    /// one replacing an earlier one at the same coordinate.
    pub open spec fn with_cells(self, cells: Seq<(BoardCoord, Tile)>) -> Grid
        decreases cells.len(),
    {
        if cells.len() == 0 {
            self
        } else {
            self.with_cells(cells.drop_last()).put(cells.last().0, cells.last().1)
        }
    }

    /// The cells of the grid in row-major order, each with its tile.
    pub open spec fn cells(self) -> Seq<(BoardCoord, Tile)> {
        Seq::new(self.tiles.len(), |i: int| (BoardCoord::at(self.size, i as nat), self.tiles[i]))
    }

    /// The test for a cell that holds a tile.
    pub open spec fn is_occupied() -> spec_fn((BoardCoord, Tile)) -> bool {
        |cell: (BoardCoord, Tile)| cell.1 != Tile::Empty
    }

    /// The test for a cell that holds a selectable tile.
    pub open spec fn is_candidate(self) -> spec_fn((BoardCoord, Tile)) -> bool {
        |cell: (BoardCoord, Tile)| cell.1 != Tile::Empty && self.selectable(cell.0)
    }

    /// The cells that hold a tile, in row-major order.
    pub open spec fn occupied(self) -> Seq<(BoardCoord, Tile)> {
        self.cells().filter(Self::is_occupied())
    }

    /// The cells that hold a selectable tile, in row-major order.
    pub open spec fn candidates(self) -> Seq<(BoardCoord, Tile)> {
        self.cells().filter(self.is_candidate())
    }

    /// The cell is on the grid and holds a selectable tile.
    pub open spec fn candidate(self, coord: BoardCoord) -> bool {
        self.has(coord) && self.tile(coord) != Tile::Empty && self.selectable(coord)
    }

    /// The test for a tile other than `Empty`.
    pub open spec fn is_tile() -> spec_fn(Tile) -> bool {
        |tile: Tile| tile != Tile::Empty
    }

    /// The test for a given tile.
    pub open spec fn is_same(tile: Tile) -> spec_fn(Tile) -> bool {
        |held: Tile| held == tile
    }

    /// Number of cells that hold a tile.
    pub open spec fn tiles_left(self) -> nat {
        self.tiles.filter(Self::is_tile()).len()
    }

    /// Number of cells that hold the given tile.
    pub open spec fn count(self, tile: Tile) -> nat {
        self.tiles.filter(Self::is_same(tile)).len()
    }

    /// The match sets that the candidate at place `i` of `candidates` forms
    /// with the candidates.
    pub open spec fn moves_from(self, i: int) -> Set<Set<BoardCoord>> {
        self.candidates()[i].1.matches(self.candidates()[i].0, self, self.candidates())
    }

    /// The match sets that the first `count` candidates form with the
    /// candidates.
    pub open spec fn moves_among(self, count: int) -> Set<Set<BoardCoord>> {
        Set::new(
            |set: Set<BoardCoord>|
                exists|i: int| 0 <= i < count && #[trigger] self.moves_from(i).contains(set),
        )
    }

    /// The moves that the position offers: every match set that a selectable
    /// tile forms with the selectable tiles.
    pub open spec fn moves(self) -> Set<Set<BoardCoord>> {
        self.moves_among(self.candidates().len() as int)
    }

    /// A number that equal grids share, by which a grid is filed and found
    /// again.
    pub open spec fn fingerprint(self) -> u64 {
        fingerprint_of(self.tiles)
    }

    /// The grid that is left when the match sets of `path` are cleared one
    /// after the other.
    pub open spec fn after(self, path: Seq<Set<BoardCoord>>) -> Grid
        decreases path.len(),
    {
        if path.len() == 0 {
            self
        } else {
            self.without(path[0]).after(path.drop_first())
        }
    }

    /// The tile at a coordinate, where there is one, and `Empty` beyond the
    /// edge of the grid.
    pub open spec fn tile_or_empty(self, coord: Option<BoardCoord>) -> Tile {
        match coord {
            Some(c) => self.tile(c),
            None => Tile::Empty,
        }
    }

    /// The six tiles around a cell, clockwise from the upper left one:
    /// upper left, upper right, right, lower right, lower left, left.
    /// Beyond the edge of the grid the tile is `Empty`.
    pub open spec fn around(self, coord: BoardCoord) -> Seq<Tile> {
        seq![
            self.tile_or_empty(upper_left_of(self.size, coord)),
            self.tile_or_empty(upper_right_of(self.size, coord)),
            self.tile_or_empty(right_of(self.size, coord)),
            self.tile_or_empty(lower_right_of(self.size, coord)),
            self.tile_or_empty(lower_left_of(self.size, coord)),
            self.tile_or_empty(left_of(self.size, coord)),
        ]
    }

    /// The cell has three empty neighbours in a row.
    pub open spec fn selectable(self, coord: BoardCoord) -> bool {
        open_run(self.around(coord))
    }
}

/// The fingerprint of a sequence of tiles: each tile in turn is mixed into
/// the fingerprint of the tiles before it.
pub open spec fn fingerprint_of(tiles: Seq<Tile>) -> u64
    decreases tiles.len(),
{
    if tiles.len() == 0 {
        0
    } else {
        fingerprint_of(tiles.drop_last()).wrapping_mul(31).wrapping_add(tiles.last().code_of())
    }
}

/// The cell to the upper left of `coord`, if the grid has one.
pub open spec fn upper_left_of(size: nat, coord: BoardCoord) -> Option<BoardCoord> {
    if coord.row == 0 {
        None
    } else if coord.row < size {
        if coord.col == 0 {
            None
        } else {
            Some(BoardCoord { row: (coord.row - 1) as usize, col: (coord.col - 1) as usize })
        }
    } else {
        Some(BoardCoord { row: (coord.row - 1) as usize, col: coord.col })
    }
}

/// The cell to the upper right of `coord`, if the grid has one.
pub open spec fn upper_right_of(size: nat, coord: BoardCoord) -> Option<BoardCoord> {
    let col = if coord.row < size {
        coord.col as int
    } else {
        coord.col + 1
    };
    if coord.row == 0 || col >= width(size, (coord.row - 1) as nat) {
        None
    } else {
        Some(BoardCoord { row: (coord.row - 1) as usize, col: col as usize })
    }
}

/// The cell to the left of `coord`, if the grid has one.
pub open spec fn left_of(size: nat, coord: BoardCoord) -> Option<BoardCoord> {
    if coord.col == 0 {
        None
    } else {
        Some(BoardCoord { row: coord.row, col: (coord.col - 1) as usize })
    }
}

/// The cell to the right of `coord`, if the grid has one.
pub open spec fn right_of(size: nat, coord: BoardCoord) -> Option<BoardCoord> {
    if coord.col + 1 >= width(size, coord.row as nat) {
        None
    } else {
        Some(BoardCoord { row: coord.row, col: (coord.col + 1) as usize })
    }
}

/// The cell to the lower left of `coord`, if the grid has one.
pub open spec fn lower_left_of(size: nat, coord: BoardCoord) -> Option<BoardCoord> {
    if coord.row + 1 == rows(size) {
        None
    } else if coord.row + 1 >= size {
        if coord.col == 0 {
            None
        } else {
            Some(BoardCoord { row: (coord.row + 1) as usize, col: (coord.col - 1) as usize })
        }
    } else {
        Some(BoardCoord { row: (coord.row + 1) as usize, col: coord.col })
    }
}

/// The cell to the lower right of `coord`, if the grid has one.
pub open spec fn lower_right_of(size: nat, coord: BoardCoord) -> Option<BoardCoord> {
    let col = if coord.row + 1 >= size {
        coord.col as int
    } else {
        coord.col + 1
    };
    if coord.row + 1 == rows(size) || col >= width(size, (coord.row + 1) as nat) {
        None
    } else {
        Some(BoardCoord { row: (coord.row + 1) as usize, col: col as usize })
    }
}

/// The six cells around `coord`, in the order of `Grid::around`.
pub open spec fn cells_around(size: nat, coord: BoardCoord) -> Seq<Option<BoardCoord>> {
    seq![
        upper_left_of(size, coord),
        upper_right_of(size, coord),
        right_of(size, coord),
        lower_right_of(size, coord),
        lower_left_of(size, coord),
        left_of(size, coord),
    ]
}

/// The neighbours of a cell of the grid are cells of the grid, and each is
/// a neighbour in the opposite direction of the cell it was reached from.
pub proof fn lemma_neighbours_mutual(size: nat, coord: BoardCoord, k: int)
    requires
        usable(size),
        coord.in_grid(size),
        0 <= k < 6,
        cells_around(size, coord)[k] is Some,
    ensures
        cells_around(size, coord)[k]->0.in_grid(size),
        cells_around(size, cells_around(size, coord)[k]->0)[(k + 3) % 6] == Some(coord),
{
    lemma_usable_small(size);
}

/// Three tiles in a row, starting at place `start` of the cycle, are empty.
pub open spec fn run_at(around: Seq<Tile>, start: int) -> bool {
    &&& around[start] == Tile::Empty
    &&& around[(start + 1) % 6] == Tile::Empty
    &&& around[(start + 2) % 6] == Tile::Empty
}

/// Of six tiles in a cycle, three in a row are empty. The last tile is
/// followed by the first.
pub open spec fn open_run(around: Seq<Tile>) -> bool {
    exists|start: int| 0 <= start < 6 && #[trigger] run_at(around, start)
}

/// Whether, of six tiles in a cycle, three in a row are empty.
///
/// Counts the empty tiles at the start, passes over the tile that ends that
/// run, and looks for three empty tiles in a row among the rest. Failing
/// that, the empty tiles at the end and those at the start may add up to
/// three.
pub fn has_open_run(around: &[&Tile; 6]) -> (open: bool)
    ensures
        open == open_run(around@.unref()),
{
    let ghost tiles = around@.unref();
    let mut starting_run: usize = 0;
    while starting_run < 6 && *around[starting_run] == Tile::Empty
        invariant
            starting_run <= 6,
            tiles == around@.unref(),
            forall|j: int| 0 <= j < starting_run ==> tiles[j] == Tile::Empty,
        decreases 6 - starting_run,
    {
        starting_run = starting_run + 1;
    }
    let mut run_size: usize = 0;
    let mut i: usize = starting_run + 1;
    while i < 6
        invariant
            starting_run < 6 ==> tiles[starting_run as int] != Tile::Empty,
            starting_run + 1 <= i,
            i <= 6 || (i == 7 && starting_run == 6),
            tiles == around@.unref(),
            run_size < 3,
            run_size <= i - starting_run - 1,
            forall|j: int| 0 <= j < starting_run ==> tiles[j] == Tile::Empty,
            forall|j: int| i - run_size <= j < i ==> tiles[j] == Tile::Empty,
            i - run_size > starting_run + 1 ==> tiles[i - run_size - 1] != Tile::Empty,
            forall|k: int| starting_run < k && k + 2 < i ==> !#[trigger] run_at(tiles, k),
        decreases 6 - i,
    {
        if *around[i] == Tile::Empty {
            run_size = run_size + 1;
        } else {
            run_size = 0;
        }
        i = i + 1;
        if run_size >= 3 {
            assert(run_at(tiles, i - 3));
            return true;
        }
    }
    proof {
        if run_size + starting_run >= 3 {
            if starting_run >= 3 {
                assert(run_at(tiles, 0));
            } else {
                assert(run_at(tiles, 6 - run_size));
            }
        } else {
            assert(!run_at(tiles, 0));
            assert(!run_at(tiles, 1));
            assert(!run_at(tiles, 2));
            assert(!run_at(tiles, 3));
            assert(!run_at(tiles, 4));
            assert(!run_at(tiles, 5));
        }
    }
    run_size + starting_run >= 3
}

/// A board of tiles on a hexagonal grid.
#[derive(Debug, Hash)]
pub struct Board {
    size: usize,
    tiles: Vec<Tile>,
}

impl View for Board {
    type V = Grid;

    closed spec fn view(&self) -> Grid {
        Grid { size: self.size as nat, tiles: self.tiles@ }
    }
}

impl Board {
    /// Every board is a well-formed grid.
    #[verifier::type_invariant]
    pub open spec fn well_formed(&self) -> bool {
        self@.wf()
    }

    /// A board of the given size with every cell empty.
    pub fn empty(size: usize) -> (board: Self)
        requires
            usable(size as nat),
        ensures
            board@ == Grid::blank(size as nat),
    {
        let cells = board_area(size);
        let mut tiles: Vec<Tile> = Vec::new();
        while tiles.len() < cells
            invariant
                tiles.len() <= cells,
                forall|i: int| 0 <= i < tiles.len() ==> tiles[i] == Tile::Empty,
            decreases cells - tiles.len(),
        {
            tiles.push(Tile::Empty);
        }
        assert(tiles@ =~= Grid::blank(size as nat).tiles);
        Board { size, tiles }
    }

    /// A board of the given size that holds the given tiles in row-major
    /// order.
    pub fn from_tiles(size: usize, tiles: Vec<Tile>) -> (board: Self)
        requires
            usable(size as nat),
            tiles@.len() == area(size as nat),
        ensures
            board@ == (Grid { size: size as nat, tiles: tiles@ }),
    {
        Board { size, tiles }
    }

    /// A board of the given size, empty but for the given tiles. Of two
    /// tiles for the same cell the later one stays.
    pub fn from_iter(size: usize, cells: Vec<(BoardCoord, Tile)>) -> (board: Self)
        requires
            usable(size as nat),
            forall|i: int| 0 <= i < cells@.len() ==> (#[trigger] cells@[i]).0.in_grid(size as nat),
        ensures
            board@ == Grid::blank(size as nat).with_cells(cells@),
    {
        let mut board = Board::empty(size);
        let mut i: usize = 0;
        while i < cells.len()
            invariant
                i <= cells.len(),
                forall|i: int|
                    0 <= i < cells@.len() ==> (#[trigger] cells@[i]).0.in_grid(size as nat),
                board@.size == size,
                board@ == Grid::blank(size as nat).with_cells(cells@.take(i as int)),
            decreases cells.len() - i,
        {
            let (coord, tile) = cells[i];
            assert(cells@[i as int].0.in_grid(size as nat));
            board.set_tile(&coord, tile);
            proof {
                assert(cells@.take(i + 1).drop_last() =~= cells@.take(i as int));
            }
            i = i + 1;
        }
        assert(cells@.take(cells.len() as int) =~= cells@);
        board
    }

    /// The size of the grid.
    pub fn size(&self) -> (size: usize)
        ensures
            size == self@.size,
            self@.wf(),
    {
        proof {
            use_type_invariant(self);
        }
        self.size
    }

    /// Number of rows of the board.
    pub fn row_count(&self) -> (count: usize)
        ensures
            count == rows(self@.size),
    {
        proof {
            use_type_invariant(self);
        }
        row_count(self.size)
    }

    /// Number of cells in a row of the board.
    pub fn row_length(&self, row: usize) -> (length: usize)
        requires
            row < rows(self@.size),
        ensures
            length == width(self@.size, row as nat),
    {
        proof {
            use_type_invariant(self);
        }
        row_length(self.size, row)
    }

    /// Whether the coordinate names a cell of the board.
    pub fn has_cell(&self, coord: &BoardCoord) -> (on_board: bool)
        ensures
            on_board == self@.has(*coord),
    {
        proof {
            use_type_invariant(self);
        }
        coord.row < row_count(self.size) && coord.col < row_length(self.size, coord.row)
    }

    /// Whether every cell is empty.
    pub fn is_empty(&self) -> (cleared: bool)
        ensures
            cleared == self@.cleared(),
    {
        let mut i: usize = 0;
        while i < self.tiles.len()
            invariant
                i <= self.tiles.len(),
                forall|j: int| 0 <= j < i ==> self.tiles[j] == Tile::Empty,
            decreases self.tiles.len() - i,
        {
            if self.tiles[i] != Tile::Empty {
                return false;
            }
            i = i + 1;
        }
        true
    }

    /// The tile at a coordinate of the grid.
    pub fn get_tile(&self, coord: &BoardCoord) -> (tile: &Tile)
        requires
            self@.has(*coord),
        ensures
            *tile == self@.tile(*coord),
    {
        proof {
            use_type_invariant(self);
            lemma_index_in_range(self@.size, *coord);
        }
        &self.tiles[coord.as_index(self.size)]
    }

    /// Replaces the tile at a coordinate of the grid.
    pub fn set_tile(&mut self, coord: &BoardCoord, tile: Tile)
        requires
            old(self)@.has(*coord),
        ensures
            final(self)@ == old(self)@.put(*coord, tile),
    {
        proof {
            use_type_invariant(&*self);
            lemma_index_in_range(self@.size, *coord);
        }
        let index = coord.as_index(self.size);
        self.tiles[index] = tile;
    }

    /// The tile to the upper left of a cell, `Empty` beyond the edge.
    pub fn get_upper_left_neighbor(&self, coord: &BoardCoord) -> (tile: &Tile)
        requires
            self@.has(*coord),
        ensures
            *tile == self@.tile_or_empty(upper_left_of(self@.size, *coord)),
    {
        proof {
            use_type_invariant(self);
            lemma_usable_small(self@.size);
        }
        let is_upper_half = coord.row < self.size;
        if coord.row == 0 {
            &Tile::Empty
        } else if is_upper_half {
            if coord.col == 0 {
                &Tile::Empty
            } else {
                self.get_tile(&BoardCoord { row: coord.row - 1, col: coord.col - 1 })
            }
        } else {
            self.get_tile(&BoardCoord { row: coord.row - 1, col: coord.col })
        }
    }

    /// The tile to the upper right of a cell, `Empty` beyond the edge.
    pub fn get_upper_right_neighbor(&self, coord: &BoardCoord) -> (tile: &Tile)
        requires
            self@.has(*coord),
        ensures
            *tile == self@.tile_or_empty(upper_right_of(self@.size, *coord)),
    {
        proof {
            use_type_invariant(self);
            lemma_usable_small(self@.size);
        }
        let is_upper_half = coord.row < self.size;
        let upper_col_index = if is_upper_half {
            coord.col
        } else {
            coord.col + 1
        };
        if coord.row == 0 || upper_col_index >= row_length(self.size, coord.row - 1) {
            &Tile::Empty
        } else {
            self.get_tile(&BoardCoord { row: coord.row - 1, col: upper_col_index })
        }
    }

    /// The tile to the left of a cell, `Empty` beyond the edge.
    pub fn get_left_neighbor(&self, coord: &BoardCoord) -> (tile: &Tile)
        requires
            self@.has(*coord),
        ensures
            *tile == self@.tile_or_empty(left_of(self@.size, *coord)),
    {
        if coord.col == 0 {
            &Tile::Empty
        } else {
            self.get_tile(&BoardCoord { row: coord.row, col: coord.col - 1 })
        }
    }

    /// The tile to the right of a cell, `Empty` beyond the edge.
    pub fn get_right_neighbor(&self, coord: &BoardCoord) -> (tile: &Tile)
        requires
            self@.has(*coord),
        ensures
            *tile == self@.tile_or_empty(right_of(self@.size, *coord)),
    {
        proof {
            use_type_invariant(self);
            lemma_usable_small(self@.size);
        }
        if coord.col >= row_length(self.size, coord.row) - 1 {
            &Tile::Empty
        } else {
            self.get_tile(&BoardCoord { row: coord.row, col: coord.col + 1 })
        }
    }

    /// The tile to the lower left of a cell, `Empty` beyond the edge.
    pub fn get_lower_left_neighbor(&self, coord: &BoardCoord) -> (tile: &Tile)
        requires
            self@.has(*coord),
        ensures
            *tile == self@.tile_or_empty(lower_left_of(self@.size, *coord)),
    {
        proof {
            use_type_invariant(self);
            lemma_usable_small(self@.size);
        }
        let is_lower_half = coord.row >= self.size - 1;
        if coord.row == row_count(self.size) - 1 {
            &Tile::Empty
        } else if is_lower_half {
            if coord.col == 0 {
                &Tile::Empty
            } else {
                self.get_tile(&BoardCoord { row: coord.row + 1, col: coord.col - 1 })
            }
        } else {
            self.get_tile(&BoardCoord { row: coord.row + 1, col: coord.col })
        }
    }

    /// The tile to the lower right of a cell, `Empty` beyond the edge.
    pub fn get_lower_right_neighbor(&self, coord: &BoardCoord) -> (tile: &Tile)
        requires
            self@.has(*coord),
        ensures
            *tile == self@.tile_or_empty(lower_right_of(self@.size, *coord)),
    {
        proof {
            use_type_invariant(self);
            lemma_usable_small(self@.size);
        }
        let is_lower_half = coord.row >= self.size - 1;
        let lower_col_index = if is_lower_half {
            coord.col
        } else {
            coord.col + 1
        };
        if coord.row == row_count(self.size) - 1 || lower_col_index >= row_length(
            self.size,
            coord.row + 1,
        ) {
            &Tile::Empty
        } else {
            self.get_tile(&BoardCoord { row: coord.row + 1, col: lower_col_index })
        }
    }

    /// The six tiles around a cell, clockwise from the upper left one.
    pub fn neighbors(&self, coord: &BoardCoord) -> (around: [&Tile; 6])
        requires
            self@.has(*coord),
        ensures
            around@.unref() == self@.around(*coord),
    {
        let around = [
            self.get_upper_left_neighbor(coord),
            self.get_upper_right_neighbor(coord),
            self.get_right_neighbor(coord),
            self.get_lower_right_neighbor(coord),
            self.get_lower_left_neighbor(coord),
            self.get_left_neighbor(coord),
        ];
        assert(around@.unref() =~= self@.around(*coord));
        around
    }

    /// Whether the cell has three empty neighbours in a row, the left
    /// neighbour being followed by the upper left one.
    pub fn is_selectable(&self, coord: &BoardCoord) -> (selectable: bool)
        requires
            self@.has(*coord),
        ensures
            selectable == self@.selectable(*coord),
    {
        let around = self.neighbors(coord);
        has_open_run(&around)
    }

    /// Empties the cell at a coordinate of the grid.
    pub fn remove_tile(&mut self, coord: &BoardCoord)
        requires
            old(self)@.has(*coord),
        ensures
            final(self)@ == old(self)@.put(*coord, Tile::Empty),
    {
        self.set_tile(coord, Tile::Empty);
    }

    /// Empties the cells of a match set.
    pub fn remove_match_set(&mut self, match_set: &MatchSet)
        requires
            forall|c: BoardCoord| match_set@.contains(c) ==> old(self)@.has(c),
        ensures
            final(self)@ == old(self)@.without(match_set@),
    {
        let coords = match_set.as_slice();
        let mut i: usize = 0;
        proof {
            use_type_invariant(&*self);
            assert(coords@.take(0).to_set() =~= Set::empty());
            assert(self@.tiles =~= old(self)@.without(Set::empty()).tiles);
        }
        while i < coords.len()
            invariant
                i <= coords.len(),
                old(self)@.wf(),
                coords@.to_set() == match_set@,
                forall|c: BoardCoord| match_set@.contains(c) ==> old(self)@.has(c),
                self@ == old(self)@.without(coords@.take(i as int).to_set()),
            decreases coords.len() - i,
        {
            let coord = coords[i];
            proof {
                assert(coords@.to_set().contains(coord));
                lemma_without_one_more(old(self)@, coords@.take(i as int).to_set(), coord);
                assert(coords@.take(i + 1) =~= coords@.take(i as int).push(coord));
                coords@.take(i as int).lemma_push_to_set_commute(coord);
            }
            self.remove_tile(&coord);
            i = i + 1;
        }
        assert(coords@.take(coords.len() as int) =~= coords@);
    }

    /// The board that is left when the cells of a match set are emptied.
    pub fn without_match_set(&self, match_set: &MatchSet) -> (board: Self)
        requires
            forall|c: BoardCoord| match_set@.contains(c) ==> self@.has(c),
        ensures
            board@ == self@.without(match_set@),
    {
        let mut new_board = self.clone();
        new_board.remove_match_set(match_set);
        new_board
    }

    /// The tiles of the board in row-major order.
    pub fn as_slice(&self) -> (tiles: &[Tile])
        ensures
            tiles@ == self@.tiles,
    {
        self.tiles.as_slice()
    }

    /// Walks the tiles of the board in row-major order.
    pub fn tiles(&self) -> (walk: std::slice::Iter<'_, Tile>)
        ensures
            IteratorSpec::remaining(&walk) == self@.tiles.as_ref(),
            IteratorSpec::decrease(&walk) is Some,
            IteratorSpec::initial_value_relation(&walk, &walk),
    {
        let tiles = self.tiles.as_slice();
        proof {
            axiom_spec_slice_iter(tiles);
        }
        tiles.iter()
    }

    /// The cells that hold a tile, in row-major order.
    pub fn nonempty_tiles(&self) -> (cells: Vec<(BoardCoord, Tile)>)
        ensures
            cells@ == self@.occupied(),
    {
        proof {
            use_type_invariant(self);
        }
        let mut cells: Vec<(BoardCoord, Tile)> = Vec::new();
        let mut i: usize = 0;
        assert(self@.cells().take(0).filter(Grid::is_occupied()) =~= Seq::empty()) by {
            self@.cells().take(0).lemma_filter_len(Grid::is_occupied());
        }
        while i < self.tiles.len()
            invariant
                i <= self.tiles.len(),
                self@.wf(),
                cells@ == self@.cells().take(i as int).filter(Grid::is_occupied()),
            decreases self.tiles.len() - i,
        {
            let tile = self.tiles[i];
            proof {
                let cell = self@.cells()[i as int];
                assert(self@.cells().take(i + 1) =~= self@.cells().take(i as int).push(cell));
                self@.cells().take(i as int).lemma_filter_push(cell, Grid::is_occupied());
            }
            if tile != Tile::Empty {
                cells.push((BoardCoord::from_index(self.size, i), tile));
            }
            i = i + 1;
        }
        assert(self@.cells().take(self.tiles.len() as int) =~= self@.cells());
        cells
    }

    /// The cells that hold a selectable tile, in row-major order.
    pub fn selectable_tiles(&self) -> (cells: Vec<(BoardCoord, Tile)>)
        ensures
            cells@ == self@.candidates(),
    {
        proof {
            use_type_invariant(self);
        }
        let mut cells: Vec<(BoardCoord, Tile)> = Vec::new();
        let mut i: usize = 0;
        assert(self@.cells().take(0).filter(self@.is_candidate()) =~= Seq::empty()) by {
            self@.cells().take(0).lemma_filter_len(self@.is_candidate());
        }
        while i < self.tiles.len()
            invariant
                i <= self.tiles.len(),
                self@.wf(),
                cells@ == self@.cells().take(i as int).filter(self@.is_candidate()),
            decreases self.tiles.len() - i,
        {
            let tile = self.tiles[i];
            proof {
                let cell = self@.cells()[i as int];
                assert(self@.cells().take(i + 1) =~= self@.cells().take(i as int).push(cell));
                self@.cells().take(i as int).lemma_filter_push(cell, self@.is_candidate());
            }
            if tile != Tile::Empty {
                let coord = BoardCoord::from_index(self.size, i);
                if self.is_selectable(&coord) {
                    cells.push((coord, tile));
                }
            }
            i = i + 1;
        }
        assert(self@.cells().take(self.tiles.len() as int) =~= self@.cells());
        cells
    }

    /// The moves that the position offers.
    pub fn find_match_sets(&self) -> (found: MatchSets)
        ensures
            found@ == self@.moves(),
    {
        let candidates = self.selectable_tiles();
        let mut found = MatchSets::new();
        let mut i: usize = 0;
        assert(found@ =~= self@.moves_among(0));
        while i < candidates.len()
            invariant
                i <= candidates.len(),
                candidates@ == self@.candidates(),
                found@ == self@.moves_among(i as int),
            decreases candidates.len() - i,
        {
            let (coord, tile) = candidates[i];
            let more = tile.filter_matches(&coord, self, &candidates);
            proof {
                assert(more@ == self@.moves_from(i as int));
                assert forall|set: Set<BoardCoord>|
                    self@.moves_among(i + 1).contains(set) implies self@.moves_among(
                    i as int,
                ).union(more@).contains(set) by {
                    let k = choose|k: int|
                        0 <= k < i + 1 && #[trigger] self@.moves_from(k).contains(set);
                    if k < i {
                        assert(self@.moves_among(i as int).contains(set));
                    }
                }
                assert(self@.moves_among(i + 1) =~= self@.moves_among(i as int).union(more@));
            }
            found.absorb(more);
            i = i + 1;
        }
        found
    }

    /// Whether two boards have the same size and hold the same tiles.
    pub fn same(&self, other: &Board) -> (same: bool)
        ensures
            same == (self@ == other@),
    {
        if self.size != other.size || self.tiles.len() != other.tiles.len() {
            return false;
        }
        let mut i: usize = 0;
        while i < self.tiles.len()
            invariant
                i <= self.tiles.len(),
                self.size == other.size,
                self.tiles.len() == other.tiles.len(),
                forall|j: int| 0 <= j < i ==> self.tiles[j] == other.tiles[j],
            decreases self.tiles.len() - i,
        {
            if self.tiles[i] != other.tiles[i] {
                return false;
            }
            i = i + 1;
        }
        assert(self.tiles@ =~= other.tiles@);
        true
    }

    /// A number that equal boards share, by which a board is filed and
    /// found again.
    pub fn fingerprint(&self) -> (print: u64)
        ensures
            print == self@.fingerprint(),
    {
        let mut print: u64 = 0;
        let mut i: usize = 0;
        while i < self.tiles.len()
            invariant
                i <= self.tiles.len(),
                print == fingerprint_of(self.tiles@.take(i as int)),
            decreases self.tiles.len() - i,
        {
            assert(self.tiles@.take(i + 1).drop_last() =~= self.tiles@.take(i as int));
            print = print.wrapping_mul(31).wrapping_add(self.tiles[i].code());
            i = i + 1;
        }
        assert(self.tiles@.take(self.tiles.len() as int) =~= self.tiles@);
        print
    }

    /// Number of cells that hold the given tile.
    pub fn count_tile(&self, tile: &Tile) -> (count: usize)
        ensures
            count == self@.count(*tile),
    {
        let mut count: usize = 0;
        let mut i: usize = 0;
        let ghost same = Grid::is_same(*tile);
        assert(self.tiles@.take(0).filter(same).len() == 0) by {
            self.tiles@.take(0).lemma_filter_len(same);
        }
        while i < self.tiles.len()
            invariant
                i <= self.tiles.len(),
                same == Grid::is_same(*tile),
                count == self.tiles@.take(i as int).filter(same).len(),
                count <= i,
            decreases self.tiles.len() - i,
        {
            proof {
                assert(self.tiles@.take(i + 1) =~= self.tiles@.take(i as int).push(
                    self.tiles@[i as int],
                ));
                self.tiles@.take(i as int).lemma_filter_len_push(same, self.tiles@[i as int]);
            }
            if self.tiles[i] == *tile {
                count = count + 1;
            }
            i = i + 1;
        }
        assert(self.tiles@.take(self.tiles.len() as int) =~= self.tiles@);
        count
    }
}

impl Clone for Board {
    fn clone(&self) -> (copy: Self)
        ensures
            copy@ == self@,
    {
        proof {
            use_type_invariant(self);
        }
        let mut tiles: Vec<Tile> = Vec::new();
        let mut i: usize = 0;
        while i < self.tiles.len()
            invariant
                i <= self.tiles.len(),
                tiles@ == self.tiles@.take(i as int),
            decreases self.tiles.len() - i,
        {
            tiles.push(self.tiles[i]);
            assert(tiles@ =~= self.tiles@.take(i + 1));
            i = i + 1;
        }
        assert(tiles@ =~= self.tiles@);
        Board { size: self.size, tiles }
    }
}

impl PartialEqSpecImpl for Board {
    open spec fn obeys_eq_spec() -> bool {
        true
    }

    open spec fn eq_spec(&self, other: &Self) -> bool {
        self@ == other@
    }
}

impl PartialEq for Board {
    fn eq(&self, other: &Self) -> (same: bool) {
        self.same(other)
    }
}

impl Eq for Board {

}

/// Emptying one more cell of a grid empties the cell at its place and
/// leaves the others as they are.
pub proof fn lemma_without_one_more(grid: Grid, gone: Set<BoardCoord>, coord: BoardCoord)
    requires
        grid.wf(),
        grid.has(coord),
    ensures
        grid.without(gone).put(coord, Tile::Empty) == grid.without(gone.insert(coord)),
{
    let left = grid.without(gone).put(coord, Tile::Empty);
    let right = grid.without(gone.insert(coord));
    lemma_at_of_index(grid.size, coord);
    assert forall|i: int| 0 <= i < grid.tiles.len() implies left.tiles[i] == right.tiles[i] by {
        lemma_index_of_at(grid.size, i as nat);
    }
    assert(left.tiles =~= right.tiles);
}

} // verus!
