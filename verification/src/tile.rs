//! The tiles of the puzzle and the rules by which they match.

use vstd::prelude::*;
use crate::board::{Board, Grid};
use crate::coord::{BoardCoord, MatchSet, MatchSets};
use crate::errors::BoardParseError;

verus! {

/// The set of two coordinates, or of one where they are the same.
pub open spec fn pair(a: BoardCoord, b: BoardCoord) -> Set<BoardCoord> {
    set![a, b]
}

/// The pairs that `coord` forms with each of the cells that pass `rule`.
pub open spec fn pairs_of(
    coord: BoardCoord,
    cells: Seq<(BoardCoord, Tile)>,
    rule: spec_fn((BoardCoord, Tile)) -> bool,
) -> Set<Set<BoardCoord>> {
    Set::new(
        |set: Set<BoardCoord>|
            exists|i: int|
                0 <= i < cells.len() && rule(cells[i]) && set == pair(coord, (#[trigger] cells[i]).0),
    )
}

/// One more cell adds its pair where it passes the rule, and nothing else.
pub proof fn lemma_pairs_of_push(
    coord: BoardCoord,
    cells: Seq<(BoardCoord, Tile)>,
    cell: (BoardCoord, Tile),
    rule: spec_fn((BoardCoord, Tile)) -> bool,
)
    ensures
        pairs_of(coord, cells.push(cell), rule) == if rule(cell) {
            pairs_of(coord, cells, rule).insert(pair(coord, cell.0))
        } else {
            pairs_of(coord, cells, rule)
        },
{
    let more = pairs_of(coord, cells.push(cell), rule);
    let fewer = pairs_of(coord, cells, rule);
    let grown = cells.push(cell);
    assert forall|set: Set<BoardCoord>| more.contains(set) implies fewer.contains(set) || (rule(
        cell,
    ) && set == pair(coord, cell.0)) by {
        let i = choose|i: int|
            0 <= i < grown.len() && rule(grown[i]) && set == pair(coord, (#[trigger] grown[i]).0);
        if i < cells.len() {
            assert(cells[i] == grown[i]);
        }
    }
    assert forall|set: Set<BoardCoord>| fewer.contains(set) implies more.contains(set) by {
        let i = choose|i: int|
            0 <= i < cells.len() && rule(cells[i]) && set == pair(coord, (#[trigger] cells[i]).0);
        assert(cells[i] == grown[i]);
    }
    if rule(cell) {
        assert(grown[cells.len() as int] == cell);
        assert(more.contains(pair(coord, cell.0)));
        assert(more =~= fewer.insert(pair(coord, cell.0)));
    } else {
        assert(more =~= fewer);
    }
}

/// What every kind of tile can do: find the match sets that a tile of the
/// kind, at a given cell, forms with the selectable tiles of the board.
pub trait Matchable {
    /// The match sets that the tile at `coord` forms with the candidates.
    spec fn matches(
        &self,
        coord: BoardCoord,
        grid: Grid,
        candidates: Seq<(BoardCoord, Tile)>,
    ) -> Set<Set<BoardCoord>>;

    /// The match sets that the tile at `coord` forms with the candidates.
    fn filter_matches(
        &self,
        coord: &BoardCoord,
        board: &Board,
        candidates: &Vec<(BoardCoord, Tile)>,
    ) -> (found: MatchSets)
        ensures
            found@ == self.matches(*coord, board@, candidates@),
    ;
}

/// The four elements. Two tiles of the same element clear each other.
#[derive(Debug, Clone, Copy, PartialEq, Eq, Hash, Structural)]
pub enum ElementTile {
    Air,
    Fire,
    Water,
    Earth,
}

impl ElementTile {
    /// An element takes as its partner a tile of the same element at
    /// another cell.
    pub open spec fn rule(self, coord: BoardCoord) -> spec_fn((BoardCoord, Tile)) -> bool {
        |cell: (BoardCoord, Tile)| cell.1 == Tile::Element(self) && cell.0 != coord
    }
}

impl Matchable for ElementTile {
    open spec fn matches(
        &self,
        coord: BoardCoord,
        grid: Grid,
        candidates: Seq<(BoardCoord, Tile)>,
    ) -> Set<Set<BoardCoord>> {
        pairs_of(coord, candidates, self.rule(coord))
    }

    fn filter_matches(
        &self,
        coord: &BoardCoord,
        board: &Board,
        candidates: &Vec<(BoardCoord, Tile)>,
    ) -> (found: MatchSets) {
        find_pairs(&Tile::Element(*self), coord, candidates)
    }
}

/// The metals, from the one that is cleared first to the one that is
/// cleared last.
#[derive(Debug, Clone, Copy, PartialEq, Eq, Hash, Structural)]
pub enum MetalTile {
    Lead,
    Tin,
    Iron,
    Copper,
    Silver,
}

impl MetalTile {
    /// Place of the metal in the order in which metals are cleared.
    pub open spec fn rank_of(self) -> nat {
        match self {
            MetalTile::Lead => 0,
            MetalTile::Tin => 1,
            MetalTile::Iron => 2,
            MetalTile::Copper => 3,
            MetalTile::Silver => 4,
        }
    }

    /// Place of the metal in the order in which metals are cleared.
    pub fn rank(&self) -> (rank: u8)
        ensures
            rank == self.rank_of(),
    {
        match self {
            MetalTile::Lead => 0,
            MetalTile::Tin => 1,
            MetalTile::Iron => 2,
            MetalTile::Copper => 3,
            MetalTile::Silver => 4,
        }
    }
}

/// The two opposites. A tile of one clears a tile of the other.
#[derive(Debug, Clone, Copy, PartialEq, Eq, Hash, Structural)]
pub enum BinaryTile {
    Life,
    Death,
}

impl BinaryTile {
    /// One of the opposites takes as its partner a tile of the other one.
    pub open spec fn rule(self) -> spec_fn((BoardCoord, Tile)) -> bool {
        |cell: (BoardCoord, Tile)| cell.1 is Binary && cell.1 != Tile::Binary(self)
    }
}

impl Matchable for BinaryTile {
    open spec fn matches(
        &self,
        coord: BoardCoord,
        grid: Grid,
        candidates: Seq<(BoardCoord, Tile)>,
    ) -> Set<Set<BoardCoord>> {
        pairs_of(coord, candidates, self.rule())
    }

    fn filter_matches(
        &self,
        coord: &BoardCoord,
        board: &Board,
        candidates: &Vec<(BoardCoord, Tile)>,
    ) -> (found: MatchSets) {
        find_pairs(&Tile::Binary(*self), coord, candidates)
    }
}

/// What a cell of the board holds.
#[derive(Debug, Clone, Copy, PartialEq, Eq, Hash, Structural)]
pub enum Tile {
    Empty,
    Theta,
    Element(ElementTile),
    Binary(BinaryTile),
    Quicksilver,
    Metal(MetalTile),
    Gold,
}

/// The tile that a character of a layout stands for.
pub open spec fn tile_of(symbol: char) -> Option<Tile> {
    if symbol == ' ' || symbol == '_' {
        Some(Tile::Empty)
    } else if symbol == 'F' {
        Some(Tile::Element(ElementTile::Fire))
    } else if symbol == 'W' {
        Some(Tile::Element(ElementTile::Water))
    } else if symbol == 'A' {
        Some(Tile::Element(ElementTile::Air))
    } else if symbol == 'E' {
        Some(Tile::Element(ElementTile::Earth))
    } else if symbol == 'L' {
        Some(Tile::Binary(BinaryTile::Life))
    } else if symbol == 'D' {
        Some(Tile::Binary(BinaryTile::Death))
    } else if symbol == 'T' {
        Some(Tile::Theta)
    } else if symbol == 'Q' {
        Some(Tile::Quicksilver)
    } else if symbol == '0' {
        Some(Tile::Metal(MetalTile::Lead))
    } else if symbol == '1' {
        Some(Tile::Metal(MetalTile::Tin))
    } else if symbol == '2' {
        Some(Tile::Metal(MetalTile::Iron))
    } else if symbol == '3' {
        Some(Tile::Metal(MetalTile::Copper))
    } else if symbol == '4' {
        Some(Tile::Metal(MetalTile::Silver))
    } else if symbol == '5' {
        Some(Tile::Gold)
    } else {
        None
    }
}

/// The metal that is cleared first among those that the tiles hold.
pub open spec fn lowest_metal(tiles: Seq<Tile>) -> Option<MetalTile> {
    if tiles.contains(Tile::Metal(MetalTile::Lead)) {
        Some(MetalTile::Lead)
    } else if tiles.contains(Tile::Metal(MetalTile::Tin)) {
        Some(MetalTile::Tin)
    } else if tiles.contains(Tile::Metal(MetalTile::Iron)) {
        Some(MetalTile::Iron)
    } else if tiles.contains(Tile::Metal(MetalTile::Copper)) {
        Some(MetalTile::Copper)
    } else if tiles.contains(Tile::Metal(MetalTile::Silver)) {
        Some(MetalTile::Silver)
    } else {
        None
    }
}

/// The coordinate of the first cell that holds the given tile.
pub open spec fn first_with(cells: Seq<(BoardCoord, Tile)>, tile: Tile) -> Option<BoardCoord>
    decreases cells.len(),
{
    if cells.len() == 0 {
        None
    } else if cells[0].1 == tile {
        Some(cells[0].0)
    } else {
        first_with(cells.drop_first(), tile)
    }
}

/// The metal that is cleared first among those that the tiles hold.
pub fn find_lowest_metal(tiles: &[Tile]) -> (lowest: Option<MetalTile>)
    ensures
        lowest == lowest_metal(tiles@),
{
    let mut lowest: Option<MetalTile> = None;
    let mut i: usize = 0;
    while i < tiles.len()
        invariant
            i <= tiles.len(),
            lowest == lowest_metal(tiles@.take(i as int)),
        decreases tiles.len() - i,
    {
        proof {
            let before = tiles@.take(i as int);
            let after = tiles@.take(i + 1);
            assert(after =~= before.push(tiles@[i as int]));
            assert forall|tile: Tile| after.contains(tile) <==> (before.contains(tile) || tile
                == tiles@[i as int]) by {
                if before.contains(tile) {
                    let k = choose|k: int| 0 <= k < before.len() && before[k] == tile;
                    assert(after[k] == tile);
                }
                if tile == tiles@[i as int] {
                    assert(after[i as int] == tile);
                }
            }
        }
        if let Tile::Metal(metal) = tiles[i] {
            lowest =
            match lowest {
                None => Some(metal),
                Some(best) => if metal.rank() < best.rank() {
                    Some(metal)
                } else {
                    Some(best)
                },
            };
        }
        i = i + 1;
    }
    assert(tiles@.take(tiles.len() as int) =~= tiles@);
    lowest
}

/// The coordinate of the first cell that holds the given tile.
pub fn find_first_with(cells: &Vec<(BoardCoord, Tile)>, tile: Tile) -> (first: Option<BoardCoord>)
    ensures
        first == first_with(cells@, tile),
{
    let mut i: usize = 0;
    assert(cells@.skip(0) =~= cells@);
    while i < cells.len()
        invariant
            i <= cells.len(),
            first_with(cells@, tile) == first_with(cells@.skip(i as int), tile),
        decreases cells.len() - i,
    {
        let (at, held) = cells[i];
        if held == tile {
            return Some(at);
        }
        assert(cells@.skip(i as int).drop_first() =~= cells@.skip(i + 1));
        i = i + 1;
    }
    None
}

/// The match sets that a tile at `coord` forms with each of the candidates
/// that it takes as its partner.
fn find_pairs(tile: &Tile, coord: &BoardCoord, candidates: &Vec<(BoardCoord, Tile)>) -> (found:
    MatchSets)
    ensures
        found@ == pairs_of(*coord, candidates@, tile.pair_rule(*coord)),
{
    let mut found = MatchSets::new();
    let mut i: usize = 0;
    assert(found@ =~= pairs_of(*coord, candidates@.take(0), tile.pair_rule(*coord)));
    while i < candidates.len()
        invariant
            i <= candidates.len(),
            found@ == pairs_of(*coord, candidates@.take(i as int), tile.pair_rule(*coord)),
        decreases candidates.len() - i,
    {
        proof {
            lemma_pairs_of_push(
                *coord,
                candidates@.take(i as int),
                candidates@[i as int],
                tile.pair_rule(*coord),
            );
            assert(candidates@.take(i + 1) =~= candidates@.take(i as int).push(
                candidates@[i as int],
            ));
        }
        if tile.takes(coord, &candidates[i]) {
            let set = MatchSet::from([*coord, candidates[i].0]);
            assert(set@ =~= pair(*coord, candidates@[i as int].0));
            found.insert(set);
        }
        i = i + 1;
    }
    assert(candidates@.take(candidates.len() as int) =~= candidates@);
    found
}

impl Tile {
    /// The rule by which a tile at `coord` takes a partner: that of its
    /// element, that of its opposite, or that of Theta. The other tiles take
    /// no partner by a rule of this kind.
    pub open spec fn pair_rule(self, coord: BoardCoord) -> spec_fn((BoardCoord, Tile)) -> bool {
        match self {
            Tile::Element(element) => element.rule(coord),
            Tile::Binary(binary) => binary.rule(),
            Tile::Theta => Tile::theta_rule(coord),
            _ => |cell: (BoardCoord, Tile)| false,
        }
    }

    /// Whether a tile at `coord` takes the tile of a cell as its partner.
    pub fn takes(&self, coord: &BoardCoord, cell: &(BoardCoord, Tile)) -> (taken: bool)
        ensures
            taken == self.pair_rule(*coord)(*cell),
    {
        match self {
            Tile::Element(element) => cell.1 == Tile::Element(*element) && cell.0 != *coord,
            Tile::Binary(binary) => match cell.1 {
                Tile::Binary(other) => other != *binary,
                _ => false,
            },
            Tile::Theta => match cell.1 {
                Tile::Theta => cell.0 != *coord,
                Tile::Element(_) => true,
                _ => false,
            },
            _ => false,
        }
    }

    /// A number for each tile, no two tiles with the same.
    pub open spec fn code_of(self) -> u64 {
        match self {
            Tile::Empty => 0,
            Tile::Theta => 1,
            Tile::Element(ElementTile::Air) => 2,
            Tile::Element(ElementTile::Fire) => 3,
            Tile::Element(ElementTile::Water) => 4,
            Tile::Element(ElementTile::Earth) => 5,
            Tile::Binary(BinaryTile::Life) => 6,
            Tile::Binary(BinaryTile::Death) => 7,
            Tile::Quicksilver => 8,
            Tile::Metal(metal) => (9 + metal.rank_of()) as u64,
            Tile::Gold => 14,
        }
    }

    /// A number for each tile, no two tiles with the same.
    pub fn code(&self) -> (code: u64)
        ensures
            code == self.code_of(),
    {
        match self {
            Tile::Empty => 0,
            Tile::Theta => 1,
            Tile::Element(ElementTile::Air) => 2,
            Tile::Element(ElementTile::Fire) => 3,
            Tile::Element(ElementTile::Water) => 4,
            Tile::Element(ElementTile::Earth) => 5,
            Tile::Binary(BinaryTile::Life) => 6,
            Tile::Binary(BinaryTile::Death) => 7,
            Tile::Quicksilver => 8,
            Tile::Metal(metal) => 9 + metal.rank() as u64,
            Tile::Gold => 14,
        }
    }

    /// Theta takes as its partner another Theta, or a tile of any element.
    pub open spec fn theta_rule(coord: BoardCoord) -> spec_fn((BoardCoord, Tile)) -> bool {
        |cell: (BoardCoord, Tile)| (cell.1 == Tile::Theta && cell.0 != coord) || cell.1 is Element
    }

    /// The tile that a character of a layout stands for.
    pub fn try_from(value: char) -> (made: Result<Tile, BoardParseError>)
        ensures
            match made {
                Ok(tile) => tile_of(value) == Some(tile),
                Err(error) => tile_of(value) is None && error
                    == BoardParseError::UnexpectedTileCharacter(value),
            },
    {
        if value == ' ' || value == '_' {
            Ok(Tile::Empty)
        } else if value == 'F' {
            Ok(Tile::Element(ElementTile::Fire))
        } else if value == 'W' {
            Ok(Tile::Element(ElementTile::Water))
        } else if value == 'A' {
            Ok(Tile::Element(ElementTile::Air))
        } else if value == 'E' {
            Ok(Tile::Element(ElementTile::Earth))
        } else if value == 'L' {
            Ok(Tile::Binary(BinaryTile::Life))
        } else if value == 'D' {
            Ok(Tile::Binary(BinaryTile::Death))
        } else if value == 'T' {
            Ok(Tile::Theta)
        } else if value == 'Q' {
            Ok(Tile::Quicksilver)
        } else if value == '0' {
            Ok(Tile::Metal(MetalTile::Lead))
        } else if value == '1' {
            Ok(Tile::Metal(MetalTile::Tin))
        } else if value == '2' {
            Ok(Tile::Metal(MetalTile::Iron))
        } else if value == '3' {
            Ok(Tile::Metal(MetalTile::Copper))
        } else if value == '4' {
            Ok(Tile::Metal(MetalTile::Silver))
        } else if value == '5' {
            Ok(Tile::Gold)
        } else {
            Err(BoardParseError::UnexpectedTileCharacter(value))
        }
    }
}

impl Matchable for Tile {
    open spec fn matches(
        &self,
        coord: BoardCoord,
        grid: Grid,
        candidates: Seq<(BoardCoord, Tile)>,
    ) -> Set<Set<BoardCoord>> {
        match *self {
            Tile::Empty => Set::empty(),
            Tile::Element(element) => element.matches(coord, grid, candidates),
            Tile::Theta => pairs_of(coord, candidates, Tile::theta_rule(coord)),
            Tile::Binary(binary) => binary.matches(coord, grid, candidates),
            Tile::Metal(_) => Set::empty(),
            Tile::Gold => set![set![coord]],
            Tile::Quicksilver => match lowest_metal(grid.tiles) {
                None => Set::empty(),
                Some(metal) => match first_with(candidates, Tile::Metal(metal)) {
                    None => Set::empty(),
                    Some(at) => set![pair(coord, at)],
                },
            },
        }
    }

    fn filter_matches(
        &self,
        coord: &BoardCoord,
        board: &Board,
        candidates: &Vec<(BoardCoord, Tile)>,
    ) -> (found: MatchSets) {
        match self {
            Tile::Empty => MatchSets::new(),
            Tile::Element(element) => element.filter_matches(coord, board, candidates),
            Tile::Theta => find_pairs(self, coord, candidates),
            Tile::Binary(binary) => binary.filter_matches(coord, board, candidates),
            Tile::Metal(_) => MatchSets::new(),
            Tile::Gold => {
                let mut found = MatchSets::new();
                let set = MatchSet::from([*coord]);
                assert(set@ =~= set![*coord]);
                found.insert(set);
                assert(found@ =~= set![set![*coord]]);
                found
            },
            Tile::Quicksilver => {
                let mut found = MatchSets::new();
                if let Some(metal) = find_lowest_metal(board.as_slice()) {
                    if let Some(at) = find_first_with(candidates, Tile::Metal(metal)) {
                        let set = MatchSet::from([*coord, at]);
                        assert(set@ =~= pair(*coord, at));
                        found.insert(set);
                        assert(found@ =~= set![pair(*coord, at)]);
                    }
                }
                found
            },
        }
    }
}

} // verus!
