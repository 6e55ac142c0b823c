//! What holds of every position: which cells are candidates, what the moves
//! of a position are made of, and what clearing a match set does.

use vstd::prelude::*;
use crate::board::Grid;
use crate::coord::{lemma_at_of_index, lemma_index_in_range, lemma_index_of_at, BoardCoord};
use crate::tile::{first_with, lowest_metal, pair, pairs_of, Matchable, Tile};

verus! {

/// Every entry of `candidates` is a cell of the grid with the tile that the
/// cell holds, and that tile is selectable.
pub proof fn lemma_candidates_are_selectable(grid: Grid, k: int)
    requires
        grid.wf(),
        0 <= k < grid.candidates().len(),
    ensures
        grid.candidate(grid.candidates()[k].0),
        grid.candidates()[k].1 == grid.tile(grid.candidates()[k].0),
{
    let cell = grid.candidates()[k];
    grid.cells().lemma_filter_pred(grid.is_candidate(), k);
    assert(grid.candidates().contains(cell));
    grid.cells().lemma_filter_contains_rev(grid.is_candidate(), cell);
    let i = choose|i: int| 0 <= i < grid.cells().len() && grid.cells()[i] == cell;
    lemma_index_of_at(grid.size, i as nat);
}

/// Where a first cell with the given tile is found, it is one of the cells.
pub proof fn lemma_first_with_is_listed(cells: Seq<(BoardCoord, Tile)>, tile: Tile)
    requires
        first_with(cells, tile) is Some,
    ensures
        cells.contains((first_with(cells, tile)->0, tile)),
    decreases cells.len(),
{
    if cells[0].1 == tile {
        assert(cells[0] == (first_with(cells, tile)->0, tile));
    } else {
        lemma_first_with_is_listed(cells.drop_first(), tile);
        let rest = cells.drop_first();
        let j = choose|j: int|
            0 <= j < rest.len() && rest[j] == (first_with(cells, tile)->0, tile);
        assert(cells[j + 1] == rest[j]);
    }
}

/// A match set that a tile forms with the candidates holds the cell of the
/// tile. Any other member is the cell of one of the candidates.
pub proof fn lemma_matches_members(
    tile: Tile,
    coord: BoardCoord,
    grid: Grid,
    candidates: Seq<(BoardCoord, Tile)>,
    set: Set<BoardCoord>,
)
    requires
        tile.matches(coord, grid, candidates).contains(set),
    ensures
        set.contains(coord),
        set.finite(),
        forall|c: BoardCoord|
            set.contains(c) ==> c == coord || exists|j: int|
                0 <= j < candidates.len() && (#[trigger] candidates[j]).0 == c,
{
    match tile {
        Tile::Quicksilver => {
            let metal = lowest_metal(grid.tiles)->0;
            lemma_first_with_is_listed(candidates, Tile::Metal(metal));
            let at = first_with(candidates, Tile::Metal(metal))->0;
            let j = choose|j: int|
                0 <= j < candidates.len() && candidates[j] == (at, Tile::Metal(metal));
            assert(set == pair(coord, at));
            assert(candidates[j].0 == at);
        },
        Tile::Element(element) => {
            let j = choose|j: int|
                0 <= j < candidates.len() && element.rule(coord)(candidates[j]) && set == pair(
                    coord,
                    (#[trigger] candidates[j]).0,
                );
            assert(set.contains(candidates[j].0));
        },
        Tile::Binary(binary) => {
            let j = choose|j: int|
                0 <= j < candidates.len() && binary.rule()(candidates[j]) && set == pair(
                    coord,
                    (#[trigger] candidates[j]).0,
                );
            assert(set.contains(candidates[j].0));
        },
        Tile::Theta => {
            let j = choose|j: int|
                0 <= j < candidates.len() && Tile::theta_rule(coord)(candidates[j]) && set
                    == pair(coord, (#[trigger] candidates[j]).0);
            assert(set.contains(candidates[j].0));
        },
        _ => {},
    }
}

/// Every member of a move is a cell of the grid that holds a selectable
/// tile, and a move has a member.
pub proof fn lemma_moves_take_candidates(grid: Grid, set: Set<BoardCoord>)
    requires
        grid.wf(),
        grid.moves().contains(set),
    ensures
        set.finite(),
        exists|c: BoardCoord| set.contains(c),
        forall|c: BoardCoord| set.contains(c) ==> grid.candidate(c),
{
    let i = choose|i: int|
        0 <= i < grid.candidates().len() && #[trigger] grid.moves_from(i).contains(set);
    let cell = grid.candidates()[i];
    lemma_matches_members(cell.1, cell.0, grid, grid.candidates(), set);
    lemma_candidates_are_selectable(grid, i);
    assert forall|c: BoardCoord| set.contains(c) implies grid.candidate(c) by {
        if c != cell.0 {
            let j = choose|j: int|
                0 <= j < grid.candidates().len() && (#[trigger] grid.candidates()[j]).0 == c;
            lemma_candidates_are_selectable(grid, j);
        }
    }
    assert(set.contains(cell.0));
}

/// Emptying cells leaves a grid of the same size, well formed as before.
pub proof fn lemma_without_is_grid(grid: Grid, gone: Set<BoardCoord>)
    requires
        grid.wf(),
    ensures
        grid.without(gone).wf(),
        grid.without(gone).size == grid.size,
        forall|c: BoardCoord|
            grid.has(c) ==> grid.without(gone).tile(c) == if gone.contains(c) {
                Tile::Empty
            } else {
                grid.tile(c)
            },
{
    assert forall|c: BoardCoord| grid.has(c) implies grid.without(gone).tile(c) == if gone.contains(
        c,
    ) {
        Tile::Empty
    } else {
        grid.tile(c)
    } by {
        lemma_at_of_index(grid.size, c);
    }
}

/// After a match set was cleared, none of its cells is a candidate.
pub proof fn lemma_cleared_not_candidates(grid: Grid, gone: Set<BoardCoord>, k: int)
    requires
        grid.wf(),
        0 <= k < grid.without(gone).candidates().len(),
    ensures
        !gone.contains(grid.without(gone).candidates()[k].0),
{
    lemma_without_is_grid(grid, gone);
    lemma_candidates_are_selectable(grid.without(gone), k);
    let coord = grid.without(gone).candidates()[k].0;
    assert(grid.has(coord));
    assert(grid.without(gone).tile(coord) != Tile::Empty);
}

/// Of two sequences of tiles of one length, where the second holds a tile
/// only where the first does, the second holds at most as many, and fewer
/// where some place of it lost its tile.
pub proof fn lemma_fewer_tiles(before: Seq<Tile>, after: Seq<Tile>)
    requires
        before.len() == after.len(),
        forall|i: int| 0 <= i < after.len() && after[i] != Tile::Empty ==> before[i] != Tile::Empty,
    ensures
        after.filter(Grid::is_tile()).len() <= before.filter(Grid::is_tile()).len(),
        (exists|i: int| 0 <= i < after.len() && before[i] != Tile::Empty && after[i] == Tile::Empty)
            ==> after.filter(Grid::is_tile()).len() < before.filter(Grid::is_tile()).len(),
    decreases before.len(),
{
    if before.len() == 0 {
    } else {
        let b = before.drop_last();
        let a = after.drop_last();
        lemma_fewer_tiles(b, a);
        assert(before =~= b.push(before.last()));
        assert(after =~= a.push(after.last()));
        b.lemma_filter_len_push(Grid::is_tile(), before.last());
        a.lemma_filter_len_push(Grid::is_tile(), after.last());
        if exists|i: int|
            0 <= i < after.len() && before[i] != Tile::Empty && after[i] == Tile::Empty {
            let i = choose|i: int|
                0 <= i < after.len() && before[i] != Tile::Empty && after[i] == Tile::Empty;
            if i < after.len() - 1 {
                assert(b[i] != Tile::Empty && a[i] == Tile::Empty);
            }
        }
    }
}

/// A move leaves fewer tiles on the board.
pub proof fn lemma_move_shrinks(grid: Grid, set: Set<BoardCoord>)
    requires
        grid.wf(),
        grid.moves().contains(set),
    ensures
        grid.without(set).tiles_left() < grid.tiles_left(),
{
    lemma_moves_take_candidates(grid, set);
    lemma_without_is_grid(grid, set);
    let c = choose|c: BoardCoord| set.contains(c);
    lemma_index_in_range(grid.size, c);
    let i = c.index(grid.size) as int;
    assert(grid.tiles[i] != Tile::Empty && grid.without(set).tiles[i] == Tile::Empty) by {
        assert(grid.without(set).tile(c) == Tile::Empty);
    }
    lemma_fewer_tiles(grid.tiles, grid.without(set).tiles);
}

/// Where the selectable tile at one cell forms a match set with the
/// selectable tile at another by one of the rules for pairs, the tile at
/// the other cell forms the same match set with the first. The one
/// exception is Theta with an element: an element takes only its own kind.
pub proof fn lemma_partners_mutual(grid: Grid, i: int, j: int)
    requires
        grid.wf(),
        0 <= i < grid.candidates().len(),
        0 <= j < grid.candidates().len(),
        grid.candidates()[i].1 is Element || grid.candidates()[i].1 is Binary
            || grid.candidates()[i].1 is Theta,
        grid.candidates()[i].0 != grid.candidates()[j].0,
        grid.moves_from(i).contains(pair(grid.candidates()[i].0, grid.candidates()[j].0)),
        !(grid.candidates()[i].1 is Theta && grid.candidates()[j].1 is Element),
    ensures
        grid.moves_from(j).contains(pair(grid.candidates()[i].0, grid.candidates()[j].0)),
{
    let cells = grid.candidates();
    let a = cells[i];
    let b = cells[j];
    let set = pair(a.0, b.0);
    lemma_candidates_are_selectable(grid, i);
    lemma_candidates_are_selectable(grid, j);
    assert(set =~= pair(b.0, a.0));
    assert forall|k: int| 0 <= k < cells.len() && set == pair(a.0, (#[trigger] cells[k]).0)
        implies cells[k] == b by {
        assert(set.contains(cells[k].0));
        assert(pair(a.0, cells[k].0).contains(b.0));
        lemma_candidates_are_selectable(grid, k);
    }
    match a.1 {
        Tile::Element(element) => {
            let k = choose|k: int|
                0 <= k < cells.len() && element.rule(a.0)(cells[k]) && set == pair(
                    a.0,
                    (#[trigger] cells[k]).0,
                );
            assert(element.rule(b.0)(cells[i]));
        },
        Tile::Binary(binary) => {
            let k = choose|k: int|
                0 <= k < cells.len() && binary.rule()(cells[k]) && set == pair(
                    a.0,
                    (#[trigger] cells[k]).0,
                );
            assert(b.1 is Binary);
            assert(b.1->Binary_0.rule()(cells[i]));
        },
        Tile::Theta => {
            let k = choose|k: int|
                0 <= k < cells.len() && Tile::theta_rule(a.0)(cells[k]) && set == pair(
                    a.0,
                    (#[trigger] cells[k]).0,
                );
            assert(Tile::theta_rule(b.0)(cells[i]));
        },
        _ => {},
    }
}

} // verus!
