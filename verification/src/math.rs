//! Geometry of the hexagonal grid.
//!
//! A grid of size `s` has `2s - 1` rows. Row `0` holds `s` cells, each row up
//! to the middle one holds one cell more than the row above it, and each row
//! below the middle one holds one cell less.

use vstd::prelude::*;

verus! {

/// Number of cells of a grid of size `size`.
pub open spec fn area(size: nat) -> nat {
    (1 + 3 * size * (size - 1)) as nat
}

/// Number of rows of a grid of size `size`.
pub open spec fn rows(size: nat) -> nat {
    (2 * size - 1) as nat
}

/// Number of cells in row `row` of a grid of size `size`.
pub open spec fn width(size: nat, row: nat) -> nat {
    if row < size {
        size + row
    } else {
        (3 * size - 2 - row) as nat
    }
}

/// Number of cells in the rows above row `row`.
pub open spec fn cells_before(size: nat, row: nat) -> nat
    decreases row,
{
    if row == 0 {
        0
    } else {
        cells_before(size, (row - 1) as nat) + width(size, (row - 1) as nat)
    }
}

/// A size is usable when it is positive and the cell count fits the machine.
pub open spec fn usable(size: nat) -> bool {
    size >= 1 && area(size) <= usize::MAX
}

/// The rows above `row` hold `row * size + row * (row - 1) / 2` cells in the
/// widening half, and the mirrored count in the narrowing half.
pub proof fn lemma_cells_before_closed(size: nat, row: nat)
    requires
        size >= 1,
        row <= rows(size),
    ensures
        row <= size ==> 2 * cells_before(size, row) == 2 * row * size + row * (row - 1),
        row >= size ==> 2 * cells_before(size, row) == 2 * size * size + size * (size - 1) + 2 * (
        row - size) * (2 * size - 2) - (row - size) * (row - size - 1),
    decreases row,
{
    if row > 0 {
        let p = (row - 1) as nat;
        lemma_cells_before_closed(size, p);
        if row <= size {
            assert(2 * row * size + row * (row - 1) == 2 * p * size + p * (p - 1) + 2 * (size + p))
                by (nonlinear_arith)
                requires
                    p == row - 1,
            ;
        } else {
            let j = row - size;
            assert(2 * j * (2 * size - 2) - j * (j - 1) == 2 * (j - 1) * (2 * size - 2) - (j - 1)
                * (j - 2) + 2 * (3 * size - 2 - p)) by (nonlinear_arith)
                requires
                    j == row - size,
                    p == row - 1,
            ;
            if p < size {
                assert(p == size);
            }
        }
        if row == size {
            assert(2 * size * size + size * (size - 1) + 2 * (row - size) * (2 * size - 2) - (row
                - size) * (row - size - 1) == 2 * row * size + row * (row - 1))
                by (nonlinear_arith)
                requires
                    row == size,
            ;
        }
    } else {
        assert(2 * 0 * size + 0 * (0 - 1) == 0) by (nonlinear_arith);
    }
}

/// All rows together hold `area(size)` cells.
pub proof fn lemma_cells_total(size: nat)
    requires
        size >= 1,
    ensures
        cells_before(size, rows(size)) == area(size),
{
    let row = rows(size);
    lemma_cells_before_closed(size, row);
    assert(2 * size * size + size * (size - 1) + 2 * (row - size) * (2 * size - 2) - (row - size)
        * (row - size - 1) == 2 * (1 + 3 * size * (size - 1))) by (nonlinear_arith)
        requires
            row == 2 * size - 1,
            size >= 1,
    ;
    assert(3 * size * (size - 1) >= 0) by (nonlinear_arith)
        requires
            size >= 1,
    ;
}

/// Lower rows start at higher offsets.
pub proof fn lemma_cells_before_monotonic(size: nat, low: nat, high: nat)
    requires
        low <= high,
    ensures
        cells_before(size, low) <= cells_before(size, high),
    decreases high,
{
    if low < high {
        lemma_cells_before_monotonic(size, low, (high - 1) as nat);
    }
}

/// Every row of the grid holds at least one cell and at most `2 * size - 1`.
pub proof fn lemma_width_bounds(size: nat, row: nat)
    requires
        size >= 1,
        row < rows(size),
    ensures
        size <= width(size, row) <= 2 * size - 1,
        width(size, row) <= area(size),
{
    assert(3 * size * (size - 1) >= 2 * (size - 1)) by (nonlinear_arith)
        requires
            size >= 1,
    ;
}

/// A usable size is small: three times the size still fits the machine.
pub proof fn lemma_usable_small(size: nat)
    requires
        usable(size),
    ensures
        3 * size <= usize::MAX,
        3 * size * (size - 1) < usize::MAX,
{
    assert(3 * size <= 3 * size * (size - 1) || size == 1) by (nonlinear_arith)
        requires
            size >= 1,
    ;
    assert(3 * size * (size - 1) >= 0) by (nonlinear_arith)
        requires
            size >= 1,
    ;
}

/// Whether a grid of size `size` can be held: the size is positive and the
/// cell count fits the machine.
pub fn size_is_usable(size: usize) -> (ok: bool)
    ensures
        ok == usable(size as nat),
{
    if size == 0 {
        return false;
    }
    proof {
        assert(3 * size * (size - 1) == (size * (size - 1)) * 3) by (nonlinear_arith);
        assert(size * (size - 1) >= 0) by (nonlinear_arith)
            requires
                size >= 1,
        ;
    }
    match size.checked_mul(size - 1) {
        None => false,
        Some(pairs) => match pairs.checked_mul(3) {
            None => false,
            Some(ring) => ring < usize::MAX,
        },
    }
}

/// Number of cells of a grid of size `size`.
pub fn board_area(size: usize) -> (cells: usize)
    requires
        usable(size as nat),
    ensures
        cells == area(size as nat),
{
    proof {
        lemma_usable_small(size as nat);
    }
    1 + 3 * size * (size - 1)
}

/// Number of rows of a grid of size `size`.
pub fn row_count(size: usize) -> (count: usize)
    requires
        usable(size as nat),
    ensures
        count == rows(size as nat),
{
    proof {
        lemma_usable_small(size as nat);
    }
    2 * size - 1
}

/// Number of cells in row `row` of a grid of size `size`.
pub fn row_length(size: usize, row: usize) -> (length: usize)
    requires
        usable(size as nat),
        row < rows(size as nat),
    ensures
        length == width(size as nat, row as nat),
{
    proof {
        lemma_usable_small(size as nat);
    }
    if row < size {
        size + row
    } else {
        3 * size - 2 - row
    }
}

} // verus!
