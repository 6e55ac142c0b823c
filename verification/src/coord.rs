//! Coordinates of the grid and their place in the row-major cell order.

use vstd::prelude::*;
use vstd::seq_lib::seq_to_set_is_finite;
use vstd::set_lib::set_int_range;
use vstd::std_specs::cmp::PartialEqSpecImpl;
use vstd::std_specs::iter::IteratorSpec;
use vstd::std_specs::slice::axiom_spec_slice_iter;
use vstd::std_specs::vec::axiom_spec_into_iter;
use crate::errors::MatchSetError;
use crate::math::{
    area, cells_before, lemma_cells_before_monotonic, lemma_cells_total, lemma_usable_small,
    lemma_width_bounds, row_length, rows, usable, width,
};

verus! {

/// A cell of the grid: its row, counted from the top, and its place in that
/// row, counted from the left.
#[derive(Debug, Clone, Copy, PartialEq, Eq, PartialOrd, Ord, Hash, Structural)]
pub struct BoardCoord {
    pub row: usize,
    pub col: usize,
}

impl BoardCoord {
    /// The coordinate lies on a grid of size `size`.
    pub open spec fn in_grid(self, size: nat) -> bool {
        self.row < rows(size) && self.col < width(size, self.row as nat)
    }

    /// Place of the coordinate in the row-major order of the cells: the cells
    /// of the rows above it, plus its column.
    pub open spec fn index(self, size: nat) -> nat {
        (cells_before(size, self.row as nat) + self.col) as nat
    }

    /// The coordinate on the grid whose place in the cell order is `index`.
    pub open spec fn at(size: nat, index: nat) -> BoardCoord {
        choose|c: BoardCoord| c.in_grid(size) && c.index(size) == index
    }

    /// Row-major order of two coordinates: by row, then by column.
    pub open spec fn before(self, other: BoardCoord) -> bool {
        self.row < other.row || (self.row == other.row && self.col < other.col)
    }

    /// The coordinate of the given row and column.
    pub fn new(row: usize, col: usize) -> (coord: Self)
        ensures
            coord.row == row,
            coord.col == col,
    {
        Self { row, col }
    }

    /// Place of the coordinate in the row-major order of the cells.
    ///
    /// The column is not held against the length of the row.
    pub fn as_index(&self, size: usize) -> (index: usize)
        requires
            usable(size as nat),
            self.row < rows(size as nat),
            self.index(size as nat) <= usize::MAX,
        ensures
            index == self.index(size as nat),
    {
        let mut sum: usize = 0;
        let mut r: usize = 0;
        while r < self.row
            invariant
                usable(size as nat),
                self.row < rows(size as nat),
                r <= self.row,
                sum == cells_before(size as nat, r as nat),
                cells_before(size as nat, self.row as nat) <= usize::MAX,
            decreases self.row - r,
        {
            proof {
                lemma_cells_before_monotonic(size as nat, (r + 1) as nat, self.row as nat);
            }
            sum = sum + row_length(size, r);
            r = r + 1;
        }
        sum + self.col
    }

    /// The coordinate on the grid whose place in the cell order is `index`.
    pub fn from_index(size: usize, index: usize) -> (coord: Self)
        requires
            usable(size as nat),
            index < area(size as nat),
        ensures
            coord == Self::at(size as nat, index as nat),
            coord.in_grid(size as nat),
            coord.index(size as nat) == index,
    {
        let mut rest: usize = index;
        let mut row: usize = 0;
        let mut row_len: usize = size;
        proof {
            lemma_width_bounds(size as nat, 0);
        }
        loop
            invariant
                usable(size as nat),
                index < area(size as nat),
                row < rows(size as nat),
                row_len == width(size as nat, row as nat),
                rest + cells_before(size as nat, row as nat) == index,
            ensures
                rest < row_len,
            decreases rows(size as nat) - row,
        {
            if rest < row_len {
                break ;
            }
            proof {
                lemma_cells_total(size as nat);
                if row + 1 >= rows(size as nat) {
                    lemma_cells_before_monotonic(
                        size as nat,
                        rows(size as nat),
                        (row + 1) as nat,
                    );
                }
                lemma_usable_small(size as nat);
            }
            rest = rest - row_len;
            row = row + 1;
            if row < size {
                row_len = row_len + 1;
            } else {
                row_len = row_len - 1;
            }
        }
        let coord = BoardCoord { row, col: rest };
        proof {
            assert(coord.in_grid(size as nat) && coord.index(size as nat) == index as nat);
            lemma_index_injective(size as nat, coord, Self::at(size as nat, index as nat));
        }
        coord
    }
}

/// A coordinate on the grid has a place below the cell count.
pub proof fn lemma_index_in_range(size: nat, coord: BoardCoord)
    requires
        size >= 1,
        coord.in_grid(size),
    ensures
        coord.index(size) < area(size),
{
    lemma_cells_total(size);
    lemma_cells_before_monotonic(size, (coord.row + 1) as nat, rows(size));
}

/// Two coordinates on the grid with the same place are the same coordinate.
pub proof fn lemma_index_injective(size: nat, a: BoardCoord, b: BoardCoord)
    requires
        a.in_grid(size),
        b.in_grid(size),
        a.index(size) == b.index(size),
    ensures
        a == b,
{
    if a.row < b.row {
        lemma_cells_before_monotonic(size, (a.row + 1) as nat, b.row as nat);
    }
    if b.row < a.row {
        lemma_cells_before_monotonic(size, (b.row + 1) as nat, a.row as nat);
    }
}

/// Some row at or below `row` holds the cell with place `index`.
proof fn lemma_cell_exists_from(size: nat, row: nat, index: nat)
    requires
        usable(size),
        row < rows(size),
        cells_before(size, row) <= index < area(size),
    ensures
        exists|c: BoardCoord| c.in_grid(size) && c.index(size) == index,
    decreases rows(size) - row,
{
    lemma_usable_small(size);
    lemma_width_bounds(size, row);
    if index < cells_before(size, row) + width(size, row) {
        let c = BoardCoord { row: row as usize, col: (index - cells_before(size, row)) as usize };
        assert(c.in_grid(size) && c.index(size) == index);
    } else {
        lemma_cells_total(size);
        if row + 1 >= rows(size) {
            lemma_cells_before_monotonic(size, rows(size), row + 1);
        }
        lemma_cell_exists_from(size, row + 1, index);
    }
}

/// Every place below the cell count belongs to a coordinate on the grid, and
/// mapping the place to its coordinate and back gives the place again.
pub proof fn lemma_index_of_at(size: nat, index: nat)
    requires
        usable(size),
        index < area(size),
    ensures
        BoardCoord::at(size, index).in_grid(size),
        BoardCoord::at(size, index).index(size) == index,
{
    lemma_width_bounds(size, 0);
    lemma_cell_exists_from(size, 0, index);
}

/// Mapping a coordinate on the grid to its place and back gives the
/// coordinate again.
pub proof fn lemma_at_of_index(size: nat, coord: BoardCoord)
    requires
        usable(size),
        coord.in_grid(size),
    ensures
        coord.index(size) < area(size),
        BoardCoord::at(size, coord.index(size)) == coord,
{
    lemma_index_in_range(size, coord);
    lemma_index_of_at(size, coord.index(size));
    lemma_index_injective(size, coord, BoardCoord::at(size, coord.index(size)));
}

/// The places whose coordinates lie in row `row`.
pub open spec fn places_in_row(size: nat, row: nat) -> Set<int> {
    Set::new(|i: int| 0 <= i < area(size) && BoardCoord::at(size, i as nat).row == row)
}

/// Row `row` of the grid holds exactly `width(size, row)` of the cells.
pub proof fn lemma_row_population(size: nat, row: nat)
    requires
        usable(size),
        row < rows(size),
    ensures
        places_in_row(size, row).finite(),
        places_in_row(size, row).len() == width(size, row),
{
    let lo = cells_before(size, row) as int;
    let hi = lo + width(size, row);
    lemma_usable_small(size);
    lemma_width_bounds(size, row);
    assert forall|i: int| places_in_row(size, row).contains(i) <==> lo <= i < hi by {
        if 0 <= i < area(size) {
            lemma_index_of_at(size, i as nat);
        }
        if lo <= i < hi {
            let c = BoardCoord { row: row as usize, col: (i - lo) as usize };
            lemma_at_of_index(size, c);
        }
    }
    assert(places_in_row(size, row) =~= set_int_range(lo, hi));
    vstd::set_lib::lemma_int_range(lo, hi);
}

/// The coordinates stand in row-major order, none of them twice.
pub open spec fn ascending(coords: Seq<BoardCoord>) -> bool {
    forall|i: int, j: int| 0 <= i < j < coords.len() ==> coords[i].before(coords[j])
}

/// Two ascending sequences that hold the same coordinates are equal.
pub proof fn lemma_ascending_unique(a: Seq<BoardCoord>, b: Seq<BoardCoord>)
    requires
        ascending(a),
        ascending(b),
        a.to_set() == b.to_set(),
    ensures
        a == b,
    decreases a.len(),
{
    if a.len() == 0 {
        if b.len() > 0 {
            assert(b.to_set().contains(b[0]));
        }
        assert(a =~= b);
    } else if b.len() == 0 {
        assert(a.to_set().contains(a[0]));
    } else {
        assert(a.to_set().contains(a[0]));
        assert(b.to_set().contains(b[0]));
        let i = choose|i: int| 0 <= i < b.len() && b[i] == a[0];
        let j = choose|j: int| 0 <= j < a.len() && a[j] == b[0];
        assert(a[0] == b[0]) by {
            if i > 0 && j > 0 {
                assert(b[0].before(b[i]));
                assert(a[0].before(a[j]));
            }
        }
        let ra = a.drop_first();
        let rb = b.drop_first();
        assert forall|c: BoardCoord| ra.to_set().contains(c) <==> rb.to_set().contains(c) by {
            if ra.to_set().contains(c) {
                let k = choose|k: int| 0 <= k < ra.len() && ra[k] == c;
                assert(a[k + 1] == c);
                assert(a[0].before(a[k + 1]));
                assert(a.to_set().contains(c));
                let l = choose|l: int| 0 <= l < b.len() && b[l] == c;
                assert(rb[l - 1] == c);
            }
            if rb.to_set().contains(c) {
                let k = choose|k: int| 0 <= k < rb.len() && rb[k] == c;
                assert(b[k + 1] == c);
                assert(b[0].before(b[k + 1]));
                assert(b.to_set().contains(c));
                let l = choose|l: int| 0 <= l < a.len() && a[l] == c;
                assert(ra[l - 1] == c);
            }
        }
        assert(ra.to_set() =~= rb.to_set());
        lemma_ascending_unique(ra, rb);
        assert(a =~= seq![a[0]] + ra);
        assert(b =~= seq![b[0]] + rb);
    }
}

/// Puts a coordinate into an ascending sequence, unless it is there.
fn insert_ascending(coords: &mut Vec<BoardCoord>, coord: BoardCoord)
    requires
        ascending(old(coords)@),
    ensures
        ascending(final(coords)@),
        final(coords)@.to_set() == old(coords)@.to_set().insert(coord),
{
    let mut at: usize = 0;
    while at < coords.len() && (coords[at].row < coord.row || (coords[at].row == coord.row
        && coords[at].col < coord.col))
        invariant
            at <= coords.len(),
            coords@ == old(coords)@,
            forall|i: int| 0 <= i < at ==> coords[i].before(coord),
        decreases coords.len() - at,
    {
        at = at + 1;
    }
    if at < coords.len() && coords[at].row == coord.row && coords[at].col == coord.col {
        assert(coords@.to_set().contains(coord));
        assert(coords@.to_set() =~= old(coords)@.to_set().insert(coord));
    } else {
        coords.insert(at, coord);
        assert forall|i: int, j: int| 0 <= i < j < coords.len() implies coords[i].before(
            coords[j],
        ) by {
            let before = old(coords)@;
            if j < at {
                assert(before[i].before(before[j]));
            } else if j == at {
            } else if i < at {
                assert(before[i].before(before[j - 1]));
            } else if i == at {
                assert(j - 1 > at ==> before[at as int].before(before[j - 1]));
            } else {
                assert(before[i - 1].before(before[j - 1]));
            }
        }
        assert forall|c: BoardCoord|
            coords@.to_set().contains(c) <==> old(coords)@.to_set().insert(coord).contains(
                c,
            ) by {
            if coords@.to_set().contains(c) {
                let k = choose|k: int| 0 <= k < coords.len() && coords[k] == c;
                if k < at {
                    assert(old(coords)@[k] == c);
                } else if k > at {
                    assert(old(coords)@[k - 1] == c);
                }
            }
            if c == coord {
                assert(coords[at as int] == c);
            } else if old(coords)@.to_set().contains(c) {
                let k = choose|k: int| 0 <= k < old(coords)@.len() && old(coords)@[k] == c;
                if k < at {
                    assert(coords[k] == c);
                } else {
                    assert(coords[k + 1] == c);
                }
            }
        }
        assert(coords@.to_set() =~= old(coords)@.to_set().insert(coord));
    }
}

/// The given coordinates in row-major order, each once.
fn in_ascending_order(coords: &[BoardCoord]) -> (sorted: Vec<BoardCoord>)
    ensures
        ascending(sorted@),
        sorted@.to_set() == coords@.to_set(),
{
    let mut sorted: Vec<BoardCoord> = Vec::new();
    let mut i: usize = 0;
    assert(sorted@.to_set() =~= coords@.take(0).to_set());
    while i < coords.len()
        invariant
            i <= coords.len(),
            ascending(sorted@),
            sorted@.to_set() == coords@.take(i as int).to_set(),
        decreases coords.len() - i,
    {
        insert_ascending(&mut sorted, coords[i]);
        proof {
            assert(coords@.take(i + 1) =~= coords@.take(i as int).push(coords@[i as int]));
            coords@.take(i as int).lemma_push_to_set_commute(coords@[i as int]);
        }
        i = i + 1;
    }
    assert(coords@.take(coords.len() as int) =~= coords@);
    sorted
}

/// The coordinates that one move clears together: a set with at least one
/// member. Two match sets are equal when they hold the same coordinates, in
/// whatever order they were given.
#[derive(Debug, Hash)]
pub struct MatchSet {
    coords: Vec<BoardCoord>,
}

impl View for MatchSet {
    type V = Set<BoardCoord>;

    closed spec fn view(&self) -> Set<BoardCoord> {
        self.coords@.to_set()
    }
}

impl MatchSet {
    /// The coordinates are kept in row-major order, each once, and there is
    /// at least one.
    #[verifier::type_invariant]
    pub closed spec fn well_formed(&self) -> bool {
        ascending(self.coords@) && self.coords@.len() > 0
    }

    /// The coordinates of the set in row-major order.
    pub closed spec fn members(&self) -> Seq<BoardCoord> {
        self.coords@
    }

    /// The match set of the given coordinates.
    pub fn from<const N: usize>(coords: [BoardCoord; N]) -> (set: Self)
        requires
            N > 0,
        ensures
            set@ == coords@.to_set(),
    {
        let sorted = in_ascending_order(coords.as_slice());
        assert(sorted@.to_set().contains(coords@[0]));
        MatchSet { coords: sorted }
    }

    /// The match set of the given coordinates, if there is at least one.
    pub fn try_from_iter(coords: Vec<BoardCoord>) -> (made: Result<Self, MatchSetError>)
        ensures
            coords@.len() == 0 <==> made == Err::<Self, MatchSetError>(
                MatchSetError::EmptyMatchSet,
            ),
            coords@.len() > 0 <==> made is Ok,
            made is Ok ==> made->Ok_0@ == coords@.to_set(),
    {
        if coords.len() == 0 {
            return Err(MatchSetError::EmptyMatchSet);
        }
        let sorted = in_ascending_order(coords.as_slice());
        assert(sorted@.to_set().contains(coords@[0]));
        Ok(MatchSet { coords: sorted })
    }

    /// Number of coordinates in the set.
    pub fn len(&self) -> (count: usize)
        ensures
            self@.finite(),
            count == self@.len(),
            count > 0,
    {
        proof {
            use_type_invariant(self);
            lemma_ascending_distinct(self.coords@);
            self.coords@.unique_seq_to_set();
            seq_to_set_is_finite(self.coords@);
        }
        self.coords.len()
    }

    /// Whether the set holds the coordinate.
    pub fn contains(&self, coord: &BoardCoord) -> (found: bool)
        ensures
            found == self@.contains(*coord),
    {
        let mut i: usize = 0;
        while i < self.coords.len()
            invariant
                i <= self.coords.len(),
                forall|j: int| 0 <= j < i ==> self.coords[j] != *coord,
            decreases self.coords.len() - i,
        {
            if self.coords[i].row == coord.row && self.coords[i].col == coord.col {
                return true;
            }
            i = i + 1;
        }
        false
    }

    /// Whether two match sets hold the same coordinates.
    pub fn same(&self, other: &MatchSet) -> (same: bool)
        ensures
            same == (self@ == other@),
    {
        proof {
            use_type_invariant(self);
            use_type_invariant(other);
            if self@ == other@ {
                lemma_ascending_unique(self.coords@, other.coords@);
            }
        }
        if self.coords.len() != other.coords.len() {
            return false;
        }
        let mut i: usize = 0;
        while i < self.coords.len()
            invariant
                i <= self.coords.len(),
                self.coords.len() == other.coords.len(),
                self@ == other@ ==> self.coords@ == other.coords@,
                forall|j: int| 0 <= j < i ==> self.coords[j] == other.coords[j],
            decreases self.coords.len() - i,
        {
            if self.coords[i].row != other.coords[i].row || self.coords[i].col
                != other.coords[i].col {
                return false;
            }
            i = i + 1;
        }
        assert(self.coords@ =~= other.coords@);
        true
    }

    /// The coordinates of the set in row-major order.
    pub fn as_slice(&self) -> (coords: &[BoardCoord])
        ensures
            coords@ == self.members(),
            coords@.to_set() == self@,
            ascending(coords@),
            coords@.len() > 0,
    {
        proof {
            use_type_invariant(self);
        }
        self.coords.as_slice()
    }

    /// Walks the coordinates of the set in row-major order.
    pub fn iter(&self) -> (walk: std::slice::Iter<'_, BoardCoord>)
        ensures
            IteratorSpec::remaining(&walk) == self.members().as_ref(),
            IteratorSpec::decrease(&walk) is Some,
            IteratorSpec::initial_value_relation(&walk, &walk),
    {
        let coords = self.coords.as_slice();
        proof {
            axiom_spec_slice_iter(coords);
        }
        coords.iter()
    }
}

impl IntoIterator for MatchSet {
    type Item = BoardCoord;

    type IntoIter = std::vec::IntoIter<BoardCoord>;

    /// Hands out the coordinates of the set in row-major order.
    fn into_iter(self) -> (walk: std::vec::IntoIter<BoardCoord>)
        ensures
            IteratorSpec::remaining(&walk) == self.members(),
            IteratorSpec::decrease(&walk) is Some,
            IteratorSpec::initial_value_relation(&walk, &walk),
    {
        proof {
            axiom_spec_into_iter(self.coords);
        }
        self.coords.into_iter()
    }
}

impl Clone for MatchSet {
    fn clone(&self) -> (copy: Self)
        ensures
            copy@ == self@,
            copy.members() == self.members(),
    {
        proof {
            use_type_invariant(self);
        }
        let mut coords: Vec<BoardCoord> = Vec::new();
        let mut i: usize = 0;
        while i < self.coords.len()
            invariant
                i <= self.coords.len(),
                coords@ == self.coords@.take(i as int),
            decreases self.coords.len() - i,
        {
            coords.push(self.coords[i]);
            assert(coords@ =~= self.coords@.take(i + 1));
            i = i + 1;
        }
        assert(coords@ =~= self.coords@);
        MatchSet { coords }
    }
}

impl PartialEqSpecImpl for MatchSet {
    open spec fn obeys_eq_spec() -> bool {
        true
    }

    open spec fn eq_spec(&self, other: &Self) -> bool {
        self@ == other@
    }
}

impl PartialEq for MatchSet {
    fn eq(&self, other: &Self) -> (same: bool) {
        self.same(other)
    }
}

impl Eq for MatchSet {

}

/// What the items of a sequence stand for: the view of each.
pub open spec fn views<S: View>(items: Seq<S>) -> Seq<S::V> {
    items.map_values(|item: S| item@)
}

/// A set of match sets: no two of its members hold the same coordinates.
#[derive(Debug)]
pub struct MatchSets {
    sets: Vec<MatchSet>,
}

impl View for MatchSets {
    type V = Set<Set<BoardCoord>>;

    closed spec fn view(&self) -> Set<Set<BoardCoord>> {
        views(self.sets@).to_set()
    }
}

impl MatchSets {
    /// No two members hold the same coordinates.
    #[verifier::type_invariant]
    pub closed spec fn well_formed(&self) -> bool {
        views(self.sets@).no_duplicates()
    }

    /// The match sets in the order in which they were put in.
    pub closed spec fn members(&self) -> Seq<MatchSet> {
        self.sets@
    }

    /// The set without members.
    pub fn new() -> (sets: Self)
        ensures
            sets@ == Set::<Set<BoardCoord>>::empty(),
            sets.members() == Seq::<MatchSet>::empty(),
    {
        let sets = MatchSets { sets: Vec::new() };
        assert(sets@ =~= Set::<Set<BoardCoord>>::empty());
        sets
    }

    /// Number of match sets.
    pub fn len(&self) -> (count: usize)
        ensures
            self@.finite(),
            count == self@.len(),
    {
        proof {
            use_type_invariant(self);
            views(self.sets@).unique_seq_to_set();
            seq_to_set_is_finite(views(self.sets@));
        }
        self.sets.len()
    }

    /// Whether there is no match set.
    pub fn is_empty(&self) -> (none: bool)
        ensures
            none == (self@ == Set::<Set<BoardCoord>>::empty()),
    {
        proof {
            if self.sets@.len() > 0 {
                assert(views(self.sets@)[0] == self.sets@[0]@);
                assert(self@.contains(self.sets@[0]@));
            } else {
                assert(self@ =~= Set::<Set<BoardCoord>>::empty());
            }
        }
        self.sets.len() == 0
    }

    /// Whether a match set of the same coordinates is a member.
    pub fn contains(&self, set: &MatchSet) -> (found: bool)
        ensures
            found == self@.contains(set@),
    {
        let mut i: usize = 0;
        while i < self.sets.len()
            invariant
                i <= self.sets.len(),
                forall|j: int| 0 <= j < i ==> views(self.sets@)[j] != set@,
            decreases self.sets.len() - i,
        {
            if self.sets[i].same(set) {
                assert(views(self.sets@)[i as int] == set@);
                return true;
            }
            i = i + 1;
        }
        false
    }

    /// Makes a match set a member, unless one of the same coordinates is.
    /// Tells whether it was new.
    pub fn insert(&mut self, set: MatchSet) -> (fresh: bool)
        ensures
            final(self)@ == old(self)@.insert(set@),
            fresh == !old(self)@.contains(set@),
            final(self).members() == if fresh {
                old(self).members().push(set)
            } else {
                old(self).members()
            },
    {
        if self.contains(&set) {
            assert(self@ =~= self@.insert(set@));
            return false;
        }
        proof {
            use_type_invariant(&*self);
        }
        let mut sets: Vec<MatchSet> = Vec::new();
        assert(views(sets@) =~= Seq::empty());
        core::mem::swap(&mut self.sets, &mut sets);
        proof {
            assert(views(sets@.push(set)) =~= views(sets@).push(set@));
            views(sets@).lemma_push_to_set_commute(set@);
        }
        sets.push(set);
        core::mem::swap(&mut self.sets, &mut sets);
        true
    }

    /// Makes every member of another set a member of this one.
    pub fn absorb(&mut self, other: MatchSets)
        ensures
            final(self)@ == old(self)@.union(other@),
    {
        let mut rest = other.into_vec();
        while rest.len() > 0
            invariant
                self@.union(views(rest@).to_set()) == old(self)@.union(other@),
            decreases rest.len(),
        {
            let ghost before = rest@;
            let ghost held = self@;
            let set = rest.pop().unwrap();
            proof {
                assert(views(before) =~= views(rest@).push(set@));
                views(rest@).lemma_push_to_set_commute(set@);
                assert(held.insert(set@).union(views(rest@).to_set()) =~= held.union(
                    views(before).to_set(),
                ));
            }
            self.insert(set);
        }
        assert(views(rest@).to_set() =~= Set::<Set<BoardCoord>>::empty());
        assert(self@.union(Set::<Set<BoardCoord>>::empty()) =~= self@);
    }

    /// The match sets in the order in which they were put in.
    pub fn as_slice(&self) -> (sets: &[MatchSet])
        ensures
            sets@ == self.members(),
            views(sets@).to_set() == self@,
            views(sets@).no_duplicates(),
    {
        proof {
            use_type_invariant(self);
        }
        self.sets.as_slice()
    }

    /// The match sets in the order in which they were put in.
    pub fn into_vec(self) -> (sets: Vec<MatchSet>)
        ensures
            sets@ == self.members(),
            views(sets@).to_set() == self@,
            views(sets@).no_duplicates(),
    {
        proof {
            use_type_invariant(&self);
        }
        self.sets
    }

    /// Walks the match sets in the order in which they were put in.
    pub fn iter(&self) -> (walk: std::slice::Iter<'_, MatchSet>)
        ensures
            IteratorSpec::remaining(&walk) == self.members().as_ref(),
            IteratorSpec::decrease(&walk) is Some,
            IteratorSpec::initial_value_relation(&walk, &walk),
    {
        let sets = self.sets.as_slice();
        proof {
            axiom_spec_slice_iter(sets);
        }
        sets.iter()
    }
}

impl IntoIterator for MatchSets {
    type Item = MatchSet;

    type IntoIter = std::vec::IntoIter<MatchSet>;

    /// Hands out the match sets in the order in which they were put in.
    fn into_iter(self) -> (walk: std::vec::IntoIter<MatchSet>)
        ensures
            IteratorSpec::remaining(&walk) == self.members(),
            IteratorSpec::decrease(&walk) is Some,
            IteratorSpec::initial_value_relation(&walk, &walk),
    {
        proof {
            axiom_spec_into_iter(self.sets);
        }
        self.sets.into_iter()
    }
}

/// No coordinate stands twice in an ascending sequence.
pub proof fn lemma_ascending_distinct(coords: Seq<BoardCoord>)
    requires
        ascending(coords),
    ensures
        coords.no_duplicates(),
{
    assert forall|i: int, j: int| 0 <= i < coords.len() && 0 <= j < coords.len() && i != j implies coords[i] != coords[j] by {
        if i < j {
            assert(coords[i].before(coords[j]));
        } else {
            assert(coords[j].before(coords[i]));
        }
    }
}

} // verus!
