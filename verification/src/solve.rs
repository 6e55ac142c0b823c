//! The search for a sequence of moves that clears the board.

use std::collections::HashMap;
use vstd::prelude::*;
use crate::board::{Board, Grid};
use crate::coord::{views, BoardCoord, MatchSet};
use crate::position::{lemma_move_shrinks, lemma_moves_take_candidates, lemma_without_is_grid};
use crate::tile::Tile;

verus! {

/// What kind of move a match set is, going by the tiles at its cells.
#[derive(Debug, Clone, Copy, PartialEq, Eq, Structural)]
pub enum MoveType {
    /// Elements only.
    Element,
    /// Elements and Thetas.
    ElementTheta,
    /// Thetas only.
    ThetaTheta,
    /// Opposites only.
    Duality,
    /// Metals and Quicksilver.
    Metal,
    /// Gold only.
    Gold,
    /// Anything else.
    Unknown,
}

impl MoveType {
    /// Whether a tile may stand in a move of this kind.
    pub open spec fn admits(self, tile: Tile) -> bool {
        match self {
            MoveType::Element => tile is Element,
            MoveType::ElementTheta => tile is Element || tile is Theta,
            MoveType::ThetaTheta => tile is Theta,
            MoveType::Duality => tile is Binary,
            MoveType::Metal => tile is Metal || tile is Quicksilver,
            MoveType::Gold => tile is Gold,
            MoveType::Unknown => true,
        }
    }

    /// Whether every tile at a cell of the set may stand in a move of this
    /// kind.
    pub open spec fn fits(self, grid: Grid, set: Set<BoardCoord>) -> bool {
        forall|c: BoardCoord| set.contains(c) ==> self.admits(#[trigger] grid.tile(c))
    }

    /// The kind of a match set: the first of the kinds, in the order below,
    /// that its tiles fit.
    pub open spec fn of(grid: Grid, set: Set<BoardCoord>) -> MoveType {
        if MoveType::Element.fits(grid, set) {
            MoveType::Element
        } else if MoveType::ThetaTheta.fits(grid, set) {
            MoveType::ThetaTheta
        } else if MoveType::ElementTheta.fits(grid, set) {
            MoveType::ElementTheta
        } else if MoveType::Duality.fits(grid, set) {
            MoveType::Duality
        } else if MoveType::Metal.fits(grid, set) {
            MoveType::Metal
        } else if MoveType::Gold.fits(grid, set) {
            MoveType::Gold
        } else {
            MoveType::Unknown
        }
    }

    /// Whether a tile may stand in a move of this kind.
    pub fn takes(&self, tile: &Tile) -> (admitted: bool)
        ensures
            admitted == self.admits(*tile),
    {
        match self {
            MoveType::Element => matches!(tile, Tile::Element(_)),
            MoveType::ElementTheta => matches!(tile, Tile::Element(_) | Tile::Theta),
            MoveType::ThetaTheta => matches!(tile, Tile::Theta),
            MoveType::Duality => matches!(tile, Tile::Binary(_)),
            MoveType::Metal => matches!(tile, Tile::Metal(_) | Tile::Quicksilver),
            MoveType::Gold => matches!(tile, Tile::Gold),
            MoveType::Unknown => true,
        }
    }

    /// Whether every tile at a cell of the set may stand in a move of this
    /// kind.
    pub fn suits(&self, board: &Board, match_set: &MatchSet) -> (fitting: bool)
        requires
            forall|c: BoardCoord| match_set@.contains(c) ==> board@.has(c),
        ensures
            fitting == self.fits(board@, match_set@),
    {
        let coords = match_set.as_slice();
        let mut i: usize = 0;
        while i < coords.len()
            invariant
                i <= coords.len(),
                coords@.to_set() == match_set@,
                forall|c: BoardCoord| match_set@.contains(c) ==> board@.has(c),
                forall|j: int| 0 <= j < i ==> self.admits(board@.tile(coords@[j])),
            decreases coords.len() - i,
        {
            assert(coords@.to_set().contains(coords@[i as int]));
            if !self.takes(board.get_tile(&coords[i])) {
                return false;
            }
            i = i + 1;
        }
        true
    }

    /// The kind of a match set on a board.
    pub fn identify(board: &Board, match_set: &MatchSet) -> (kind: MoveType)
        requires
            forall|c: BoardCoord| match_set@.contains(c) ==> board@.has(c),
        ensures
            kind == MoveType::of(board@, match_set@),
    {
        if MoveType::Element.suits(board, match_set) {
            MoveType::Element
        } else if MoveType::ThetaTheta.suits(board, match_set) {
            MoveType::ThetaTheta
        } else if MoveType::ElementTheta.suits(board, match_set) {
            MoveType::ElementTheta
        } else if MoveType::Duality.suits(board, match_set) {
            MoveType::Duality
        } else if MoveType::Metal.suits(board, match_set) {
            MoveType::Metal
        } else if MoveType::Gold.suits(board, match_set) {
            MoveType::Gold
        } else {
            MoveType::Unknown
        }
    }
}

/// Every tile at a cell of the set is one of the last two of its kind on
/// the board.
pub open spec fn last_of_kind(grid: Grid, set: Set<BoardCoord>) -> bool {
    forall|c: BoardCoord| set.contains(c) ==> grid.count(#[trigger] grid.tile(c)) <= 2
}

/// The place of a move in the order in which moves are tried. A move with a
/// lower number is tried first: Gold, then Quicksilver with a metal, then
/// the last pair of an element, then other pairs of elements and pairs of
/// opposites, then what fits no kind, then two Thetas, and last a Theta
/// with an element.
pub open spec fn rank(grid: Grid, set: Set<BoardCoord>) -> nat {
    match MoveType::of(grid, set) {
        MoveType::Gold => 0,
        MoveType::Metal => 1,
        MoveType::Element => if last_of_kind(grid, set) {
            2
        } else {
            3
        },
        MoveType::Duality => 3,
        MoveType::Unknown => 4,
        MoveType::ThetaTheta => 5,
        MoveType::ElementTheta => 6,
    }
}

/// Whether every tile at a cell of the set is one of the last two of its
/// kind on the board.
pub fn is_last_of_kind(board: &Board, match_set: &MatchSet) -> (last: bool)
    requires
        forall|c: BoardCoord| match_set@.contains(c) ==> board@.has(c),
    ensures
        last == last_of_kind(board@, match_set@),
{
    let coords = match_set.as_slice();
    let mut i: usize = 0;
    while i < coords.len()
        invariant
            i <= coords.len(),
            coords@.to_set() == match_set@,
            forall|c: BoardCoord| match_set@.contains(c) ==> board@.has(c),
            forall|j: int| 0 <= j < i ==> board@.count(board@.tile(coords@[j])) <= 2,
        decreases coords.len() - i,
    {
        assert(coords@.to_set().contains(coords@[i as int]));
        if board.count_tile(board.get_tile(&coords[i])) > 2 {
            return false;
        }
        i = i + 1;
    }
    true
}

/// The place of a move in the order in which moves are tried.
pub fn priority(board: &Board, match_set: &MatchSet) -> (place: u8)
    requires
        forall|c: BoardCoord| match_set@.contains(c) ==> board@.has(c),
    ensures
        place == rank(board@, match_set@),
{
    match MoveType::identify(board, match_set) {
        MoveType::Gold => 0,
        MoveType::Metal => 1,
        MoveType::Element => if is_last_of_kind(board, match_set) {
            2
        } else {
            3
        },
        MoveType::Duality => 3,
        MoveType::Unknown => 4,
        MoveType::ThetaTheta => 5,
        MoveType::ElementTheta => 6,
    }
}

/// The match sets stand in the order in which they are tried on the grid.
#[verifier::opaque]
pub open spec fn in_order(grid: Grid, steps: Seq<Set<BoardCoord>>) -> bool {
    forall|i: int, j: int| 0 <= i < j < steps.len() ==> rank(grid, steps[i]) <= rank(grid, steps[j])
}

/// A puzzle that a sequence of steps solves. A state of the puzzle is seen
/// through its view, and so is a step.
///
/// The search leans on four things that an implementation states of its
/// states and steps: which states are valid, which are goals, which steps a
/// state offers, and what state a step leaves. A step leaves a valid state
/// valid and nearer to the end: `distance` is a bound on the number of steps
/// that can still be taken.
pub trait Solvable: View + Sized {
    /// A type representing the transition between states.
    type Step: View;

    /// The states that the puzzle can be in.
    spec fn valid(state: Self::V) -> bool;

    /// Whether a state is a goal state.
    spec fn goal(state: Self::V) -> bool;

    /// The steps that are possible from a state.
    spec fn steps(state: Self::V) -> Set<<Self::Step as View>::V>;

    /// The state that a step leaves.
    spec fn after(state: Self::V, step: <Self::Step as View>::V) -> Self::V;

    /// A bound on the number of steps that can be taken from a state.
    spec fn distance(state: Self::V) -> nat;

    /// A number that equal states share.
    spec fn digest_of(state: Self::V) -> u64;

    /// A step leaves a valid state valid, and nearer to the end.
    proof fn lemma_step(state: Self::V, step: <Self::Step as View>::V)
        requires
            Self::valid(state),
            Self::steps(state).contains(step),
        ensures
            Self::valid(Self::after(state, step)),
            Self::distance(Self::after(state, step)) < Self::distance(state),
    ;

    /// The distance of a valid state fits the machine.
    proof fn lemma_distance_fits(state: Self::V)
        requires
            Self::valid(state),
        ensures
            Self::distance(state) <= usize::MAX,
    ;

    /// Whether the current state is a goal state.
    fn is_goal(&self) -> (goal: bool)
        requires
            Self::valid(self@),
        ensures
            goal == Self::goal(self@),
    ;

    /// The steps that are possible from the current state, in the order in
    /// which a search is to try them.
    fn next_steps(&self) -> (steps: Vec<Self::Step>)
        requires
            Self::valid(self@),
        ensures
            views::<Self::Step>(steps@).to_set() == Self::steps(self@),
    ;

    /// Applies a step to the current state and gives the state it leaves.
    fn apply_step(&self, step: &Self::Step) -> (next: Self)
        requires
            Self::valid(self@),
            Self::steps(self@).contains(step@),
        ensures
            next@ == Self::after(self@, step@),
    ;

    /// Whether two states are equal.
    fn is_same(&self, other: &Self) -> (same: bool)
        ensures
            same == (self@ == other@),
    ;

    /// A number that equal states share.
    fn digest(&self) -> (digest: u64)
        ensures
            digest == Self::digest_of(self@),
    ;

    /// A copy of the state.
    fn copy(&self) -> (copy: Self)
        ensures
            copy@ == self@,
    ;

    /// A copy of a step.
    fn copy_step(step: &Self::Step) -> (copy: Self::Step)
        ensures
            copy@ == step@,
    ;
}


/// The steps of `path`, taken in order, are each possible from the state that
/// the ones before it leave, and the last one leaves a goal state.
pub open spec fn solves<G: Solvable>(state: G::V, path: Seq<<G::Step as View>::V>) -> bool
    decreases path.len(),
{
    if path.len() == 0 {
        G::goal(state)
    } else {
        G::steps(state).contains(path[0]) && solves::<G>(
            G::after(state, path[0]),
            path.drop_first(),
        )
    }
}

/// Some sequence of steps leads from the state to a goal state.
#[verifier::opaque]
pub open spec fn solvable<G: Solvable>(state: G::V) -> bool {
    exists|path: Seq<<G::Step as View>::V>| solves::<G>(state, path)
}

/// A sequence of steps that solves a state shows that it can be solved.
pub proof fn lemma_solved_is_solvable<G: Solvable>(state: G::V, path: Seq<<G::Step as View>::V>)
    requires
        solves::<G>(state, path),
    ensures
        solvable::<G>(state),
{
    reveal(solvable);
}

/// A step, followed by steps that solve the state it leaves, solves the
/// state.
pub proof fn lemma_step_then_solution<G: Solvable>(state: G::V, path: Seq<G::Step>, n: int)
    requires
        0 <= n < path.len(),
        G::steps(state).contains(path[n]@),
        solves::<G>(G::after(state, path[n]@), views::<G::Step>(path.skip(n + 1))),
    ensures
        solves::<G>(state, views::<G::Step>(path.skip(n))),
{
    let tail = views::<G::Step>(path.skip(n));
    assert(tail[0] == path[n]@);
    assert(tail.drop_first() =~= views::<G::Step>(path.skip(n + 1)));
}

/// A state that is no goal, and whose every step leaves a state that cannot
/// be solved, cannot be solved.
pub proof fn lemma_dead_end<G: Solvable>(state: G::V, steps: Seq<<G::Step as View>::V>)
    requires
        !G::goal(state),
        steps.to_set() == G::steps(state),
        forall|j: int|
            0 <= j < steps.len() ==> !solvable::<G>(G::after(state, #[trigger] steps[j])),
    ensures
        !solvable::<G>(state),
{
    reveal(solvable);
    assert forall|way: Seq<<G::Step as View>::V>| !solves::<G>(state, way) by {
        if solves::<G>(state, way) {
            assert(steps.to_set().contains(way[0]));
            let j = choose|j: int| 0 <= j < steps.len() && steps[j] == way[0];
            lemma_solved_is_solvable::<G>(G::after(state, steps[j]), way.drop_first());
        }
    }
}

/// The states that the search has been in, each with the depth at which it
/// was last noted. The states are filed by their digests.
pub struct Visited<G: Solvable> {
    shelves: HashMap<u64, Vec<(G, usize)>>,
}

/// What a sequence of notes says: for each state the depth of the last note
/// of it.
pub open spec fn noted<G: Solvable>(entries: Seq<(G, usize)>) -> Map<G::V, usize>
    decreases entries.len(),
{
    if entries.len() == 0 {
        Map::empty()
    } else {
        noted(entries.drop_last()).insert(entries.last().0@, entries.last().1)
    }
}

/// What the notes on the shelf of a state say.
pub open spec fn shelved<G: Solvable>(
    shelves: Map<u64, Vec<(G, usize)>>,
    state: G::V,
) -> Map<G::V, usize> {
    if shelves.dom().contains(G::digest_of(state)) {
        noted(shelves[G::digest_of(state)]@)
    } else {
        Map::empty()
    }
}

/// The depth of the last note of a state among some notes, if there is one.
fn last_note<G: Solvable>(entries: &Vec<(G, usize)>, game: &G) -> (depth: Option<usize>)
    ensures
        depth == if noted(entries@).dom().contains(game@) {
            Some(noted(entries@)[game@])
        } else {
            None::<usize>
        },
{
    let mut i: usize = entries.len();
    assert(entries@.take(i as int) =~= entries@);
    while i > 0
        invariant
            i <= entries.len(),
            noted(entries@).dom().contains(game@) == noted(entries@.take(i as int)).dom().contains(
                game@,
            ),
            noted(entries@).dom().contains(game@) ==> noted(entries@)[game@] == noted(
                entries@.take(i as int),
            )[game@],
        decreases i,
    {
        proof {
            assert(entries@.take(i as int).drop_last() =~= entries@.take(i - 1));
        }
        i = i - 1;
        if entries[i].0.is_same(game) {
            return Some(entries[i].1);
        }
    }
    None
}

impl<G: Solvable> View for Visited<G> {
    type V = Map<G::V, usize>;

    closed spec fn view(&self) -> Map<G::V, usize> {
        Map::new(
            |state: G::V| shelved(self.shelves@, state).dom().contains(state),
            |state: G::V| shelved(self.shelves@, state)[state],
        )
    }
}

impl<G: Solvable> Visited<G> {
    /// No state has been noted.
    pub fn new() -> (seen: Self)
        ensures
            seen@ == Map::<G::V, usize>::empty(),
    {
        let seen = Visited { shelves: HashMap::new() };
        assert(seen@ =~= Map::<G::V, usize>::empty());
        seen
    }

    /// The depth at which a state was last noted, if it was.
    pub fn get(&self, game: &G) -> (depth: Option<usize>)
        ensures
            depth == if self@.dom().contains(game@) {
                Some(self@[game@])
            } else {
                None::<usize>
            },
    {
        let digest = game.digest();
        match self.shelves.get(&digest) {
            Some(shelf) => last_note(shelf, game),
            None => None,
        }
    }

    /// Notes a state with the depth at which the search is in it.
    pub fn insert(&mut self, game: G, depth: usize)
        ensures
            final(self)@ == old(self)@.insert(game@, depth),
    {
        let digest = game.digest();
        let ghost before = self.shelves@;
        let mut shelf = match self.shelves.remove(&digest) {
            Some(shelf) => shelf,
            None => Vec::new(),
        };
        let ghost notes = shelf@;
        proof {
            assert(shelved(before, game@) == noted(notes));
            assert(notes.push((game, depth)).drop_last() =~= notes);
        }
        shelf.push((game, depth));
        self.shelves.insert(digest, shelf);
        proof {
            let after = self.shelves@;
            assert forall|state: G::V| #[trigger]
                shelved(after, state) == if G::digest_of(state) == digest {
                    shelved(before, state).insert(game@, depth)
                } else {
                    shelved(before, state)
                } by {
                if G::digest_of(state) == digest {
                    assert(shelved(before, state) == shelved(before, game@));
                }
            }
            assert(self@ =~= old(self)@.insert(game@, depth));
        }
    }
}

/// Every noted state cannot be solved, or was noted before, or is the one
/// that the search is in.
pub open spec fn settled<G: Solvable>(
    seen: Map<G::V, usize>,
    before: Map<G::V, usize>,
    state: G::V,
) -> bool {
    forall|s: G::V| #[trigger]
        seen.dom().contains(s) ==> !solvable::<G>(s) || before.dom().contains(s) || s == state
}

/// Every noted state cannot be solved, or is farther from the end than
/// `distance`.
pub open spec fn behind<G: Solvable>(seen: Map<G::V, usize>, distance: nat) -> bool {
    forall|s: G::V| #[trigger]
        seen.dom().contains(s) ==> !solvable::<G>(s) || G::distance(s) > distance
}

/// Every state that was noted before is still noted, at the same depth or
/// nearer to the start.
pub open spec fn kept<G: Solvable>(before: Map<G::V, usize>, after: Map<G::V, usize>) -> bool {
    forall|s: G::V| #[trigger]
        before.dom().contains(s) ==> after.dom().contains(s) && after[s] <= before[s]
}

/// The state is noted at the given depth or nearer to the start.
pub open spec fn noted_within<G: Solvable>(
    seen: Map<G::V, usize>,
    state: G::V,
    depth: usize,
) -> bool {
    seen.dom().contains(state) && seen[state] <= depth
}

/// Looks for steps that solve the state, trying the steps of each state in
/// their order and giving up a state that was noted at the same depth or
/// nearer to the start. Where it finds them it leaves them at the end of
/// `path`.
///
/// A goal state is solved by no step at all, and nothing is noted. Any other
/// state is given up, with nothing noted, where it was noted at this depth
/// or nearer to the start; else it is noted at this depth before its steps
/// are tried. What was noted stays noted, and no noted depth grows.
fn depth_first_solution<G: Solvable>(
    game: &G,
    path: &mut Vec<G::Step>,
    seen: &mut Visited<G>,
    depth: usize,
) -> (found: bool)
    requires
        G::valid(game@),
        depth + G::distance(game@) <= usize::MAX,
        behind::<G>(old(seen)@, G::distance(game@)),
    ensures
        found ==> final(path)@.len() >= old(path)@.len() && final(path)@.take(
            old(path)@.len() as int,
        ) == old(path)@ && solves::<G>(
            game@,
            views::<G::Step>(final(path)@.skip(old(path)@.len() as int)),
        ),
        !found ==> final(path)@ == old(path)@ && !solvable::<G>(game@),
        !found ==> settled::<G>(final(seen)@, old(seen)@, game@),
        G::goal(game@) ==> found && final(path)@ == old(path)@ && final(seen)@ == old(seen)@,
        !G::goal(game@) && noted_within::<G>(old(seen)@, game@, depth) ==> !found && final(seen)@
            == old(seen)@,
        !G::goal(game@) ==> noted_within::<G>(final(seen)@, game@, depth),
        kept::<G>(old(seen)@, final(seen)@),
    decreases G::distance(game@),
{
    let ghost state = game@;
    let ghost path0 = path@;
    let ghost seen0 = seen@;
    if game.is_goal() {
        proof {
            assert(path@.skip(path@.len() as int) =~= Seq::empty());
            assert(views::<G::Step>(Seq::<G::Step>::empty()) =~= Seq::empty());
            assert(path@.take(path@.len() as int) =~= path@);
        }
        return true;
    }
    if let Some(min_depth) = seen.get(game) {
        if depth >= min_depth {
            assert(seen0.dom().contains(state));
            return false;
        }
    }
    seen.insert(game.copy(), depth);
    let steps = game.next_steps();
    let mut i: usize = 0;
    while i < steps.len()
        invariant
            i <= steps.len(),
            state == game@,
            G::valid(state),
            !G::goal(state),
            depth + G::distance(state) <= usize::MAX,
            views::<G::Step>(steps@).to_set() == G::steps(state),
            path@ == path0,
            path0 == old(path)@,
            seen0 == old(seen)@,
            behind::<G>(seen0, G::distance(state)),
            settled::<G>(seen@, seen0, state),
            !noted_within::<G>(seen0, state, depth),
            noted_within::<G>(seen@, state, depth),
            kept::<G>(seen0, seen@),
            forall|j: int|
                0 <= j < i ==> !solvable::<G>(
                    G::after(state, #[trigger] views::<G::Step>(steps@)[j]),
                ),
        decreases steps.len() - i,
    {
        let ghost step = steps@[i as int]@;
        let ghost seen1 = seen@;
        proof {
            assert(views::<G::Step>(steps@)[i as int] == step);
            assert(views::<G::Step>(steps@).to_set().contains(step));
            G::lemma_step(state, step);
            assert(behind::<G>(seen1, G::distance(G::after(state, step)))) by {
                assert forall|s: G::V| #[trigger] seen1.dom().contains(s) implies !solvable::<G>(s)
                    || G::distance(s) > G::distance(G::after(state, step)) by {
                    if solvable::<G>(s) && !seen0.dom().contains(s) {
                        assert(s == state);
                    }
                }
            }
        }
        let next = game.apply_step(&steps[i]);
        path.push(G::copy_step(&steps[i]));
        let ghost pushed = path@;
        let found = depth_first_solution(&next, path, seen, depth + 1);
        if found {
            proof {
                let n = path0.len() as int;
                assert(pushed.take(n) =~= path0);
                assert(path@.take(n) =~= path@.take(n + 1).take(n));
                assert(path@[n] == path@.take(n + 1)[n]);
                assert(path@[n]@ == step);
                lemma_step_then_solution::<G>(state, path@, n);
            }
            return true;
        }
        proof {
            assert(settled::<G>(seen@, seen0, state)) by {
                assert forall|s: G::V| #[trigger] seen@.dom().contains(s) implies !solvable::<G>(s)
                    || seen0.dom().contains(s) || s == state by {
                    if solvable::<G>(s) {
                        assert(seen1.dom().contains(s));
                    }
                }
            }
        }
        path.pop();
        assert(path@ =~= path0);
        i = i + 1;
    }
    proof {
        lemma_dead_end::<G>(state, views::<G::Step>(steps@));
    }
    false
}

/// Looks for a sequence of steps that leads from a state to a goal state.
/// Gives one where there is one, and `None` where there is none.
pub fn solve_dfs<G: Solvable>(game: &G) -> (solution: Option<Vec<G::Step>>)
    requires
        G::valid(game@),
    ensures
        match solution {
            Some(path) => solves::<G>(game@, views::<G::Step>(path@)),
            None => !solvable::<G>(game@),
        },
{
    let mut seen: Visited<G> = Visited::new();
    let mut path: Vec<G::Step> = Vec::new();
    proof {
        G::lemma_distance_fits(game@);
    }
    if depth_first_solution(game, &mut path, &mut seen, 0) {
        assert(path@.skip(0) =~= path@);
        Some(path)
    } else {
        None
    }
}

impl Solvable for Board {
    type Step = MatchSet;

    /// Every well-formed grid is a state.
    open spec fn valid(state: Grid) -> bool {
        state.wf()
    }

    /// The goal is the cleared board.
    open spec fn goal(state: Grid) -> bool {
        state.cleared()
    }

    /// The steps are the moves that the position offers.
    open spec fn steps(state: Grid) -> Set<Set<BoardCoord>> {
        state.moves()
    }

    /// A step clears its match set.
    open spec fn after(state: Grid, step: Set<BoardCoord>) -> Grid {
        state.without(step)
    }

    /// Every step clears a tile.
    open spec fn distance(state: Grid) -> nat {
        state.tiles_left()
    }

    open spec fn digest_of(state: Grid) -> u64 {
        state.fingerprint()
    }

    proof fn lemma_step(state: Grid, step: Set<BoardCoord>) {
        lemma_without_is_grid(state, step);
        lemma_move_shrinks(state, step);
    }

    proof fn lemma_distance_fits(state: Grid) {
        state.tiles.lemma_filter_len(Grid::is_tile());
    }

    fn is_goal(&self) -> (goal: bool) {
        self.is_empty()
    }

    /// The moves that the position offers, each once, in the order in which
    /// they are tried.
    fn next_steps(&self) -> (steps: Vec<MatchSet>)
        ensures
            views(steps@).to_set() == self@.moves(),
            views(steps@).no_duplicates(),
            in_order(self@, views(steps@)),
    {
        let found = self.find_match_sets().into_vec();
        let ghost grid = self@;
        proof {
            use_type_invariant(self);
        }
        let mut places: Vec<u8> = Vec::new();
        let mut i: usize = 0;
        while i < found.len()
            invariant
                i <= found.len(),
                grid == self@,
                grid.wf(),
                views(found@).to_set() == grid.moves(),
                places@.len() == i,
                forall|j: int| 0 <= j < i ==> places@[j] == rank(grid, #[trigger] views(found@)[j]),
                forall|j: int| 0 <= j < i ==> places@[j] < 7,
            decreases found.len() - i,
        {
            proof {
                assert(views(found@)[i as int] == found@[i as int]@);
                assert(views(found@).to_set().contains(views(found@)[i as int]));
                lemma_moves_take_candidates(grid, found@[i as int]@);
            }
            places.push(priority(self, &found[i]));
            i = i + 1;
        }
        let mut steps: Vec<MatchSet> = Vec::new();
        let ghost mut picked: Seq<int> = Seq::empty();
        let mut place: u8 = 0;
        while place < 7
            invariant
                place <= 7,
                places@.len() == found@.len(),
                forall|j: int| 0 <= j < places@.len() ==> places@[j] < 7,
                steps@.len() == picked.len(),
                forall|k: int|
                    0 <= k < picked.len() ==> 0 <= (#[trigger] picked[k]) < found@.len()
                        && steps@[k]@ == found@[picked[k]]@,
                forall|k: int| 0 <= k < picked.len() ==> places@[#[trigger] picked[k]] < place,
                forall|k: int, l: int|
                    0 <= k < l < picked.len() ==> places@[#[trigger] picked[k]] < places@[#[trigger] picked[l]]
                        || (places@[picked[k]] == places@[picked[l]] && picked[k] < picked[l]),
                forall|j: int|
                    0 <= j < found@.len() && places@[j] < place ==> exists|k: int|
                        0 <= k < picked.len() && #[trigger] picked[k] == j,
            decreases 7 - place,
        {
            let mut j: usize = 0;
            while j < found.len()
                invariant
                    j <= found.len(),
                    place < 7,
                    places@.len() == found@.len(),
                    steps@.len() == picked.len(),
                    forall|k: int|
                        0 <= k < picked.len() ==> 0 <= (#[trigger] picked[k]) < found@.len()
                            && steps@[k]@ == found@[picked[k]]@,
                    forall|k: int|
                        0 <= k < picked.len() ==> places@[#[trigger] picked[k]] < place || (
                        places@[picked[k]] == place && picked[k] < j),
                    forall|k: int, l: int|
                        0 <= k < l < picked.len() ==> places@[#[trigger] picked[k]] < places@[#[trigger] picked[l]]
                            || (places@[picked[k]] == places@[picked[l]] && picked[k] < picked[l]),
                    forall|i: int|
                        0 <= i < found@.len() && (places@[i] < place || (places@[i] == place && i
                            < j)) ==> exists|k: int|
                            0 <= k < picked.len() && #[trigger] picked[k] == i,
                decreases found.len() - j,
            {
                if places[j] == place {
                    let step = found[j].clone();
                    steps.push(step);
                    proof {
                        let ghost before = picked;
                        picked = picked.push(j as int);
                        assert forall|i: int|
                            0 <= i < found@.len() && (places@[i] < place || (places@[i] == place
                                && i < j + 1)) implies exists|k: int|
                            0 <= k < picked.len() && #[trigger] picked[k] == i by {
                            if i == j {
                                assert(picked[before.len() as int] == i);
                            } else {
                                let k = choose|k: int|
                                    0 <= k < before.len() && #[trigger] before[k] == i;
                                assert(picked[k] == i);
                            }
                        }
                    }
                }
                j = j + 1;
            }
            place = place + 1;
        }
        proof {
            let mine = views(steps@);
            let theirs = views(found@);
            assert forall|k: int, l: int| 0 <= k < mine.len() && 0 <= l < mine.len() && k
                != l implies mine[k] != mine[l] by {
                assert(picked[k] != picked[l]);
                assert(theirs[picked[k]] == mine[k]);
                assert(theirs[picked[l]] == mine[l]);
            }
            assert forall|set: Set<BoardCoord>| mine.to_set().contains(set)
                <==> theirs.to_set().contains(set) by {
                if mine.to_set().contains(set) {
                    let k = choose|k: int| 0 <= k < mine.len() && mine[k] == set;
                    assert(theirs[picked[k]] == set);
                }
                if theirs.to_set().contains(set) {
                    let i = choose|i: int| 0 <= i < theirs.len() && theirs[i] == set;
                    let k = choose|k: int| 0 <= k < picked.len() && #[trigger] picked[k] == i;
                    assert(mine[k] == set);
                }
            }
            assert(mine.to_set() =~= theirs.to_set());
            assert forall|k: int, l: int| 0 <= k < l < mine.len() implies rank(grid, mine[k])
                <= rank(grid, mine[l]) by {
                assert(theirs[picked[k]] == mine[k]);
                assert(theirs[picked[l]] == mine[l]);
            }
            reveal(in_order);
        }
        steps
    }

    fn apply_step(&self, step: &MatchSet) -> (next: Board) {
        proof {
            lemma_moves_take_candidates(self@, step@);
        }
        self.without_match_set(step)
    }

    fn is_same(&self, other: &Board) -> (same: bool) {
        self.same(other)
    }

    fn digest(&self) -> (digest: u64) {
        self.fingerprint()
    }

    fn copy(&self) -> (copy: Board) {
        self.clone()
    }

    fn copy_step(step: &MatchSet) -> (copy: MatchSet) {
        step.clone()
    }
}

/// Looks for a sequence of moves that clears the board. Gives one where
/// there is one, and `None` where there is none.
pub fn solve_board(board: &Board) -> (solution: Option<Vec<MatchSet>>)
    ensures
        match solution {
            Some(path) => solves::<Board>(board@, views(path@)),
            None => !solvable::<Board>(board@),
        },
{
    proof {
        use_type_invariant(board);
    }
    solve_dfs(board)
}

/// Along a solution, every member of a match set is a selectable tile of the
/// position in which the match set is cleared, and the whole of the solution
/// leaves the board cleared.
pub proof fn lemma_solution_plays_out(grid: Grid, path: Seq<Set<BoardCoord>>)
    requires
        grid.wf(),
        solves::<Board>(grid, path),
    ensures
        grid.after(path).cleared(),
        forall|k: int, c: BoardCoord|
            0 <= k < path.len() && path[k].contains(c) ==> #[trigger] grid.after(
                path.take(k),
            ).candidate(c),
        forall|k: int|
            0 <= k < path.len() ==> #[trigger] grid.after(path.take(k)).moves().contains(path[k]),
    decreases path.len(),
{
    if path.len() > 0 {
        let next = grid.without(path[0]);
        let rest = path.drop_first();
        lemma_without_is_grid(grid, path[0]);
        lemma_solution_plays_out(next, rest);
        assert forall|k: int| 0 <= k < path.len() implies #[trigger] grid.after(
            path.take(k),
        ).moves().contains(path[k]) by {
            if k == 0 {
                assert(path.take(0).len() == 0);
            } else {
                assert(path.take(k).drop_first() =~= rest.take(k - 1));
                assert(path.take(k)[0] == path[0]);
                assert(grid.after(path.take(k)) == next.after(rest.take(k - 1)));
                assert(rest[k - 1] == path[k]);
            }
        }
        assert forall|k: int, c: BoardCoord| 0 <= k < path.len() && path[k].contains(c) implies
            #[trigger] grid.after(path.take(k)).candidate(c) by {
            if k == 0 {
                assert(path.take(0).len() == 0);
                lemma_moves_take_candidates(grid, path[0]);
            } else {
                assert(path.take(k).drop_first() =~= rest.take(k - 1));
                assert(path.take(k)[0] == path[0]);
                assert(grid.after(path.take(k)) == next.after(rest.take(k - 1)));
                assert(rest[k - 1] == path[k]);
            }
        }
    }
}

} // verus!
