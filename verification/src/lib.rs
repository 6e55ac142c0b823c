//! A hexagonal-cell matching puzzle: board geometry, the selectability rule,
//! match enumeration per tile kind, and a backtracking solver.

pub mod board;
pub mod coord;
pub mod errors;
pub mod layout;
pub mod math;
pub mod position;
pub mod solve;
pub mod tile;

pub use crate::board::{has_open_run, Board, Grid};
pub use crate::coord::{BoardCoord, MatchSet, MatchSets};
pub use crate::errors::{BoardParseError, MatchSetError};
pub use crate::solve::{priority, solve_board, solve_dfs, MoveType, Solvable, Visited};
pub use crate::tile::{BinaryTile, ElementTile, Matchable, MetalTile, Tile};
