//! A solver for Yajilin-style grid puzzles: a decoder for the compact puzzle
//! encoding, a constraint check that classifies a board, a local candidate
//! generator, a depth-first backtracking search, and an optional stricter
//! test that the links of a complete board form one loop.

pub mod candidates;
pub mod constraints;
pub mod decode;
pub mod grid;
pub mod loops;
pub mod solver;

pub use candidates::candidates;
pub use constraints::{
    CheckResultEnum, CheckResultInvalidEnum, check, check_direction_and_continue,
    check_direction_and_return_result,
};
pub use decode::{DecodeError, UNSPECIFIED_COUNT, create_board, create_board_sub};
pub use loops::is_single_loop;
pub use grid::{Board, CellEnum, DirectionEnum, WallEnum, dir_to_char, dir_to_direction_enum};
pub use solver::solve;
