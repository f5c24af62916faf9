//! Solver for the easy mode of the SNES puzzle game Samegame.
//!
//! A board is a grid of 8 columns and 6 rows that holds pieces of five kinds. A move
//! erases a connected group of two or more pieces of one kind; the pieces above fall,
//! and columns that have become empty are closed up. The solver finds the game that
//! scores most.

pub mod action;
pub mod array;
pub mod bitcol;
pub mod bitop;
pub mod board;
pub mod counting;
pub mod grid;
pub mod grid_text;
pub mod hash;
pub mod mask;
pub mod param_text;
pub mod piece;
pub mod play;
pub mod position;
pub mod rng;
pub mod rules;
pub mod score;
pub mod solver;
pub mod square;
pub mod text;
pub mod value_text;
pub mod zobrist;

pub use crate::action::{Action, ActionError, ActionHistory};
pub use crate::array::{ColArray, PieceArray, RowArray, SquareArray};
pub use crate::bitcol::BitCol;
pub use crate::board::Board;
pub use crate::hash::{u64_hashmap_with_capacity, u64_hashset_with_capacity, U64Hasher};
pub use crate::mask::MaskBoard;
pub use crate::piece::Piece;
pub use crate::position::Position;
pub use crate::rng::{
    enumerate_all_board, enumerate_all_legal_board, AllBoards, AllLegalBoards, AllParams,
    GameEntropy, GameRng, RandomBoardParam,
};
pub use crate::score::{calc_score_erase, Score, SCORE_PERFECT};
pub use crate::solver::Solver;
pub use crate::square::{Col, Row, Square};
pub use crate::text::ParseError;
