//! A draughts (checkers) rules engine on an eight by eight board: the
//! opening position, legal-move queries that mark destinations on a copy of
//! the board, discovery of multi-jump capture chains, and move execution
//! with promotion. Every operation takes a board and returns a new one.
use vstd::prelude::*;

pub mod board;
pub mod cell;
pub mod checker;
pub mod engine;
pub mod laws;
pub mod lemmas;
pub mod point;
pub mod route;
pub mod rules;
pub mod search;
pub mod turn;

pub use board::Board;
pub use cell::Cell;
pub use checker::Checker;
pub use engine::{Engine, MoveError};
pub use point::Point;
pub use route::Route;
pub use turn::Turn;
