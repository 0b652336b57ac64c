//! A Monte Carlo tree search chess engine and its game clock.
//!
//! `clock` keeps the players' remaining time, `board` is the chess position
//! (backed by the `pleco` move generator), `enginemove` is the search tree and
//! its random playouts, and `game` decides when a game is over.
pub mod board;
pub mod clock;
pub mod enginemove;
pub mod game;

