//! A minesweeper board engine: grid generation with random bomb placement,
//! neighbouring-bomb counts, cascading reveal and win/loss evaluation, with
//! every function's behaviour stated as a contract and proved.

pub mod cell;
pub mod coordinate;
pub mod grid;
pub mod flood;
pub mod random;
pub mod placement;
pub mod board;
pub mod config;
pub mod front;
