//! A Minesweeper engine: board generation with exact mine counts and
//! neighbour counts, cursor movement with wraparound, cell-state transitions
//! with cascade reveal, and the key-driven game state machine.

pub mod board;
pub mod cursor;
pub mod game;
mod random;
