//! A minesweeper engine: the board with its deferred mine layout, flood-fill
//! reveal, chording and marks, and the game state machine around it.
pub mod board;
pub mod game;
pub mod grid;
pub mod laws;
pub mod level;
mod proofs;
mod random;
pub mod settings;
