//! A two-player Reversi (Othello) engine.
//!
//! The board is a rectangular play area surrounded by a one-cell ring of
//! permanently unplayable border cells, so that the capture-scanning
//! algorithm never needs bounds branching: walking off the play area always
//! lands on a border cell.  The `Board` type offers legality checks,
//! placement with flipping of captured runs, skip detection, end-of-game
//! detection and winner determination, each with a contract that pins the
//! result down in terms of the board's cell contents.

pub mod board;
pub mod cell_count;
pub mod piece_type;
pub mod point;
pub mod tile;
pub mod tile_type;
