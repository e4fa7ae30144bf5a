//! Logic core of a sliding tile-merging puzzle on a four by four grid.
//!
//! - `tile`: the cells of the bordered grid and how they are addressed.
//! - `colour`: the terminal colour of a tile, by power.
//! - `line`: one line read from the wall it slides into, and how a move packs
//!   and merges it, each tile merging at most once.
//! - `board`: the game state, the slide of the whole grid and the spawn of
//!   new tiles.
//! - `game`: input bytes as actions, and one step of play.

pub mod colour;
pub mod tile;
pub mod line;
pub mod board;
pub mod game;
