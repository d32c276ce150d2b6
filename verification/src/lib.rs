//! Verified core of a falling-block puzzle game: the playfield rules, the
//! seven-piece randomizer, the placement search used by the auto-player, the
//! window layout and the pixel-buffer drawing primitives.

pub mod pieces;
pub mod bag;
pub mod board;
pub mod game;
pub mod ai;
pub mod canvas;
pub mod font;
pub mod layout;
pub mod laws;
