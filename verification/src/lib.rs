//! Rule engine for a 2048-style sliding-tile game: a fixed-size grid of
//! power-of-two tiles, move resolution in four directions, random tile
//! spawning, and terminal-state detection.

pub mod action;
pub mod game;
pub mod grid;
pub mod render;
pub mod row;

pub use action::Action;
pub use game::Game;
pub use grid::Grid;
