pub mod board;
pub mod direction;
pub mod gaddag;
pub mod game;
pub mod solver;
pub mod dict;
