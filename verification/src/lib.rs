//! Rules of Othello: board, legal moves and flips, and an undoable game tree.

pub mod board;
pub mod engine;
pub mod notation;
pub mod position;
pub mod rules;
pub mod tree;
