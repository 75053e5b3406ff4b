//! Minesweeper board state machine: grid representation, randomized mine
//! placement excluding the first move, flood-fill opening of zero-adjacency
//! regions, flagging, and win/loss evaluation.

pub mod board;
pub mod cell;
pub mod command;
pub mod counting;
pub mod game;
pub mod pos;
mod rng;
pub mod text;
pub mod view;
