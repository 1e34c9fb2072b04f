//! Minesweeper board engine: mine layout, the first-reveal safety clear,
//! flood-fill reveal, flagging and win detection, with their contracts.

pub mod tile;
pub mod board;
pub mod flood;
pub mod parse;
