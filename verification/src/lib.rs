//! Solver for the two-player board game Squadro: board encoding and move
//! rules, enumeration of reachable positions, win classification, and the
//! chunked bit-set layout used to store the results.

pub mod board_state;
pub mod display;
pub mod file_operations;
pub mod generate;
pub mod graph;
pub mod ordered;
pub mod play;
pub mod radix;
pub mod rules;
pub mod search;
pub mod solver;
pub mod text;
pub mod treemap;
