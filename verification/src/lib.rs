//! Hex: the topology of the board, the incremental tagging of connected
//! groups as stones are placed, the winner of a filled board, and a
//! Monte-Carlo tree search that picks the next move.
//!
//! - `topology`: cells, coordinates and the six-way adjacency.
//! - `connect`: walks over the board.
//! - `hex`: the board, moves and the winner check.
//! - `groups`: what the tags mean, and that moves keep them right.
//! - `exclusive`: two chains that join opposite borders meet.
//! - `nodraw`: a filled board has one winner.
//! - `rng`: the random source.
//! - `mcts`: playouts and the tree search.

pub mod topology;
pub mod connect;
pub mod hex;
pub mod groups;
pub mod exclusive;
pub mod nodraw;
pub mod rng;
pub mod mcts;
