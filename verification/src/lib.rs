//! Move generation, move application and random playouts for a
//! settlement-building board game played on a 54-node hex board, together
//! with the reader of the board description.

pub mod blueprint;
pub mod edges;
pub mod laws;
pub mod mcts;
pub mod network;
pub mod reader;
pub mod rules;
pub mod text;
mod fifo;
mod rng;
