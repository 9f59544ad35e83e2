//! A chess move-legality engine: twelve occupancy masks, one per piece
//! identity, from which it derives threatened squares, pins, checks and the
//! legal moves of every piece, and a move application that keeps a dense
//! board array in step with the masks.

pub mod attacks;
pub mod bitboards;
pub mod bits;
pub mod board;
pub mod game;
pub mod geometry;
pub mod laws;
pub mod legality;
pub mod moves;
pub mod opening;
pub mod piece;
pub mod rules;
