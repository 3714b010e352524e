//! Computational core of an Othello/Reversi engine.
//!
//! A board is a pair of disjoint 64-bit occupancy masks (one per color);
//! bit `i` is the square on rank `i / 8`, file `i % 8`. The crate generates
//! legal-move and flip masks, computes positional heuristics (potential
//! mobility, a corner-edge stability proxy, parity regions), and solves
//! endgame positions exactly by negamax search with alpha-beta pruning and
//! a transposition table.

pub mod bitboards;
pub mod movegen;
pub mod popcount;
pub mod solver;
pub mod stability;
