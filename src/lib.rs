//! Entropy-guided stochastic search for a row-and-column variant of the
//! "Lights Out" puzzle.
//!
//! A square grid of switches is driven toward a uniform state. Each candidate
//! flip is scored by how unbalanced the resulting grid is, a random rank biased
//! toward the best candidates picks the flip, and the search keeps the best
//! grid it has seen.
//!
//! The binary entropy of a grid is `h(k / t)` for `k` true cells out of `t`.
//! It depends on the minority count `min(k, t - k)` alone and is strictly
//! increasing in it, so every comparison of entropies that the search makes is
//! carried out exactly on minority counts.

mod grid;
mod moves;
mod search;

pub use grid::{board_from_records, flip_switch, Grid, GridError};
pub use moves::{find_all_move_entropies, rank_from_draw, rank_moves, select_move, Move, ScoredMove};
pub use search::{minimize_board_entropy, sample_low_entropy_move, sample_rank, SearchResult, SearchState};


