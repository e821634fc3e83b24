//! Plank layout solver: per-row seam offsets, the cut pieces they imply, a greedy
//! offcut-reuse simulation, a multi-objective score and an annealing search.
//!
//! Lengths are whole ticks (`TICKS_PER_UNIT` ticks to one unit of length) and
//! scores are whole millionths (`SCORE_ONE` is a score of one).
pub mod config;
pub mod layout;
pub mod requirements;
pub mod allocator;
pub mod scorer;
pub mod optimizer;
pub mod solver;

pub use solver::Solver;
