use vstd::prelude::*;

verus! {

/// Ticks in one unit of length.
pub const TICKS_PER_UNIT: u64 = 1000;

/// One tenth of a unit of length, in ticks.
pub const TENTH_UNIT: u64 = 100;

/// Largest length (plank, room, kerf, offcut floor) that the arithmetic admits:
/// a machine limit of the fixed-width encoding.
pub const MAX_LENGTH: u64 = 16_777_216;

/// Largest number of rows that a scored layout may have: a machine limit, so
/// that the variance of the offsets fits in 128-bit arithmetic.
pub const MAX_ROWS: usize = 4096;

/// The score that stands for one.
pub const SCORE_ONE: u64 = 1_000_000;

/// Physical parameters of one solver session, lengths in ticks.
pub struct Config {
    pub plank_full_length: u64,
    pub plank_width: u64,
    pub room_height: u64,
    pub saw_kerf: u64,
    pub min_cut_length: u64,
    pub max_unique_cuts: Option<u32>,
}

impl Config {
    /// Positive plank and room, every length within `MAX_LENGTH`.
    pub open spec fn wf(&self) -> bool {
        &&& 0 < self.plank_full_length <= MAX_LENGTH
        &&& 0 < self.room_height <= MAX_LENGTH
        &&& self.saw_kerf <= MAX_LENGTH
        &&& self.min_cut_length <= MAX_LENGTH
    }

    /// Whether the configuration is within the bounds that `wf` states.
    pub fn is_valid(&self) -> (r: bool)
        ensures
            r == self.wf(),
    {
        0 < self.plank_full_length && self.plank_full_length <= MAX_LENGTH && 0 < self.room_height
            && self.room_height <= MAX_LENGTH && self.saw_kerf <= MAX_LENGTH && self.min_cut_length
            <= MAX_LENGTH
    }
}

/// Relative weights of the three objectives.
pub struct OptimizationWeights {
    pub cutting_simplicity: u32,
    pub waste_minimization: u32,
    pub visual_randomness: u32,
}

} // verus!
