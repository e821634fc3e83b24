use vstd::prelude::*;
use crate::config::{MAX_LENGTH, SCORE_ONE};

verus! {

/// One offset per row, in ticks: how far the first board of the row starts
/// before the visible region.
pub struct Layout {
    pub row_offsets: Vec<i64>,
}

/// Relies on rand's `thread_rng` and `Rng::gen_range(0..bound)`: a value drawn
/// below `bound`. `gen_range` panics on an empty range, which `requires` leaves out.
#[verifier::external_body]
pub(crate) fn draw_below(bound: u64) -> (r: u64)
    requires
        bound > 0,
    ensures
        r < bound,
{
    rand::Rng::gen_range(&mut rand::thread_rng(), 0..bound)
}

/// `v` limited to `[lo, hi]`.
pub open spec fn clamp(v: int, lo: int, hi: int) -> int {
    if v < lo {
        lo
    } else if v > hi {
        hi
    } else {
        v
    }
}

/// `offs` with row `idx` moved by `delta` and held within `[-plank, 0]`.
pub open spec fn moved(offs: Seq<i64>, plank: u64, idx: int, delta: int) -> Seq<i64> {
    offs.update(idx, clamp(offs[idx] + delta, -(plank as int), 0) as i64)
}

/// Largest shift of a mutation of the given strength (millionths): half the
/// plank times the strength, rounded down.
pub open spec fn max_shift(plank: u64, strength: int) -> int {
    (plank * strength) / (2 * SCORE_ONE) as int
}

impl Layout {
    /// A layout of `num_rows` rows, each offset drawn in `(-plank_length, 0]`.
    pub fn random(num_rows: usize, plank_length: u64) -> (r: Layout)
        requires
            0 < plank_length <= MAX_LENGTH,
        ensures
            r.row_offsets@.len() == num_rows,
            forall|i: int|
                0 <= i < num_rows ==> -(plank_length as int) < #[trigger] r.row_offsets@[i] <= 0,
            r.fits(plank_length),
    {
        let mut row_offsets: Vec<i64> = Vec::new();
        let mut i: usize = 0;
        while i < num_rows
            invariant
                0 < plank_length <= MAX_LENGTH,
                0 <= i <= num_rows,
                row_offsets@.len() == i,
                forall|k: int|
                    0 <= k < i ==> -(plank_length as int) < #[trigger] row_offsets@[k] <= 0,
            decreases num_rows - i,
        {
            let d = draw_below(plank_length);
            row_offsets.push(-(d as i64));
            i = i + 1;
        }
        Layout { row_offsets }
    }

    /// This layout with row `idx` moved by `delta`, held within `[-plank_length, 0]`.
    pub fn mutate_row(&self, plank_length: u64, idx: usize, delta: i64) -> (r: Layout)
        requires
            plank_length <= MAX_LENGTH,
            idx < self.row_offsets@.len(),
            -(MAX_LENGTH as int) <= delta <= MAX_LENGTH,
            self.fits(plank_length),
        ensures
            r.row_offsets@ == moved(self.row_offsets@, plank_length, idx as int, delta as int),
            r.fits(plank_length),
    {
        let mut row_offsets = self.row_offsets.clone();
        assert(row_offsets@ =~= self.row_offsets@);
        let p = plank_length as i64;
        let v = row_offsets[idx] + delta;
        let c = if v < -p {
            -p
        } else if v > 0 {
            0
        } else {
            v
        };
        row_offsets.set(idx, c);
        Layout { row_offsets }
    }

    /// A neighbour: one row, drawn at random, moved by a random shift of at
    /// most `max_shift(plank_length, mutation_strength)` either way.
    /// The strength is in millionths; the bound on it is a machine limit, so
    /// that `plank_length * mutation_strength` fits in 64 bits (strengths of
    /// the annealing schedule stay below 0.55).
    pub fn mutate(&self, plank_length: u64, mutation_strength: u64) -> (r: Layout)
        requires
            0 < plank_length <= MAX_LENGTH,
            mutation_strength <= SCORE_ONE,
            self.fits(plank_length),
        ensures
            self.row_offsets@.len() == 0 ==> r.row_offsets@ == self.row_offsets@,
            self.row_offsets@.len() > 0 ==> exists|idx: int, delta: int|
                0 <= idx < self.row_offsets@.len() && -max_shift(plank_length, mutation_strength as int)
                    <= delta <= max_shift(plank_length, mutation_strength as int) && r.row_offsets@
                    == moved(self.row_offsets@, plank_length, idx, delta),
            r.fits(plank_length),
    {
        if self.row_offsets.len() == 0 {
            let row_offsets = self.row_offsets.clone();
            assert(row_offsets@ =~= self.row_offsets@);
            return Layout { row_offsets };
        }
        let idx = draw_below(self.row_offsets.len() as u64) as usize;
        assert(plank_length * mutation_strength <= MAX_LENGTH * SCORE_ONE) by (nonlinear_arith)
            requires
                plank_length <= MAX_LENGTH,
                mutation_strength <= SCORE_ONE,
        ;
        let half = plank_length * mutation_strength / (2 * SCORE_ONE);
        assert(half <= MAX_LENGTH);
        let d = draw_below(2 * half + 1);
        let delta = d as i64 - half as i64;
        self.mutate_row(plank_length, idx, delta)
    }
}

impl Layout {
    /// Every offset lies in `[-plank, 0]`.
    pub open spec fn fits(&self, plank: u64) -> bool {
        offsets_fit(self.row_offsets@, plank)
    }
}

pub open spec fn offsets_fit(offs: Seq<i64>, plank: u64) -> bool {
    forall|i: int| 0 <= i < offs.len() ==> -(plank as int) <= #[trigger] offs[i] <= 0
}

} // verus!
