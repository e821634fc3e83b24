use vstd::prelude::*;
use crate::config::{Config, OptimizationWeights, MAX_ROWS, SCORE_ONE};
use crate::layout::Layout;
use crate::optimizer;
use crate::optimizer::{acceptance_drawn, anneal_from, draws_admissible};
use crate::scorer::{score, ScoredLayout};

verus! {

/// Index of the highest total score among `candidates`, the first one on ties.
pub fn pick_best(candidates: &Vec<ScoredLayout>) -> (r: usize)
    requires
        candidates@.len() > 0,
    ensures
        r < candidates@.len(),
        forall|i: int|
            0 <= i < candidates@.len() ==> #[trigger] candidates@[i].total_score
                <= candidates@[r as int].total_score,
        forall|i: int|
            0 <= i < r ==> #[trigger] candidates@[i].total_score
                < candidates@[r as int].total_score,
{
    let mut best: usize = 0;
    let mut i: usize = 1;
    while i < candidates.len()
        invariant
            1 <= i <= candidates@.len(),
            best < i,
            forall|k: int|
                0 <= k < i ==> #[trigger] candidates@[k].total_score
                    <= candidates@[best as int].total_score,
            forall|k: int|
                0 <= k < best ==> #[trigger] candidates@[k].total_score
                    < candidates@[best as int].total_score,
        decreases candidates@.len() - i,
    {
        if candidates[i].total_score > candidates[best].total_score {
            best = i;
        }
        i = i + 1;
    }
    best
}

/// Every offset lies strictly above `-plank`.
pub open spec fn above_plank(offs: Seq<i64>, plank: u64) -> bool {
    forall|i: int| 0 <= i < offs.len() ==> -(plank as int) < #[trigger] offs[i]
}

/// A solver session: geometry, objective weights and the number of rows.
pub struct Solver {
    pub config: Config,
    pub weights: OptimizationWeights,
    pub num_rows: usize,
}

impl Solver {
    pub open spec fn wf(&self) -> bool {
        self.config.wf() && self.num_rows <= MAX_ROWS
    }

    /// A layout of this session's rows, within the plank, with its scores.
    pub open spec fn generated(&self, s: ScoredLayout) -> bool {
        &&& s.layout.row_offsets@.len() == self.num_rows
        &&& s.layout.fits(self.config.plank_full_length)
        &&& above_plank(s.layout.row_offsets@, self.config.plank_full_length)
        &&& s.scores(self.config, self.weights, s.layout.row_offsets@)
    }

    pub fn new(config: Config, weights: OptimizationWeights, num_rows: usize) -> (r: Solver)
        ensures
            r.config == config,
            r.weights == weights,
            r.num_rows == num_rows,
    {
        Solver { config, weights, num_rows }
    }

    /// A random layout of `num_rows` rows, offsets in `(-plank, 0]`.
    pub fn generate_random(&self) -> (r: Layout)
        requires
            self.config.wf(),
        ensures
            r.row_offsets@.len() == self.num_rows,
            r.fits(self.config.plank_full_length),
            above_plank(r.row_offsets@, self.config.plank_full_length),
    {
        Layout::random(self.num_rows, self.config.plank_full_length)
    }

    /// The best layout that annealing from `initial_layout` finds.
    pub fn optimize<F: Fn(i64, u32) -> bool>(
        &self,
        initial_layout: &Layout,
        max_iterations: u32,
        metropolis: &F,
    ) -> (r: Layout)
        requires
            self.wf(),
            initial_layout.fits(self.config.plank_full_length),
            initial_layout.row_offsets@.len() <= MAX_ROWS,
            forall|delta: i64, iteration: u32| metropolis.requires((delta, iteration)),
        ensures
            r.fits(self.config.plank_full_length),
            r.row_offsets@.len() == initial_layout.row_offsets@.len(),
            exists|start: ScoredLayout, best: ScoredLayout|
                start.scores(self.config, self.weights, initial_layout.row_offsets@) && best.scores(
                    self.config,
                    self.weights,
                    r.row_offsets@,
                ) && best.total_score >= start.total_score && (r.row_offsets@
                == initial_layout.row_offsets@ || best.total_score > start.total_score),
            max_iterations == 0 ==> r.row_offsets@ == initial_layout.row_offsets@,
            exists|rows: Seq<usize>, shifts: Seq<i64>, acc: Seq<bool>|
                draws_admissible(
                    initial_layout.row_offsets@.len() as int,
                    self.config.plank_full_length,
                    max_iterations,
                    rows,
                    shifts,
                ) && acc.len() == max_iterations && (forall|k: int|
                    0 <= k < max_iterations ==> #[trigger] acceptance_drawn(
                        *metropolis,
                        self.config,
                        self.weights,
                        initial_layout.row_offsets@,
                        rows,
                        shifts,
                        acc,
                        k,
                    )) && r.row_offsets@ == anneal_from(
                    self.config,
                    self.weights,
                    initial_layout.row_offsets@,
                    rows,
                    shifts,
                    acc,
                    max_iterations as nat,
                ).best,
    {
        optimizer::optimize(&self.config, &self.weights, initial_layout, max_iterations, metropolis)
    }

    pub fn score_layout(&self, layout: &Layout) -> (r: ScoredLayout)
        requires
            self.wf(),
            layout.fits(self.config.plank_full_length),
            layout.row_offsets@.len() <= MAX_ROWS,
        ensures
            r.layout.row_offsets@ == layout.row_offsets@,
            r.scores(self.config, self.weights, layout.row_offsets@),
            r.total_score <= 4 * SCORE_ONE,
            r.cutting_score <= SCORE_ONE,
            r.waste_score <= SCORE_ONE,
            r.randomness_score <= 2 * SCORE_ONE,
    {
        score(&self.config, &self.weights, layout)
    }

    /// A random layout, scored.
    pub fn generate_and_score(&self) -> (r: ScoredLayout)
        requires
            self.wf(),
        ensures
            self.generated(r),
    {
        let layout = self.generate_random();
        score(&self.config, &self.weights, &layout)
    }

    /// The best scored of `batch_size` random layouts, the first one on ties
    /// (see `pick_best`).
    pub fn generate_batch_best(&self, batch_size: usize) -> (r: ScoredLayout)
        requires
            self.wf(),
            batch_size > 0,
        ensures
            self.generated(r),
            exists|batch: Seq<ScoredLayout>, j: int|
                batch.len() == batch_size && 0 <= j < batch_size && r == batch[j] && (forall|k: int|
                    0 <= k < batch_size ==> #[trigger] self.generated(batch[k])) && (forall|k: int|
                    0 <= k < batch_size ==> #[trigger] batch[k].total_score <= r.total_score) && (
                forall|k: int| 0 <= k < j ==> #[trigger] batch[k].total_score < r.total_score),
    {
        let mut candidates: Vec<ScoredLayout> = Vec::new();
        let mut i: usize = 0;
        while i < batch_size
            invariant
                self.wf(),
                0 <= i <= batch_size,
                candidates@.len() == i,
                forall|k: int| 0 <= k < i ==> #[trigger] self.generated(candidates@[k]),
            decreases batch_size - i,
        {
            let candidate = self.generate_and_score();
            candidates.push(candidate);
            assert(self.generated(candidates@[i as int]));
            i = i + 1;
        }
        let idx = pick_best(&candidates);
        let ghost batch = candidates@;
        let r = candidates.remove(idx);
        assert(self.generated(batch[idx as int]));
        assert(r == batch[idx as int]);
        r
    }
}

} // verus!
