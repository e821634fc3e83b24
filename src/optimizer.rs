use vstd::prelude::*;
use crate::config::{Config, OptimizationWeights, MAX_LENGTH, MAX_ROWS, SCORE_ONE};
use crate::layout::{draw_below, max_shift, moved, Layout};
use crate::scorer::{lemma_scores_total, score, total_of, ScoredLayout};

verus! {

/// Mutation strength in millionths at `iteration` of `max_iterations`:
/// `0.5 * (1 - iteration / max_iterations) + 0.05`, rounded down.
pub open spec fn strength_at(iteration: int, max_iterations: int) -> int {
    (SCORE_ONE / 2) as int * (max_iterations - iteration) / max_iterations + (SCORE_ONE / 20) as int
}

pub fn mutation_strength(iteration: u32, max_iterations: u32) -> (r: u64)
    requires
        iteration < max_iterations,
    ensures
        r == strength_at(iteration as int, max_iterations as int),
        SCORE_ONE / 20 <= r <= SCORE_ONE / 2 + SCORE_ONE / 20,
{
    let left = (max_iterations - iteration) as u64;
    let m = max_iterations as u64;
    assert((SCORE_ONE / 2) as int * left / m as int <= (SCORE_ONE / 2) as int) by (nonlinear_arith)
        requires
            0 < left <= m,
    ;
    assert((SCORE_ONE / 2) * left <= 500_000 * 0xFFFF_FFFF) by (nonlinear_arith)
        requires
            left <= 0xFFFF_FFFF,
    ;
    (SCORE_ONE / 2) * left / m + SCORE_ONE / 20
}

/// State of the annealing walk: the current solution and the best one seen.
pub struct Annealing {
    pub current: ScoredLayout,
    pub best: ScoredLayout,
}

impl Annealing {
    /// Whether a neighbour scoring `neighbor_score` replaces the current
    /// solution: always when it scores higher, otherwise as the Metropolis
    /// draw says.
    pub open spec fn takes(&self, neighbor_score: u64, metropolis: bool) -> bool {
        neighbor_score > self.current.total_score || metropolis
    }

    /// One decision of the walk. The neighbour becomes current when taken,
    /// and best when it also beats the best so far.
    pub fn advance(self, neighbor: ScoredLayout, metropolis: bool) -> (r: Annealing)
        ensures
            self.takes(neighbor.total_score, metropolis) ==> r.current == neighbor,
            !self.takes(neighbor.total_score, metropolis) ==> r.current == self.current,
            r.best.same(
                if self.takes(neighbor.total_score, metropolis) && neighbor.total_score
                    > self.best.total_score {
                    neighbor
                } else {
                    self.best
                },
            ),
            r.best.total_score >= self.best.total_score,
    {
        if neighbor.total_score > self.current.total_score || metropolis {
            if neighbor.total_score > self.best.total_score {
                let best = copy_scored(&neighbor);
                Annealing { current: neighbor, best }
            } else {
                Annealing { current: neighbor, best: self.best }
            }
        } else {
            self
        }
    }
}

fn copy_scored(s: &ScoredLayout) -> (r: ScoredLayout)
    ensures
        r.same(*s),
{
    let row_offsets = s.layout.row_offsets.clone();
    assert(row_offsets@ =~= s.layout.row_offsets@);
    ScoredLayout {
        layout: Layout { row_offsets },
        total_score: s.total_score,
        cutting_score: s.cutting_score,
        waste_score: s.waste_score,
        randomness_score: s.randomness_score,
    }
}

/// The annealing walk after `k` steps, as values.
pub struct AnnealView {
    pub current: Seq<i64>,
    pub current_score: int,
    pub best: Seq<i64>,
    pub best_score: int,
}

/// Step `k`'s neighbour of `offs`: row `rows[k]` moved by `shifts[k]`.
pub open spec fn neighbour_at(
    offs: Seq<i64>,
    plank: u64,
    rows: Seq<usize>,
    shifts: Seq<i64>,
    k: int,
) -> Seq<i64> {
    if offs.len() == 0 {
        offs
    } else {
        moved(offs, plank, rows[k] as int, shifts[k] as int)
    }
}

/// The walk from `init` over the first `k` steps. At each step the current
/// layout's neighbour is taken when it scores strictly higher or the
/// acceptance `acc` says so; the best is replaced only by a strictly higher
/// total.
pub open spec fn anneal_from(
    cfg: Config,
    w: OptimizationWeights,
    init: Seq<i64>,
    rows: Seq<usize>,
    shifts: Seq<i64>,
    acc: Seq<bool>,
    k: nat,
) -> AnnealView
    decreases k,
{
    if k == 0 {
        let t = total_of(cfg, w, init);
        AnnealView { current: init, current_score: t, best: init, best_score: t }
    } else {
        let st = anneal_from(cfg, w, init, rows, shifts, acc, (k - 1) as nat);
        let nb = neighbour_at(st.current, cfg.plank_full_length, rows, shifts, k - 1);
        let ns = total_of(cfg, w, nb);
        if ns > st.current_score || acc[k - 1] {
            if ns > st.best_score {
                AnnealView { current: nb, current_score: ns, best: nb, best_score: ns }
            } else {
                AnnealView { current: nb, current_score: ns, ..st }
            }
        } else {
            st
        }
    }
}

/// At step `k` the Metropolis test was asked exactly when the neighbour did
/// not score strictly higher, with the score difference and `k`, and
/// `acc[k]` is its answer.
pub open spec fn acceptance_drawn<F: Fn(i64, u32) -> bool>(
    metropolis: F,
    cfg: Config,
    w: OptimizationWeights,
    init: Seq<i64>,
    rows: Seq<usize>,
    shifts: Seq<i64>,
    acc: Seq<bool>,
    k: int,
) -> bool {
    let st = anneal_from(cfg, w, init, rows, shifts, acc, k as nat);
    let ns = total_of(cfg, w, neighbour_at(st.current, cfg.plank_full_length, rows, shifts, k));
    if ns > st.current_score {
        !acc[k]
    } else {
        metropolis.ensures(((ns - st.current_score) as i64, k as u32), acc[k])
    }
}

/// Rows and shifts that the schedule admits for each of `max_iterations` steps.
pub open spec fn draws_admissible(
    n: int,
    plank: u64,
    max_iterations: u32,
    rows: Seq<usize>,
    shifts: Seq<i64>,
) -> bool {
    &&& rows.len() == max_iterations
    &&& shifts.len() == max_iterations
    &&& forall|k: int| 0 <= k < max_iterations ==> (n > 0 ==> #[trigger] rows[k] < n)
    &&& forall|k: int|
        0 <= k < max_iterations ==> -max_shift(plank, strength_at(k, max_iterations as int))
            <= #[trigger] shifts[k] <= max_shift(plank, strength_at(k, max_iterations as int))
}

proof fn lemma_anneal_prefix(
    cfg: Config,
    w: OptimizationWeights,
    init: Seq<i64>,
    rows: Seq<usize>,
    shifts: Seq<i64>,
    acc: Seq<bool>,
    b: bool,
    k: nat,
)
    requires
        k <= acc.len(),
    ensures
        anneal_from(cfg, w, init, rows, shifts, acc.push(b), k) == anneal_from(
            cfg,
            w,
            init,
            rows,
            shifts,
            acc,
            k,
        ),
    decreases k,
{
    if k > 0 {
        lemma_anneal_prefix(cfg, w, init, rows, shifts, acc, b, (k - 1) as nat);
        assert(acc.push(b)[k - 1] == acc[k - 1]);
    }
}

/// Simulated annealing from `initial` with the random draws given: at step
/// `k` the current layout's row `rows[k]` is moved by `shifts[k]`, and
/// `metropolis(delta, k)` decides on a neighbour that scores `delta`
/// (millionths, at most zero) against the current one. Returns the best
/// layout of the walk.
pub fn anneal<F: Fn(i64, u32) -> bool>(
    config: &Config,
    weights: &OptimizationWeights,
    initial: &Layout,
    max_iterations: u32,
    rows: &Vec<usize>,
    shifts: &Vec<i64>,
    metropolis: &F,
) -> (r: Layout)
    requires
        config.wf(),
        initial.fits(config.plank_full_length),
        initial.row_offsets@.len() <= MAX_ROWS,
        forall|delta: i64, iteration: u32| metropolis.requires((delta, iteration)),
        draws_admissible(
            initial.row_offsets@.len() as int,
            config.plank_full_length,
            max_iterations,
            rows@,
            shifts@,
        ),
    ensures
        r.fits(config.plank_full_length),
        r.row_offsets@.len() == initial.row_offsets@.len(),
        exists|acc: Seq<bool>|
            acc.len() == max_iterations && (forall|k: int|
                0 <= k < max_iterations ==> #[trigger] acceptance_drawn(
                    *metropolis,
                    *config,
                    *weights,
                    initial.row_offsets@,
                    rows@,
                    shifts@,
                    acc,
                    k,
                )) && r.row_offsets@ == anneal_from(
                *config,
                *weights,
                initial.row_offsets@,
                rows@,
                shifts@,
                acc,
                max_iterations as nat,
            ).best,
        exists|start: ScoredLayout, best: ScoredLayout|
            start.scores(*config, *weights, initial.row_offsets@) && best.scores(
                *config,
                *weights,
                r.row_offsets@,
            ) && best.total_score >= start.total_score && (r.row_offsets@
                == initial.row_offsets@ || best.total_score > start.total_score),
        max_iterations == 0 ==> r.row_offsets@ == initial.row_offsets@,
{
    let ghost cfg = *config;
    let ghost w = *weights;
    let ghost init = initial.row_offsets@;
    let p = config.plank_full_length;
    let start = score(config, weights, initial);
    proof {
        lemma_scores_total(cfg, w, init, start);
    }
    let ghost start_score = start.total_score;
    let best = copy_scored(&start);
    let mut state = Annealing { current: start, best };
    let ghost n = initial.row_offsets@.len();
    let ghost mut acc: Seq<bool> = Seq::empty();
    let mut iteration: u32 = 0;
    while iteration < max_iterations
        invariant
            cfg == *config,
            w == *weights,
            init == initial.row_offsets@,
            p == cfg.plank_full_length,
            config.wf(),
            start.scores(*config, *weights, initial.row_offsets@),
            start.total_score == start_score,
            state.current.scores(*config, *weights, state.current.layout.row_offsets@),
            state.best.scores(*config, *weights, state.best.layout.row_offsets@),
            state.current.layout.fits(config.plank_full_length),
            state.best.layout.fits(config.plank_full_length),
            state.current.layout.row_offsets@.len() == n,
            state.best.layout.row_offsets@.len() == n,
            n <= MAX_ROWS,
            n == init.len(),
            state.best.total_score >= start_score,
            state.best.layout.row_offsets@ == initial.row_offsets@ || state.best.total_score
                > start_score,
            iteration == 0 ==> state.best.layout.row_offsets@ == initial.row_offsets@,
            iteration <= max_iterations,
            state.current.total_score <= 4 * SCORE_ONE,
            forall|delta: i64, iteration: u32| metropolis.requires((delta, iteration)),
            draws_admissible(n as int, p, max_iterations, rows@, shifts@),
            acc.len() == iteration,
            ({
                let v = anneal_from(cfg, w, init, rows@, shifts@, acc, iteration as nat);
                &&& state.current.layout.row_offsets@ == v.current
                &&& state.current.total_score == v.current_score
                &&& state.best.layout.row_offsets@ == v.best
                &&& state.best.total_score == v.best_score
            }),
            forall|k: int|
                0 <= k < iteration ==> #[trigger] acceptance_drawn(
                    *metropolis,
                    cfg,
                    w,
                    init,
                    rows@,
                    shifts@,
                    acc,
                    k,
                ),
        decreases max_iterations - iteration,
    {
        let ghost k = iteration as int;
        let neighbor = if state.current.layout.row_offsets.len() == 0 {
            let row_offsets = state.current.layout.row_offsets.clone();
            assert(row_offsets@ =~= state.current.layout.row_offsets@);
            Layout { row_offsets }
        } else {
            proof {
                let strength = strength_at(k, max_iterations as int);
                let m = max_iterations as int;
                assert(500_000 * (m - k) / m <= 500_000) by (nonlinear_arith)
                    requires
                        0 <= k < m,
                ;
                assert(500_000 * (m - k) / m >= 0) by (nonlinear_arith)
                    requires
                        0 <= k < m,
                ;
                assert(0 <= strength <= SCORE_ONE);
                assert(p * strength <= MAX_LENGTH * SCORE_ONE) by (nonlinear_arith)
                    requires
                        p <= MAX_LENGTH,
                        0 <= strength <= SCORE_ONE,
                ;
                assert(shifts@[k] <= max_shift(p, strength));
            }
            state.current.layout.mutate_row(p, rows[iteration as usize], shifts[iteration as usize])
        };
        let scored = score(config, weights, &neighbor);
        proof {
            lemma_scores_total(cfg, w, neighbor.row_offsets@, scored);
        }
        let drawn = if scored.total_score > state.current.total_score {
            false
        } else {
            let delta = scored.total_score as i64 - state.current.total_score as i64;
            metropolis(delta, iteration)
        };
        let ghost old_acc = acc;
        proof {
            acc = acc.push(drawn);
            lemma_anneal_prefix(cfg, w, init, rows@, shifts@, old_acc, drawn, k as nat);
            assert forall|j: int| 0 <= j < iteration implies #[trigger] acceptance_drawn(
                *metropolis,
                cfg,
                w,
                init,
                rows@,
                shifts@,
                acc,
                j,
            ) by {
                lemma_anneal_prefix(cfg, w, init, rows@, shifts@, old_acc, drawn, j as nat);
                assert(acc[j] == old_acc[j]);
                assert(acceptance_drawn(*metropolis, cfg, w, init, rows@, shifts@, old_acc, j));
            }
            assert(acc[k] == drawn);
            assert(acceptance_drawn(*metropolis, cfg, w, init, rows@, shifts@, acc, k));
        }
        state = state.advance(scored, drawn);
        iteration = iteration + 1;
    }
    state.best.layout
}

/// Simulated annealing from `initial` over `max_iterations` neighbours, with
/// rows and shifts drawn at random for `anneal`. `metropolis(delta, iteration)`
/// is the probabilistic test for a neighbour that scores `delta` (millionths,
/// at most zero) against the current one. Returns the best layout seen:
/// `initial` itself unless some layout scored strictly higher, and `initial`
/// when there are no iterations.
pub fn optimize<F: Fn(i64, u32) -> bool>(
    config: &Config,
    weights: &OptimizationWeights,
    initial: &Layout,
    max_iterations: u32,
    metropolis: &F,
) -> (r: Layout)
    requires
        config.wf(),
        initial.fits(config.plank_full_length),
        initial.row_offsets@.len() <= MAX_ROWS,
        forall|delta: i64, iteration: u32| metropolis.requires((delta, iteration)),
    ensures
        r.fits(config.plank_full_length),
        r.row_offsets@.len() == initial.row_offsets@.len(),
        exists|start: ScoredLayout, best: ScoredLayout|
            start.scores(*config, *weights, initial.row_offsets@) && best.scores(
                *config,
                *weights,
                r.row_offsets@,
            ) && best.total_score >= start.total_score && (r.row_offsets@
                == initial.row_offsets@ || best.total_score > start.total_score),
        max_iterations == 0 ==> r.row_offsets@ == initial.row_offsets@,
        exists|rows: Seq<usize>, shifts: Seq<i64>, acc: Seq<bool>|
            draws_admissible(
                initial.row_offsets@.len() as int,
                config.plank_full_length,
                max_iterations,
                rows,
                shifts,
            ) && acc.len() == max_iterations && (forall|k: int|
                0 <= k < max_iterations ==> #[trigger] acceptance_drawn(
                    *metropolis,
                    *config,
                    *weights,
                    initial.row_offsets@,
                    rows,
                    shifts,
                    acc,
                    k,
                )) && r.row_offsets@ == anneal_from(
                *config,
                *weights,
                initial.row_offsets@,
                rows,
                shifts,
                acc,
                max_iterations as nat,
            ).best,
{
    let n = initial.row_offsets.len();
    let p = config.plank_full_length;
    let mut rows: Vec<usize> = Vec::new();
    let mut shifts: Vec<i64> = Vec::new();
    let mut iteration: u32 = 0;
    while iteration < max_iterations
        invariant
            n == initial.row_offsets@.len(),
            0 < p <= MAX_LENGTH,
            iteration <= max_iterations,
            rows@.len() == iteration,
            shifts@.len() == iteration,
            forall|k: int| 0 <= k < iteration ==> (n > 0 ==> #[trigger] rows@[k] < n),
            forall|k: int|
                0 <= k < iteration ==> -max_shift(p, strength_at(k, max_iterations as int))
                    <= #[trigger] shifts@[k] <= max_shift(
                    p,
                    strength_at(k, max_iterations as int),
                ),
        decreases max_iterations - iteration,
    {
        let strength = mutation_strength(iteration, max_iterations);
        let row = if n > 0 {
            draw_below(n as u64) as usize
        } else {
            0
        };
        assert(p * strength <= MAX_LENGTH * SCORE_ONE) by (nonlinear_arith)
            requires
                p <= MAX_LENGTH,
                strength <= SCORE_ONE,
        ;
        let half = p * strength / (2 * SCORE_ONE);
        assert(half <= MAX_LENGTH) by (nonlinear_arith)
            requires
                half == (p * strength) / (2 * SCORE_ONE) as int,
                p * strength <= MAX_LENGTH * SCORE_ONE,
        ;
        assert(half == max_shift(p, strength_at(iteration as int, max_iterations as int)));
        let d = draw_below(2 * half + 1);
        rows.push(row);
        shifts.push(d as i64 - half as i64);
        iteration = iteration + 1;
    }
    anneal(config, weights, initial, max_iterations, &rows, &shifts, metropolis)
}

} // verus!
