use vstd::prelude::*;
use crate::allocator::{
    allocate_material, alloc_run, cut_buckets, lemma_run_nonneg, pool_total, sort_desc,
};
use crate::config::{Config, OptimizationWeights, MAX_LENGTH, MAX_ROWS, SCORE_ONE};
use crate::layout::{offsets_fit, Layout};
use crate::requirements::{calculate_requirements, layout_pieces};

verus! {

/// A layout with its total score and the three sub-scores, in millionths.
pub struct ScoredLayout {
    pub layout: Layout,
    pub total_score: u64,
    pub cutting_score: u64,
    pub waste_score: u64,
    pub randomness_score: u64,
}

/// Material over material plus waste; one half when no material is used.
pub open spec fn waste_score_of(material: int, waste: int) -> int {
    if material > 0 {
        material * SCORE_ONE / (material + waste)
    } else {
        (SCORE_ONE / 2) as int
    }
}

/// Smoothed share of offcuts that were reused; one half when there are none.
pub open spec fn reuse_score_of(reused: int, wasted: int) -> int {
    if reused + wasted > 0 {
        (reused + 1) * SCORE_ONE / (reused + wasted + 1)
    } else {
        (SCORE_ONE / 2) as int
    }
}

pub open spec fn offset_sum(offs: Seq<i64>) -> int
    decreases offs.len(),
{
    if offs.len() == 0 {
        0
    } else {
        offset_sum(offs.drop_last()) + offs.last()
    }
}

/// Sum of `(n * o - total)^2` over the offsets: `n^2` times their squared
/// deviations from the mean.
pub open spec fn spread(offs: Seq<i64>, total: int, n: int) -> int
    decreases offs.len(),
{
    if offs.len() == 0 {
        0
    } else {
        let d = n * offs.last() - total;
        spread(offs.drop_last(), total, n) + d * d
    }
}

/// `(4 * stddev(o / plank))^2` in squared millionths, rounded down.
pub open spec fn dispersion(plank: u64, offs: Seq<i64>) -> int {
    let n = offs.len() as int;
    (16 * SCORE_ONE * SCORE_ONE) * spread(offs, offset_sum(offs), n) / (n * n * n * plank * plank)
}

pub open spec fn is_floor_sqrt(r: int, q: int) -> bool {
    r >= 0 && r * r <= q < (r + 1) * (r + 1)
}

/// Four times the standard deviation of the offsets over the plank, rounded
/// down; one half for fewer than two rows.
pub open spec fn is_randomness(plank: u64, offs: Seq<i64>, r: int) -> bool {
    if offs.len() < 2 {
        r == SCORE_ONE / 2
    } else {
        is_floor_sqrt(r, dispersion(plank, offs))
    }
}

pub open spec fn weight_sum(w: OptimizationWeights) -> int {
    w.cutting_simplicity + w.waste_minimization + w.visual_randomness
}

/// The weighted average of the sub-scores; zero when all weights are zero.
pub open spec fn weighted(w: OptimizationWeights, reuse: int, waste: int, randomness: int) -> int {
    if weight_sum(w) > 0 {
        (w.cutting_simplicity * reuse + w.waste_minimization * waste + w.visual_randomness
            * randomness) / weight_sum(w)
    } else {
        0
    }
}

/// Whether the distinct cut count goes over the configured cap.
pub open spec fn over_cap(cfg: Config, unique: int) -> bool {
    match cfg.max_unique_cuts {
        Some(m) => unique > m,
        None => false,
    }
}

/// The total after the cap penalty: a hundredth, rounded down, over the cap.
pub open spec fn capped(cfg: Config, unique: int, total: int) -> int {
    if over_cap(cfg, unique) {
        total / 100
    } else {
        total
    }
}

impl ScoredLayout {
    /// Same offsets and same scores.
    pub open spec fn same(&self, o: ScoredLayout) -> bool {
        &&& self.layout.row_offsets@ == o.layout.row_offsets@
        &&& self.total_score == o.total_score
        &&& self.cutting_score == o.cutting_score
        &&& self.waste_score == o.waste_score
        &&& self.randomness_score == o.randomness_score
    }

    /// The scores that the objectives give the layout `offs` under `cfg` and `w`.
    pub open spec fn scores(&self, cfg: Config, w: OptimizationWeights, offs: Seq<i64>) -> bool {
        let reqs = layout_pieces(cfg, offs);
        let st = alloc_run(cfg, sort_desc(reqs));
        &&& self.waste_score == waste_score_of(st.material, st.waste + pool_total(st.pool))
        &&& self.cutting_score == reuse_score_of(st.reused as int, st.pool.len() as int)
        &&& is_randomness(cfg.plank_full_length, offs, self.randomness_score as int)
        &&& self.total_score == capped(
            cfg,
            cut_buckets(cfg, reqs).len() as int,
            weighted(w, self.cutting_score as int, self.waste_score as int, self.randomness_score as int),
        )
    }
}

/// Largest `r` with `r * r <= q`.
fn floor_sqrt(q: u64) -> (r: u64)
    requires
        q <= 16 * SCORE_ONE * SCORE_ONE,
    ensures
        is_floor_sqrt(r as int, q as int),
        r <= 4 * SCORE_ONE,
{
    let mut lo: u64 = 0;
    let mut hi: u64 = 4 * SCORE_ONE + 1;
    assert(lo * lo <= q < hi * hi) by (nonlinear_arith)
        requires
            lo == 0,
            hi == 4_000_001,
            q <= 16_000_000_000_000,
    ;
    while hi - lo > 1
        invariant
            lo < hi <= 4 * SCORE_ONE + 1,
            lo * lo <= q < hi * hi,
        decreases hi - lo,
    {
        let mid = lo + (hi - lo) / 2;
        assert(mid * mid <= 16_000_008_000_001) by (nonlinear_arith)
            requires
                mid <= 4_000_001,
        ;
        if mid * mid <= q {
            lo = mid;
        } else {
            hi = mid;
        }
    }
    lo
}

/// Four times the standard deviation of the offsets normalised by the plank.
pub fn score_randomness(config: &Config, layout: &Layout) -> (r: u64)
    requires
        config.wf(),
        layout.fits(config.plank_full_length),
        layout.row_offsets@.len() <= MAX_ROWS,
    ensures
        is_randomness(config.plank_full_length, layout.row_offsets@, r as int),
        r <= 2 * SCORE_ONE,
{
    let offsets = &layout.row_offsets;
    let n = offsets.len();
    if n < 2 {
        return SCORE_ONE / 2;
    }
    let ghost offs = offsets@;
    let p = config.plank_full_length as i64;
    let mut sum: i64 = 0;
    let mut i: usize = 0;
    while i < n
        invariant
            offs == offsets@,
            n == offs.len(),
            n <= MAX_ROWS,
            0 < p <= MAX_LENGTH,
            offsets_fit(offs, p as u64),
            0 <= i <= n,
            sum == offset_sum(offs.take(i as int)),
            -(i * p) <= sum <= 0,
        decreases n - i,
    {
        assert(offs.take(i + 1).drop_last() =~= offs.take(i as int));
        assert(i * p + p <= MAX_ROWS * MAX_LENGTH) by (nonlinear_arith)
            requires
                i < MAX_ROWS,
                p <= MAX_LENGTH,
        ;
        assert((i + 1) * p == i * p + p) by (nonlinear_arith);
        sum = sum + offsets[i];
        i = i + 1;
    }
    assert(offs.take(n as int) =~= offs);
    let ni = n as i64;
    assert(n * p <= MAX_ROWS * MAX_LENGTH) by (nonlinear_arith)
        requires
            n <= MAX_ROWS,
            p <= MAX_LENGTH,
    ;
    let np: i128 = n as i128 * p as i128;
    let mut total: u128 = 0;
    let mut j: usize = 0;
    while j < n
        invariant
            offs == offsets@,
            n == offs.len(),
            2 <= n <= MAX_ROWS,
            0 < p <= MAX_LENGTH,
            ni == n,
            np == n * p,
            np <= MAX_ROWS * MAX_LENGTH,
            offsets_fit(offs, p as u64),
            sum == offset_sum(offs),
            -np <= sum <= 0,
            0 <= j <= n,
            total == spread(offs.take(j as int), sum as int, n as int),
            total <= j * (np * np),
        decreases n - j,
    {
        assert(offs.take(j + 1).drop_last() =~= offs.take(j as int));
        let o = offsets[j];
        assert(-np <= ni * o <= 0) by (nonlinear_arith)
            requires
                -p <= o <= 0,
                ni == n,
                np == n * p,
                n > 0,
        ;
        let d: i128 = ni as i128 * o as i128 - sum as i128;
        assert(d * d <= np * np) by (nonlinear_arith)
            requires
                -np <= d <= np,
        ;
        assert(d * d >= 0) by (nonlinear_arith);
        assert(total + d * d <= (j + 1) * (np * np)) by (nonlinear_arith)
            requires
                total <= j * (np * np),
                d * d <= np * np,
        ;
        assert((j + 1) * (np * np) <= MAX_ROWS * (MAX_ROWS * MAX_LENGTH * MAX_ROWS
            * MAX_LENGTH)) by (nonlinear_arith)
            requires
                j < MAX_ROWS,
                0 <= np <= MAX_ROWS * MAX_LENGTH,
        ;
        total = total + (d * d) as u128;
        j = j + 1;
    }
    assert(offs.take(n as int) =~= offs);
    let pp = p as u128;
    let nn = n as u128;
    assert(n * n * n * p * p <= MAX_ROWS * MAX_ROWS * MAX_ROWS * MAX_LENGTH * MAX_LENGTH)
        by (nonlinear_arith)
        requires
            n <= MAX_ROWS,
            p <= MAX_LENGTH,
            n >= 0,
            p >= 0,
    ;
    assert(n * n <= MAX_ROWS * MAX_ROWS) by (nonlinear_arith)
        requires
            0 <= n <= MAX_ROWS,
    ;
    assert(n * n * n <= MAX_ROWS * MAX_ROWS * MAX_ROWS) by (nonlinear_arith)
        requires
            0 <= n <= MAX_ROWS,
    ;
    assert(n * n * n * p <= MAX_ROWS * MAX_ROWS * MAX_ROWS * MAX_LENGTH) by (nonlinear_arith)
        requires
            0 <= n <= MAX_ROWS,
            0 <= p <= MAX_LENGTH,
    ;
    let denom: u128 = nn * nn * nn * pp * pp;
    assert(denom == n * (np * np)) by (nonlinear_arith)
        requires
            denom == n * n * n * p * p,
            np == n * p,
    ;
    assert(denom > 0) by (nonlinear_arith)
        requires
            denom == n * n * n * p * p,
            n > 0,
            p > 0,
    ;
    let scale: u128 = 16 * SCORE_ONE as u128 * SCORE_ONE as u128;
    assert(scale * total <= scale * denom) by (nonlinear_arith)
        requires
            total <= denom,
            scale >= 0,
    ;
    assert(scale * denom <= 16 * SCORE_ONE * SCORE_ONE * (MAX_ROWS * (MAX_ROWS * MAX_LENGTH
        * MAX_ROWS * MAX_LENGTH))) by (nonlinear_arith)
        requires
            denom == n * (np * np),
            n <= MAX_ROWS,
            0 <= np <= MAX_ROWS * MAX_LENGTH,
            scale == 16 * SCORE_ONE * SCORE_ONE,
    ;
    let q = scale * total / denom;
    assert(q <= scale) by (nonlinear_arith)
        requires
            q == (scale * total) as int / denom as int,
            scale * total <= scale * denom,
            denom > 0,
    ;
    proof {
        lemma_dispersion_bound(config.plank_full_length, offs);
    }
    let r = floor_sqrt(q as u64);
    assert(r <= 2 * SCORE_ONE) by (nonlinear_arith)
        requires
            r * r <= q,
            q <= 4_000_000_000_000,
            r >= 0,
    ;
    r
}

/// `material * ONE / (material + waste)` when material is used, else one half.
fn waste_ratio(material: u128, waste: u128) -> (r: u64)
    requires
        material <= 0x1_0000_0000_0000_0000_0000_0000,
        waste <= 0x1_0000_0000_0000_0000_0000_0000,
    ensures
        r == waste_score_of(material as int, waste as int),
        r <= SCORE_ONE,
{
    if material > 0 {
        let q = material * SCORE_ONE as u128 / (material + waste);
        assert(q <= SCORE_ONE) by (nonlinear_arith)
            requires
                q == (material * SCORE_ONE) as int / (material + waste) as int,
                material > 0,
                waste >= 0,
        ;
        q as u64
    } else {
        SCORE_ONE / 2
    }
}

/// `(reused + 1) * ONE / (reused + wasted + 1)` when there are offcuts, else one half.
fn reuse_ratio(reused: usize, wasted: usize) -> (r: u64)
    ensures
        r == reuse_score_of(reused as int, wasted as int),
        r <= SCORE_ONE,
{
    let a = reused as u128;
    let b = wasted as u128;
    if a + b > 0 {
        let q = (a + 1) * SCORE_ONE as u128 / (a + b + 1);
        assert(q <= SCORE_ONE) by (nonlinear_arith)
            requires
                q == ((a + 1) * SCORE_ONE) as int / (a + b + 1) as int,
                a >= 0,
                b >= 0,
        ;
        q as u64
    } else {
        SCORE_ONE / 2
    }
}

/// The weighted average of three sub-scores, with the cap penalty applied.
pub fn combine(config: &Config, weights: &OptimizationWeights, unique_cuts: usize, reuse: u64, waste: u64, randomness: u64) -> (r: u64)
    requires
        reuse <= 4 * SCORE_ONE,
        waste <= 4 * SCORE_ONE,
        randomness <= 4 * SCORE_ONE,
    ensures
        r == capped(*config, unique_cuts as int, weighted(*weights, reuse as int, waste as int, randomness as int)),
        r <= 4 * SCORE_ONE,
{
    let wc = weights.cutting_simplicity as u64;
    let ww = weights.waste_minimization as u64;
    let wr = weights.visual_randomness as u64;
    let total_weight = wc + ww + wr;
    assert(wc * reuse <= 0xFFFF_FFFF * 4_000_000) by (nonlinear_arith)
        requires
            wc <= 0xFFFF_FFFF,
            reuse <= 4_000_000,
    ;
    assert(ww * waste <= 0xFFFF_FFFF * 4_000_000) by (nonlinear_arith)
        requires
            ww <= 0xFFFF_FFFF,
            waste <= 4_000_000,
    ;
    assert(wr * randomness <= 0xFFFF_FFFF * 4_000_000) by (nonlinear_arith)
        requires
            wr <= 0xFFFF_FFFF,
            randomness <= 4_000_000,
    ;
    let mut total_score: u64 = if total_weight > 0 {
        let t = (wc * reuse + ww * waste + wr * randomness) / total_weight;
        assert(t <= 4_000_000) by (nonlinear_arith)
            requires
                t == (wc * reuse + ww * waste + wr * randomness) / (total_weight as int),
                total_weight == wc + ww + wr,
                total_weight > 0,
                wc >= 0,
                ww >= 0,
                wr >= 0,
                reuse <= 4_000_000,
                waste <= 4_000_000,
                randomness <= 4_000_000,
        ;
        t
    } else {
        0
    };
    if let Some(max) = config.max_unique_cuts {
        if unique_cuts > max as usize {
            total_score = total_score / 100;
        }
    }
    total_score
}

/// Scores a layout: allocation sub-scores, randomness, and their weighted total.
pub fn score(config: &Config, weights: &OptimizationWeights, layout: &Layout) -> (r: ScoredLayout)
    requires
        config.wf(),
        layout.fits(config.plank_full_length),
        layout.row_offsets@.len() <= MAX_ROWS,
    ensures
        r.layout.row_offsets@ == layout.row_offsets@,
        r.scores(*config, *weights, layout.row_offsets@),
        r.total_score <= 4 * SCORE_ONE,
        r.cutting_score <= SCORE_ONE,
        r.waste_score <= SCORE_ONE,
        r.randomness_score <= 2 * SCORE_ONE,
        !over_cap(*config, cut_buckets(*config, layout_pieces(*config, layout.row_offsets@)).len() as int)
            && r.randomness_score <= SCORE_ONE ==> r.total_score <= SCORE_ONE,
        over_cap(*config, cut_buckets(*config, layout_pieces(*config, layout.row_offsets@)).len() as int)
            ==> r.total_score <= max3(r.cutting_score as int, r.waste_score as int, r.randomness_score as int)
            / 100,
{
    let requirements = calculate_requirements(config, layout);
    let allocation = allocate_material(config, &requirements);
    assert(requirements@.len() * (3 * MAX_LENGTH) <= 0x1_0000_0000_0000_0000_0000_0000) by (nonlinear_arith)
        requires
            requirements@.len() < 0x1_0000_0000_0000_0000,
    ;
    let waste_score = waste_ratio(allocation.total_material, allocation.waste);
    let reuse_score = reuse_ratio(allocation.offcuts_reused, allocation.offcuts_wasted);
    let randomness_score = score_randomness(config, layout);
    let total_score = combine(config, weights, allocation.unique_cuts, reuse_score, waste_score, randomness_score);
    let row_offsets = layout.row_offsets.clone();
    assert(row_offsets@ =~= layout.row_offsets@);
    let r = ScoredLayout {
        layout: Layout { row_offsets },
        total_score,
        cutting_score: reuse_score,
        waste_score,
        randomness_score,
    };
    proof {
        lemma_score_ranges(*config, *weights, layout.row_offsets@, r);
    }
    r
}

pub open spec fn max3(a: int, b: int, c: int) -> int {
    if a >= b && a >= c {
        a
    } else if b >= c {
        b
    } else {
        c
    }
}

proof fn lemma_weighted_bound(w: OptimizationWeights, a: int, b: int, c: int, m: int)
    requires
        0 <= a <= m,
        0 <= b <= m,
        0 <= c <= m,
    ensures
        0 <= weighted(w, a, b, c) <= m,
{
    if weight_sum(w) > 0 {
        let x = w.cutting_simplicity as int;
        let y = w.waste_minimization as int;
        let z = w.visual_randomness as int;
        assert(0 <= (x * a + y * b + z * c) / (x + y + z) <= m) by (nonlinear_arith)
            requires
                x >= 0,
                y >= 0,
                z >= 0,
                x + y + z > 0,
                0 <= a <= m,
                0 <= b <= m,
                0 <= c <= m,
        ;
    }
}

/// Scores stay in range: the reuse and waste scores lie in `[0, one]`; the
/// total lies in `[0, one]` when the cut cap is kept and the randomness score
/// is at most one; over the cap the total is at most a hundredth of the
/// largest sub-score.
pub proof fn lemma_score_ranges(cfg: Config, w: OptimizationWeights, offs: Seq<i64>, s: ScoredLayout)
    requires
        s.scores(cfg, w, offs),
    ensures
        s.cutting_score <= SCORE_ONE,
        s.waste_score <= SCORE_ONE,
        !over_cap(cfg, cut_buckets(cfg, layout_pieces(cfg, offs)).len() as int)
            && s.randomness_score <= SCORE_ONE ==> s.total_score <= SCORE_ONE,
        over_cap(cfg, cut_buckets(cfg, layout_pieces(cfg, offs)).len() as int) ==> s.total_score
            <= max3(s.cutting_score as int, s.waste_score as int, s.randomness_score as int) / 100,
{
    let reqs = layout_pieces(cfg, offs);
    let st = alloc_run(cfg, sort_desc(reqs));
    lemma_run_nonneg(cfg, sort_desc(reqs));
    let m = st.material;
    let wst = st.waste + pool_total(st.pool);
    if m > 0 {
        assert(m * SCORE_ONE / (m + wst) <= SCORE_ONE) by (nonlinear_arith)
            requires
                m > 0,
                wst >= 0,
        ;
    }
    let a = st.reused as int;
    let b = st.pool.len() as int;
    if a + b > 0 {
        assert((a + 1) * SCORE_ONE / (a + b + 1) <= SCORE_ONE) by (nonlinear_arith)
            requires
                a >= 0,
                b >= 0,
        ;
    }
    let x = s.cutting_score as int;
    let y = s.waste_score as int;
    let z = s.randomness_score as int;
    if z <= SCORE_ONE {
        lemma_weighted_bound(w, x, y, z, SCORE_ONE as int);
    }
    lemma_weighted_bound(w, x, y, z, max3(x, y, z));
}

proof fn lemma_floor_sqrt_unique(r1: int, r2: int, q: int)
    requires
        is_floor_sqrt(r1, q),
        is_floor_sqrt(r2, q),
    ensures
        r1 == r2,
{
    if r1 < r2 {
        assert((r1 + 1) * (r1 + 1) <= r2 * r2) by (nonlinear_arith)
            requires
                0 <= r1 < r2,
        ;
    } else if r2 < r1 {
        assert((r2 + 1) * (r2 + 1) <= r1 * r1) by (nonlinear_arith)
            requires
                0 <= r2 < r1,
        ;
    }
}

/// Scoring has no hidden randomness: two scorings of one layout under one
/// configuration and weights agree on every score.
pub proof fn lemma_scoring_deterministic(
    cfg: Config,
    w: OptimizationWeights,
    offs: Seq<i64>,
    s1: ScoredLayout,
    s2: ScoredLayout,
)
    requires
        s1.scores(cfg, w, offs),
        s2.scores(cfg, w, offs),
    ensures
        s1.total_score == s2.total_score,
        s1.cutting_score == s2.cutting_score,
        s1.waste_score == s2.waste_score,
        s1.randomness_score == s2.randomness_score,
{
    if offs.len() >= 2 {
        lemma_floor_sqrt_unique(
            s1.randomness_score as int,
            s2.randomness_score as int,
            dispersion(cfg.plank_full_length, offs),
        );
    }
}

/// A single row has no dispersion to measure: its randomness score is one half.
pub proof fn lemma_single_row_randomness(plank: u64, offs: Seq<i64>, r: int)
    requires
        offs.len() == 1,
        is_randomness(plank, offs, r),
    ensures
        r == SCORE_ONE / 2,
{
}

pub open spec fn square_sum(offs: Seq<i64>) -> int
    decreases offs.len(),
{
    if offs.len() == 0 {
        0
    } else {
        square_sum(offs.drop_last()) + offs.last() * offs.last()
    }
}

proof fn lemma_spread_expand(offs: Seq<i64>, c: int, n: int)
    ensures
        spread(offs, c, n) == n * n * square_sum(offs) - 2 * n * c * offset_sum(offs) + offs.len()
            * (c * c),
    decreases offs.len(),
{
    if offs.len() > 0 {
        let t = offs.drop_last();
        let x = offs.last() as int;
        lemma_spread_expand(t, c, n);
        assert((n * x - c) * (n * x - c) + n * n * square_sum(t) - 2 * n * c * offset_sum(t) + t.len()
            * (c * c) == n * n * (square_sum(t) + x * x) - 2 * n * c * (offset_sum(t) + x) + (t.len()
            + 1) * (c * c)) by (nonlinear_arith);
    }
}

proof fn lemma_square_sum_bound(offs: Seq<i64>, plank: int)
    requires
        forall|i: int| 0 <= i < offs.len() ==> -plank <= #[trigger] offs[i] <= 0,
    ensures
        square_sum(offs) <= -plank * offset_sum(offs),
    decreases offs.len(),
{
    if offs.len() > 0 {
        let t = offs.drop_last();
        assert forall|i: int| 0 <= i < t.len() implies -plank <= #[trigger] t[i] <= 0 by {
            assert(t[i] == offs[i]);
        }
        lemma_square_sum_bound(t, plank);
        let x = offs.last() as int;
        assert(-plank <= offs[offs.len() - 1] <= 0);
        assert(x * x <= -plank * x) by (nonlinear_arith)
            requires
                -plank <= x <= 0,
        ;
        assert(-plank * offset_sum(t) + -plank * x == -plank * (offset_sum(t) + x)) by (nonlinear_arith);
    }
}

/// With offsets in `[-plank, 0]` the dispersion is at most `4 * ONE^2`: a
/// spread of values within one plank has a standard deviation of at most half
/// of it.
proof fn lemma_dispersion_bound(plank: u64, offs: Seq<i64>)
    requires
        plank > 0,
        offs.len() >= 2,
        offsets_fit(offs, plank),
    ensures
        dispersion(plank, offs) <= 4 * SCORE_ONE * SCORE_ONE,
{
    let n = offs.len() as int;
    let p = plank as int;
    let sum = offset_sum(offs);
    let q = square_sum(offs);
    lemma_spread_expand(offs, sum, n);
    lemma_square_sum_bound(offs, p);
    let sp = spread(offs, sum, n);
    assert(sp == n * n * q - n * (sum * sum)) by (nonlinear_arith)
        requires
            sp == n * n * q - 2 * n * sum * sum + n * (sum * sum),
    ;
    let u = -sum;
    assert(u * u == sum * sum) by (nonlinear_arith)
        requires
            u == -sum,
    ;
    assert(n * n * q <= n * n * (p * u)) by (nonlinear_arith)
        requires
            q <= -p * sum,
            u == -sum,
            n > 0,
    ;
    assert(4 * (n * (p * u) - u * u) <= n * n * (p * p)) by (nonlinear_arith)
        requires
            n > 0,
    ;
    assert(4 * sp <= n * n * n * (p * p)) by (nonlinear_arith)
        requires
            sp == n * n * q - n * (u * u),
            n * n * q <= n * n * (p * u),
            4 * (n * (p * u) - u * u) <= n * n * (p * p),
            n > 0,
    ;
    let d = n * n * n * p * p;
    let k = 16 * SCORE_ONE * SCORE_ONE;
    assert(d > 0) by (nonlinear_arith)
        requires
            n > 0,
            p > 0,
            d == n * n * n * p * p,
    ;
    assert(k * sp <= (k / 4) * d) by (nonlinear_arith)
        requires
            4 * sp <= n * n * n * (p * p),
            d == n * n * n * p * p,
            k == 16 * SCORE_ONE * SCORE_ONE,
    ;
    assert((k * sp) / d <= k / 4) by (nonlinear_arith)
        requires
            k * sp <= (k / 4) * d,
            d > 0,
    ;
}

/// The whole-number square root of `q`, rounded down.
pub open spec fn floor_sqrt_of(q: int) -> int {
    choose|r: int| is_floor_sqrt(r, q)
}

/// The randomness score of a layout, as a value.
pub open spec fn randomness_of(plank: u64, offs: Seq<i64>) -> int {
    if offs.len() < 2 {
        (SCORE_ONE / 2) as int
    } else {
        floor_sqrt_of(dispersion(plank, offs))
    }
}

/// The total score of a layout, as a value.
pub open spec fn total_of(cfg: Config, w: OptimizationWeights, offs: Seq<i64>) -> int {
    let reqs = layout_pieces(cfg, offs);
    let st = alloc_run(cfg, sort_desc(reqs));
    capped(
        cfg,
        cut_buckets(cfg, reqs).len() as int,
        weighted(
            w,
            reuse_score_of(st.reused as int, st.pool.len() as int),
            waste_score_of(st.material, st.waste + pool_total(st.pool)),
            randomness_of(cfg.plank_full_length, offs),
        ),
    )
}

/// A scored layout carries the total that `total_of` gives it.
pub proof fn lemma_scores_total(cfg: Config, w: OptimizationWeights, offs: Seq<i64>, s: ScoredLayout)
    requires
        s.scores(cfg, w, offs),
    ensures
        s.total_score == total_of(cfg, w, offs),
        s.randomness_score == randomness_of(cfg.plank_full_length, offs),
{
    if offs.len() >= 2 {
        let q = dispersion(cfg.plank_full_length, offs);
        assert(is_floor_sqrt(s.randomness_score as int, q));
        let c = floor_sqrt_of(q);
        assert(is_floor_sqrt(c, q));
        lemma_floor_sqrt_unique(c, s.randomness_score as int, q);
    }
}

} // verus!
