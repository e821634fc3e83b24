use vstd::prelude::*;
use crate::config::{Config, MAX_LENGTH, TENTH_UNIT};
use crate::requirements::{lemma_aligned_layout_full, layout_pieces};
use std::collections::HashSet;

verus! {

broadcast use vstd::std_specs::hash::group_hash_axioms;

/// Distance between two lengths.
pub open spec fn gap(a: int, b: int) -> int {
    if a >= b {
        a - b
    } else {
        b - a
    }
}

/// A piece within a tenth of a unit of the plank uses a fresh plank whole.
pub open spec fn is_full(cfg: Config, len: u64) -> bool {
    gap(len as int, cfg.plank_full_length as int) < TENTH_UNIT
}

/// A piece more than a tenth of a unit away from the plank is a cut.
pub open spec fn is_cut(cfg: Config, len: u64) -> bool {
    gap(len as int, cfg.plank_full_length as int) > TENTH_UNIT
}

/// A length rounded to the nearest tenth of a unit, halves up, counted in tenths.
pub open spec fn tenth_bucket(len: u64) -> u64 {
    ((len + TENTH_UNIT / 2) / TENTH_UNIT as int) as u64
}

/// The rounded tenth-of-a-unit lengths of the cut pieces among `reqs`.
pub open spec fn cut_buckets(cfg: Config, reqs: Seq<u64>) -> Set<u64>
    decreases reqs.len(),
{
    if reqs.len() == 0 {
        Set::empty()
    } else {
        let s = cut_buckets(cfg, reqs.drop_last());
        if is_cut(cfg, reqs.last()) {
            s.insert(tenth_bucket(reqs.last()))
        } else {
            s
        }
    }
}

/// `s` with `x` placed before the first element smaller than it.
pub open spec fn insert_desc(s: Seq<u64>, x: u64) -> Seq<u64>
    decreases s.len(),
{
    if s.len() == 0 {
        seq![x]
    } else if s[0] < x {
        seq![x] + s
    } else {
        seq![s[0]] + insert_desc(s.drop_first(), x)
    }
}

/// `s` in descending order.
pub open spec fn sort_desc(s: Seq<u64>) -> Seq<u64>
    decreases s.len(),
{
    if s.len() == 0 {
        Seq::empty()
    } else {
        insert_desc(sort_desc(s.drop_last()), s.last())
    }
}

pub open spec fn sorted_desc(s: Seq<u64>) -> bool {
    forall|i: int, j: int| 0 <= i < j < s.len() ==> s[i] >= s[j]
}

proof fn lemma_insert_sorted(t: Seq<u64>, x: u64)
    requires
        sorted_desc(t),
    ensures
        sorted_desc(insert_desc(t, x)),
        insert_desc(t, x).to_multiset() =~= t.to_multiset().insert(x),
        forall|i: int|
            0 <= i < insert_desc(t, x).len() ==> #[trigger] insert_desc(t, x)[i] == x
                || t.contains(insert_desc(t, x)[i]),
    decreases t.len(),
{
    broadcast use vstd::seq_lib::group_to_multiset_ensures;

    if t.len() == 0 {
        assert(seq![x] =~= t.insert(0, x));
    } else if t[0] < x {
        assert(seq![x] + t =~= t.insert(0, x));
        assert forall|i: int| 0 <= i < insert_desc(t, x).len() && i > 0 implies #[trigger] insert_desc(
            t,
            x,
        )[i] == x || t.contains(insert_desc(t, x)[i]) by {
            assert(insert_desc(t, x)[i] == t[i - 1]);
        }
    } else {
        let tail = t.drop_first();
        assert(sorted_desc(tail)) by {
            assert forall|i: int, j: int| 0 <= i < j < tail.len() implies tail[i] >= tail[j] by {
                assert(tail[i] == t[i + 1] && tail[j] == t[j + 1]);
            }
        }
        lemma_insert_sorted(tail, x);
        let u = insert_desc(tail, x);
        assert(insert_desc(t, x) == seq![t[0]] + u);
        assert(seq![t[0]] + u =~= u.insert(0, t[0]));
        assert(t =~= tail.insert(0, t[0]));
        assert forall|i: int| 0 <= i < u.len() implies t[0] >= #[trigger] u[i] by {
            if u[i] != x {
                assert(tail.contains(u[i]));
                let k = choose|k: int| 0 <= k < tail.len() && tail[k] == u[i];
                assert(tail[k] == t[k + 1]);
            }
        }
        assert forall|i: int| 0 <= i < insert_desc(t, x).len() implies #[trigger] insert_desc(
            t,
            x,
        )[i] == x || t.contains(insert_desc(t, x)[i]) by {
            if i == 0 {
                assert(t[0] == insert_desc(t, x)[0]);
            } else {
                assert(insert_desc(t, x)[i] == u[i - 1]);
                if u[i - 1] != x {
                    let k = choose|k: int| 0 <= k < tail.len() && tail[k] == u[i - 1];
                    assert(t[k + 1] == u[i - 1]);
                }
            }
        }
        assert forall|i: int, j: int| 0 <= i < j < insert_desc(t, x).len() implies insert_desc(
            t,
            x,
        )[i] >= insert_desc(t, x)[j] by {
            if i > 0 {
                assert(insert_desc(t, x)[i] == u[i - 1]);
                assert(insert_desc(t, x)[j] == u[j - 1]);
            } else {
                assert(insert_desc(t, x)[j] == u[j - 1]);
            }
        }
    }
}

/// `sort_desc` puts the requirements in descending order and keeps every
/// one of them: a sorted permutation.
pub proof fn lemma_sort_desc_sorted_permutation(s: Seq<u64>)
    ensures
        sorted_desc(sort_desc(s)),
        sort_desc(s).to_multiset() =~= s.to_multiset(),
    decreases s.len(),
{
    broadcast use vstd::seq_lib::group_to_multiset_ensures;

    if s.len() > 0 {
        lemma_sort_desc_sorted_permutation(s.drop_last());
        lemma_insert_sorted(sort_desc(s.drop_last()), s.last());
        assert(s =~= s.drop_last().push(s.last()));
    }
}

/// Index of the first pool piece of at least `need`, or -1.
pub open spec fn first_fit(pool: Seq<u64>, need: int) -> int {
    if exists|j: int| is_first_fit(pool, need, j) {
        choose|j: int| is_first_fit(pool, need, j)
    } else {
        -1
    }
}

pub open spec fn is_first_fit(pool: Seq<u64>, need: int, j: int) -> bool {
    &&& 0 <= j < pool.len()
    &&& pool[j] >= need
    &&& forall|k: int| 0 <= k < j ==> pool[k] < need
}

/// Running totals of the greedy reuse simulation.
pub struct AllocState {
    pub waste: int,
    pub material: int,
    pub reused: nat,
    pub pool: Seq<u64>,
}

/// Waste and pool after leaving a remainder `rem` (negative: none).
pub open spec fn settle(cfg: Config, st: AllocState, rem: int) -> AllocState {
    if rem >= cfg.min_cut_length {
        AllocState { pool: st.pool.push(rem as u64), ..st }
    } else if rem > 0 {
        AllocState { waste: st.waste + rem, ..st }
    } else {
        st
    }
}

/// One requirement through the simulation: a full piece takes a fresh plank;
/// a cut takes the first pooled offcut that holds it and the kerf, else a
/// fresh plank, and leaves a remainder.
pub open spec fn alloc_step(cfg: Config, st: AllocState, len: u64) -> AllocState {
    if is_full(cfg, len) {
        AllocState { material: st.material + cfg.plank_full_length, ..st }
    } else {
        let need = len + cfg.saw_kerf;
        let j = first_fit(st.pool, need);
        if j >= 0 {
            let rem = st.pool[j] - need;
            let taken = AllocState {
                waste: st.waste + cfg.saw_kerf,
                reused: st.reused + 1,
                pool: st.pool.remove(j),
                ..st
            };
            settle(cfg, taken, rem)
        } else {
            let rem = cfg.plank_full_length - need;
            let fresh = AllocState {
                waste: st.waste + cfg.saw_kerf,
                material: st.material + cfg.plank_full_length,
                ..st
            };
            settle(cfg, fresh, rem)
        }
    }
}

/// The simulation over `reqs` in the order given.
pub open spec fn alloc_run(cfg: Config, reqs: Seq<u64>) -> AllocState
    decreases reqs.len(),
{
    if reqs.len() == 0 {
        AllocState { waste: 0, material: 0, reused: 0, pool: Seq::empty() }
    } else {
        alloc_step(cfg, alloc_run(cfg, reqs.drop_last()), reqs.last())
    }
}

pub open spec fn pool_total(s: Seq<u64>) -> int
    decreases s.len(),
{
    if s.len() == 0 {
        0
    } else {
        pool_total(s.drop_last()) + s.last()
    }
}

/// Outcome of allocating material for a list of requirements.
pub struct AllocationResult {
    pub waste: u128,
    pub total_material: u128,
    pub offcuts_reused: usize,
    pub offcuts_wasted: usize,
    pub unique_cuts: usize,
}

impl AllocationResult {
    /// The simulation over the requirements in descending order; offcuts left
    /// in the pool at the end are wasted.
    pub open spec fn describes(&self, cfg: Config, reqs: Seq<u64>) -> bool {
        let st = alloc_run(cfg, sort_desc(reqs));
        &&& self.waste == st.waste + pool_total(st.pool)
        &&& self.total_material == st.material
        &&& self.offcuts_reused == st.reused
        &&& self.offcuts_wasted == st.pool.len()
        &&& self.unique_cuts == cut_buckets(cfg, reqs).len()
    }
}

proof fn lemma_insert_at(s: Seq<u64>, x: u64, j: int)
    requires
        0 <= j <= s.len(),
        forall|k: int| 0 <= k < j ==> s[k] >= x,
        j < s.len() ==> s[j] < x,
    ensures
        insert_desc(s, x) == s.insert(j, x),
    decreases j,
{
    if j == 0 {
        if s.len() == 0 {
            assert(s.insert(0, x) =~= seq![x]);
        } else {
            assert(s.insert(0, x) =~= seq![x] + s);
        }
    } else {
        let t = s.drop_first();
        assert forall|k: int| 0 <= k < j - 1 implies t[k] >= x by {
            assert(t[k] == s[k + 1]);
        }
        lemma_insert_at(t, x, j - 1);
        assert(s.insert(j, x) =~= seq![s[0]] + t.insert(j - 1, x));
    }
}

proof fn lemma_insert_len(s: Seq<u64>, x: u64)
    ensures
        insert_desc(s, x).len() == s.len() + 1,
    decreases s.len(),
{
    if s.len() > 0 && s[0] >= x {
        lemma_insert_len(s.drop_first(), x);
    }
}

proof fn lemma_sort_len(s: Seq<u64>)
    ensures
        sort_desc(s).len() == s.len(),
    decreases s.len(),
{
    if s.len() > 0 {
        lemma_sort_len(s.drop_last());
        lemma_insert_len(sort_desc(s.drop_last()), s.last());
    }
}

/// The requirements in descending order.
pub fn sort_descending(reqs: &Vec<u64>) -> (r: Vec<u64>)
    ensures
        r@ == sort_desc(reqs@),
        sorted_desc(r@),
        r@.to_multiset() =~= reqs@.to_multiset(),
{
    proof {
        lemma_sort_desc_sorted_permutation(reqs@);
    }
    let mut sorted: Vec<u64> = Vec::new();
    let mut i: usize = 0;
    while i < reqs.len()
        invariant
            0 <= i <= reqs.len(),
            sorted@ == sort_desc(reqs@.take(i as int)),
        decreases reqs.len() - i,
    {
        let x = reqs[i];
        let mut j: usize = 0;
        while j < sorted.len() && sorted[j] >= x
            invariant
                0 <= j <= sorted.len(),
                forall|k: int| 0 <= k < j ==> sorted@[k] >= x,
            decreases sorted.len() - j,
        {
            j = j + 1;
        }
        proof {
            lemma_insert_at(sorted@, x, j as int);
            assert(reqs@.take(i + 1).drop_last() =~= reqs@.take(i as int));
        }
        sorted.insert(j, x);
        i = i + 1;
    }
    assert(reqs@.take(reqs.len() as int) =~= reqs@);
    sorted
}

/// Number of distinct cut lengths, each rounded to a tenth of a unit.
pub fn count_unique_cuts(config: &Config, reqs: &Vec<u64>) -> (r: usize)
    ensures
        r == cut_buckets(*config, reqs@).len(),
{
    let ghost cfg = *config;
    let mut buckets: HashSet<u64> = HashSet::new();
    let mut i: usize = 0;
    while i < reqs.len()
        invariant
            cfg == *config,
            0 <= i <= reqs.len(),
            buckets@ == cut_buckets(cfg, reqs@.take(i as int)),
        decreases reqs.len() - i,
    {
        let len = reqs[i];
        let p = config.plank_full_length;
        let far = if len >= p {
            len - p > TENTH_UNIT
        } else {
            p - len > TENTH_UNIT
        };
        if far {
            let rounded = len / TENTH_UNIT + if len % TENTH_UNIT >= TENTH_UNIT / 2 {
                1
            } else {
                0
            };
            assert(rounded == tenth_bucket(len));
            buckets.insert(rounded);
        }
        assert(reqs@.take(i + 1).drop_last() =~= reqs@.take(i as int));
        i = i + 1;
    }
    assert(reqs@.take(reqs.len() as int) =~= reqs@);
    buckets.len()
}

/// The first pool index whose piece holds `need`, if any.
fn find_offcut(pool: &Vec<u64>, need: u128) -> (r: Option<usize>)
    ensures
        match r {
            Some(j) => is_first_fit(pool@, need as int, j as int) && first_fit(pool@, need as int)
                == j,
            None => first_fit(pool@, need as int) == -1,
        },
{
    let mut j: usize = 0;
    while j < pool.len()
        invariant
            0 <= j <= pool.len(),
            forall|k: int| 0 <= k < j ==> pool@[k] < need,
        decreases pool.len() - j,
    {
        if pool[j] as u128 >= need {
            proof {
                assert(is_first_fit(pool@, need as int, j as int));
                let c = choose|c: int| is_first_fit(pool@, need as int, c);
                if c < j {
                    assert(pool@[c] < need);
                } else if c > j {
                    assert(pool@[j as int] < need);
                }
            }
            return Some(j);
        }
        j = j + 1;
    }
    assert(!exists|c: int| is_first_fit(pool@, need as int, c)) by {
        if exists|c: int| is_first_fit(pool@, need as int, c) {
            let c = choose|c: int| is_first_fit(pool@, need as int, c);
            assert(pool@[c] < need);
        }
    }
    None
}

/// Greedy best-fit-descending simulation of cutting the requirements from
/// fresh planks and reused offcuts.
pub fn allocate_material(config: &Config, reqs: &Vec<u64>) -> (r: AllocationResult)
    requires
        config.wf(),
    ensures
        r.describes(*config, reqs@),
        r.total_material <= reqs@.len() * MAX_LENGTH,
        r.waste <= reqs@.len() * (3 * MAX_LENGTH),
{
    let ghost cfg = *config;
    let unique_cuts = count_unique_cuts(config, reqs);
    let sorted = sort_descending(reqs);
    let p = config.plank_full_length;
    let kerf = config.saw_kerf;
    let min_cut = config.min_cut_length;
    let mut waste: u128 = 0;
    let mut total_material: u128 = 0;
    let mut offcuts_reused: usize = 0;
    let mut pool: Vec<u64> = Vec::new();
    let mut i: usize = 0;
    while i < sorted.len()
        invariant
            cfg == *config,
            cfg.wf(),
            p == cfg.plank_full_length,
            kerf == cfg.saw_kerf,
            min_cut == cfg.min_cut_length,
            0 <= i <= sorted.len(),
            ({
                let st = alloc_run(cfg, sorted@.take(i as int));
                &&& waste == st.waste
                &&& total_material == st.material
                &&& offcuts_reused == st.reused
                &&& pool@ == st.pool
            }),
            waste <= i * (2 * MAX_LENGTH),
            total_material <= i * MAX_LENGTH,
            offcuts_reused <= i,
            pool@.len() <= i,
            forall|k: int| 0 <= k < pool@.len() ==> pool@[k] <= p,
        decreases sorted.len() - i,
    {
        let len = sorted[i];
        let ghost st = alloc_run(cfg, sorted@.take(i as int));
        proof {
            assert(sorted@.take(i + 1).drop_last() =~= sorted@.take(i as int));
        }
        let full = if len >= p {
            len - p < TENTH_UNIT
        } else {
            p - len < TENTH_UNIT
        };
        assert(i * (2 * MAX_LENGTH) <= (i + 1) * (2 * MAX_LENGTH)) by (nonlinear_arith);
        assert(total_material + p <= (i + 1) * MAX_LENGTH) by (nonlinear_arith)
            requires
                total_material <= i * MAX_LENGTH,
                p <= MAX_LENGTH,
        ;
        assert((i + 1) * MAX_LENGTH < 0x1_0000_0000_0000_0000_0000_0000) by (nonlinear_arith)
            requires
                i < 0x1_0000_0000_0000_0000,
        ;
        if full {
            total_material = total_material + p as u128;
        } else {
            let need: u128 = len as u128 + kerf as u128;
            let rem: u128;
            let fits: bool;
            match find_offcut(&pool, need) {
                Some(j) => {
                    let piece = pool.remove(j);
                    offcuts_reused = offcuts_reused + 1;
                    rem = piece as u128 - need;
                    fits = true;
                },
                None => {
                    total_material = total_material + p as u128;
                    fits = p as u128 >= need;
                    rem = if fits {
                        p as u128 - need
                    } else {
                        0
                    };
                },
            }
            assert(rem <= MAX_LENGTH);
            assert(waste + kerf + rem <= (i + 1) * (2 * MAX_LENGTH)) by (nonlinear_arith)
                requires
                    waste <= i * (2 * MAX_LENGTH),
                    kerf <= MAX_LENGTH,
                    rem <= MAX_LENGTH,
            ;
            assert((i + 1) * (2 * MAX_LENGTH) < 0x1_0000_0000_0000_0000_0000_0000) by (nonlinear_arith)
                requires
                    i < 0x1_0000_0000_0000_0000,
            ;
            waste = waste + kerf as u128;
            if fits {
                if rem >= min_cut as u128 {
                    pool.push(rem as u64);
                } else {
                    waste = waste + rem;
                }
            }
        }
        i = i + 1;
    }
    assert(sorted@.take(sorted.len() as int) =~= sorted@);
    let ghost end_pool = pool@;
    let offcuts_wasted = pool.len();
    let mut k: usize = 0;
    while k < pool.len()
        invariant
            pool@ == end_pool,
            0 <= k <= pool.len(),
            pool@.len() <= sorted.len(),
            forall|m: int| 0 <= m < pool@.len() ==> pool@[m] <= p,
            p <= MAX_LENGTH,
            waste == alloc_run(cfg, sorted@).waste + pool_total(pool@.take(k as int)),
            waste <= sorted.len() * (2 * MAX_LENGTH) + k * MAX_LENGTH,
        decreases pool.len() - k,
    {
        assert(pool@.take(k + 1).drop_last() =~= pool@.take(k as int));
        assert(waste + pool@[k as int] <= sorted.len() * (2 * MAX_LENGTH) + (k + 1) * MAX_LENGTH
            < 0x1_0000_0000_0000_0000_0000_0000) by (nonlinear_arith)
            requires
                waste <= sorted.len() * (2 * MAX_LENGTH) + k * MAX_LENGTH,
                pool@[k as int] <= MAX_LENGTH,
                k < 0x1_0000_0000_0000_0000,
                sorted.len() < 0x1_0000_0000_0000_0000,
        ;
        waste = waste + pool[k] as u128;
        k = k + 1;
    }
    assert(pool@.take(pool.len() as int) =~= pool@);
    assert(sorted.len() * (2 * MAX_LENGTH) + pool.len() * MAX_LENGTH <= sorted.len() * (3
        * MAX_LENGTH)) by (nonlinear_arith)
        requires
            pool.len() <= sorted.len(),
    ;
    proof {
        lemma_sort_len(reqs@);
    }
    AllocationResult { waste, total_material, offcuts_reused, offcuts_wasted, unique_cuts }
}

/// The running waste and material of the simulation never go below zero.
pub proof fn lemma_run_nonneg(cfg: Config, reqs: Seq<u64>)
    ensures
        alloc_run(cfg, reqs).waste >= 0,
        alloc_run(cfg, reqs).material >= 0,
        pool_total(alloc_run(cfg, reqs).pool) >= 0,
    decreases reqs.len(),
{
    if reqs.len() > 0 {
        lemma_run_nonneg(cfg, reqs.drop_last());
    }
    lemma_pool_total_nonneg(alloc_run(cfg, reqs).pool);
}

proof fn lemma_pool_total_nonneg(s: Seq<u64>)
    ensures
        pool_total(s) >= 0,
    decreases s.len(),
{
    if s.len() > 0 {
        lemma_pool_total_nonneg(s.drop_last());
    }
}

/// Allocation has no randomness: two results for one requirement list agree
/// on waste, material and every count.
pub proof fn lemma_allocation_deterministic(
    cfg: Config,
    reqs: Seq<u64>,
    a: AllocationResult,
    b: AllocationResult,
)
    requires
        a.describes(cfg, reqs),
        b.describes(cfg, reqs),
    ensures
        a.waste == b.waste,
        a.total_material == b.total_material,
        a.offcuts_reused == b.offcuts_reused,
        a.offcuts_wasted == b.offcuts_wasted,
        a.unique_cuts == b.unique_cuts,
{
}

proof fn lemma_sort_uniform(s: Seq<u64>, v: u64)
    requires
        forall|i: int| 0 <= i < s.len() ==> s[i] == v,
    ensures
        sort_desc(s).len() == s.len(),
        forall|i: int| 0 <= i < sort_desc(s).len() ==> #[trigger] sort_desc(s)[i] == v,
    decreases s.len(),
{
    lemma_sort_len(s);
    if s.len() > 0 {
        let t = sort_desc(s.drop_last());
        lemma_sort_uniform(s.drop_last(), v);
        lemma_sort_desc_sorted_permutation(s.drop_last());
        lemma_insert_sorted(t, s.last());
        assert forall|i: int| 0 <= i < sort_desc(s).len() implies #[trigger] sort_desc(s)[i]
            == v by {
            let y = insert_desc(t, s.last())[i];
            if y != s.last() {
                assert(t.contains(y));
            }
        }
    }
}

proof fn lemma_run_full(cfg: Config, reqs: Seq<u64>)
    requires
        forall|i: int| 0 <= i < reqs.len() ==> reqs[i] == cfg.plank_full_length,
    ensures
        alloc_run(cfg, reqs) == (AllocState {
            waste: 0,
            material: reqs.len() * cfg.plank_full_length,
            reused: 0,
            pool: Seq::empty(),
        }),
        cut_buckets(cfg, reqs) == Set::<u64>::empty(),
    decreases reqs.len(),
{
    if reqs.len() > 0 {
        lemma_run_full(cfg, reqs.drop_last());
        assert((reqs.len() - 1) * cfg.plank_full_length + cfg.plank_full_length == reqs.len()
            * cfg.plank_full_length) by (nonlinear_arith);
    }
}

/// With every offset zero and a room height that is a whole number of
/// planks, allocation takes only fresh full planks: no waste, no offcuts, no
/// distinct cuts, and material of one room height per row.
pub proof fn lemma_aligned_allocation(cfg: Config, offs: Seq<i64>, a: AllocationResult)
    requires
        cfg.wf(),
        cfg.room_height % cfg.plank_full_length == 0,
        forall|i: int| 0 <= i < offs.len() ==> offs[i] == 0,
        a.describes(cfg, layout_pieces(cfg, offs)),
    ensures
        a.waste == 0,
        a.total_material == offs.len() * cfg.room_height,
        a.offcuts_reused == 0,
        a.offcuts_wasted == 0,
        a.unique_cuts == 0,
{
    let reqs = layout_pieces(cfg, offs);
    let p = cfg.plank_full_length as int;
    let h = cfg.room_height as int;
    lemma_aligned_layout_full(cfg, offs);
    lemma_sort_uniform(reqs, cfg.plank_full_length);
    lemma_run_full(cfg, reqs);
    lemma_run_full(cfg, sort_desc(reqs));
    assert(offs.len() * (h / p) * p == offs.len() * h) by (nonlinear_arith)
        requires
            p > 0,
            h % p == 0,
    ;
}

} // verus!
