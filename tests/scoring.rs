use plank_solver::allocator::{allocate_material, sort_descending};
use plank_solver::config::{Config, OptimizationWeights, MAX_LENGTH, SCORE_ONE};
use plank_solver::layout::Layout;
use plank_solver::optimizer::{anneal, mutation_strength, optimize, Annealing};
use plank_solver::requirements::calculate_requirements;
use plank_solver::scorer::{score, score_randomness};
use plank_solver::solver::pick_best;
use plank_solver::Solver;

fn config(plank: u64, room: u64, kerf: u64, min_cut: u64, cap: Option<u32>) -> Config {
    Config {
        plank_full_length: plank,
        plank_width: 200,
        room_height: room,
        saw_kerf: kerf,
        min_cut_length: min_cut,
        max_unique_cuts: cap,
    }
}

fn weights(c: u32, w: u32, r: u32) -> OptimizationWeights {
    OptimizationWeights { cutting_simplicity: c, waste_minimization: w, visual_randomness: r }
}

fn layout(offsets: &[i64]) -> Layout {
    Layout { row_offsets: offsets.to_vec() }
}

#[test]
fn example_single_row_requirements() {
    let cfg = config(2000, 5000, 0, 100, None);
    let reqs = calculate_requirements(&cfg, &layout(&[0]));
    assert_eq!(reqs, vec![2000, 2000, 1000]);
}

#[test]
fn example_single_row_allocation() {
    let cfg = config(2000, 5000, 0, 100, None);
    let reqs = calculate_requirements(&cfg, &layout(&[0]));
    let a = allocate_material(&cfg, &reqs);
    assert_eq!(a.total_material, 6000);
    assert_eq!(a.waste, 1000);
    assert_eq!(a.offcuts_reused, 0);
    assert_eq!(a.offcuts_wasted, 1);
    assert_eq!(a.unique_cuts, 1);
}

#[test]
fn example_single_row_scores() {
    let cfg = config(2000, 5000, 0, 100, None);
    let s = score(&cfg, &weights(1, 1, 1), &layout(&[0]));
    assert_eq!(s.waste_score, 857_142);
    assert_eq!(s.cutting_score, 500_000);
    assert_eq!(s.randomness_score, 500_000);
    assert_eq!(s.total_score, (500_000 + 857_142 + 500_000) / 3);
    assert_eq!(s.layout.row_offsets, vec![0]);
}

#[test]
fn offset_row_splits_boards() {
    let cfg = config(2000, 5000, 0, 100, None);
    let reqs = calculate_requirements(&cfg, &layout(&[-500, -1999]));
    assert_eq!(reqs, vec![1500, 2000, 1500, 1, 2000, 2000, 999]);
}

#[test]
fn offcut_is_reused_with_kerf() {
    let cfg = config(2000, 5000, 10, 100, None);
    let a = allocate_material(&cfg, &vec![400, 1500]);
    assert_eq!(a.total_material, 2000);
    assert_eq!(a.waste, 100);
    assert_eq!(a.offcuts_reused, 1);
    assert_eq!(a.offcuts_wasted, 0);
    assert_eq!(a.unique_cuts, 2);
}

#[test]
fn near_full_pieces_take_fresh_planks() {
    let cfg = config(2000, 5000, 10, 100, None);
    let a = allocate_material(&cfg, &vec![1950, 1901]);
    assert_eq!(a.total_material, 4000);
    assert_eq!(a.waste, 0);
    assert_eq!(a.unique_cuts, 0);
    let b = allocate_material(&cfg, &vec![1900]);
    assert_eq!(b.unique_cuts, 0);
    assert_eq!(b.waste, 100);
    assert_eq!(b.offcuts_wasted, 0);
}

#[test]
fn kerf_overrun_adds_only_the_kerf() {
    let cfg = config(2000, 5000, 500, 0, None);
    let a = allocate_material(&cfg, &vec![1800]);
    assert_eq!(a.total_material, 2000);
    assert_eq!(a.waste, 500);
    assert_eq!(a.offcuts_wasted, 0);
}

#[test]
fn unique_cuts_count_tenth_buckets() {
    let cfg = config(2000, 5000, 0, 100, None);
    let a = allocate_material(&cfg, &vec![1000, 1050, 1100, 500, 2000]);
    assert_eq!(a.unique_cuts, 3);
}

#[test]
fn sort_is_descending() {
    assert_eq!(sort_descending(&vec![3, 9, 1, 9, 4]), vec![9, 9, 4, 3, 1]);
    assert_eq!(sort_descending(&vec![]), Vec::<u64>::new());
}

#[test]
fn aligned_zero_offsets_need_only_full_planks() {
    let cfg = config(2000, 6000, 10, 100, None);
    let reqs = calculate_requirements(&cfg, &layout(&[0, 0, 0]));
    assert_eq!(reqs.len(), 9);
    assert!(reqs.iter().all(|&r| r == 2000));
    let a = allocate_material(&cfg, &reqs);
    assert_eq!(a.waste, 0);
    assert_eq!(a.unique_cuts, 0);
    assert_eq!(a.total_material, 18000);
    assert_eq!(a.offcuts_reused, 0);
    assert_eq!(a.offcuts_wasted, 0);
}

#[test]
fn single_row_randomness_is_half() {
    let cfg = config(2000, 5000, 0, 100, None);
    for o in [0, -1, -1000, -2000] {
        assert_eq!(score_randomness(&cfg, &layout(&[o])), SCORE_ONE / 2);
    }
    assert_eq!(score_randomness(&cfg, &layout(&[])), SCORE_ONE / 2);
}

#[test]
fn randomness_is_four_standard_deviations() {
    let cfg = config(2000, 5000, 0, 100, None);
    assert_eq!(score_randomness(&cfg, &layout(&[0, -2000])), 2_000_000);
    assert_eq!(score_randomness(&cfg, &layout(&[0, -1000])), 1_000_000);
    assert_eq!(score_randomness(&cfg, &layout(&[-700, -700, -700])), 0);
}

#[test]
fn zero_weights_give_zero_total() {
    let cfg = config(2000, 5000, 0, 100, None);
    let s = score(&cfg, &weights(0, 0, 0), &layout(&[0, -1000]));
    assert_eq!(s.total_score, 0);
}

#[test]
fn cap_penalty_divides_by_one_hundred() {
    let free = config(2000, 5000, 0, 100, None);
    let capped = config(2000, 5000, 0, 100, Some(0));
    let l = layout(&[0]);
    let a = score(&free, &weights(1, 1, 1), &l);
    let b = score(&capped, &weights(1, 1, 1), &l);
    assert_eq!(b.total_score, a.total_score / 100);
    let kept = config(2000, 5000, 0, 100, Some(1));
    assert_eq!(score(&kept, &weights(1, 1, 1), &l).total_score, a.total_score);
}

#[test]
fn random_layout_scores_are_in_range() {
    let cfg = config(2000, 5000, 5, 100, None);
    for _ in 0..20 {
        let l = Layout::random(6, 2000);
        let s = score(&cfg, &weights(1, 2, 0), &l);
        assert!(s.cutting_score <= SCORE_ONE);
        assert!(s.waste_score <= SCORE_ONE);
        assert!(s.total_score <= SCORE_ONE);
    }
}

#[test]
fn scoring_twice_agrees() {
    let cfg = config(2000, 5000, 5, 100, Some(2));
    let l = layout(&[-10, -800, -1999, 0]);
    let a = score(&cfg, &weights(3, 2, 1), &l);
    let b = score(&cfg, &weights(3, 2, 1), &l);
    assert_eq!(a.total_score, b.total_score);
    assert_eq!(a.cutting_score, b.cutting_score);
    assert_eq!(a.waste_score, b.waste_score);
    assert_eq!(a.randomness_score, b.randomness_score);
}

#[test]
fn allocation_twice_agrees() {
    let cfg = config(2000, 5000, 5, 100, None);
    let reqs = vec![1200, 300, 700, 2000, 450];
    let a = allocate_material(&cfg, &reqs);
    let b = allocate_material(&cfg, &reqs);
    assert_eq!(
        (a.waste, a.total_material, a.offcuts_reused, a.offcuts_wasted, a.unique_cuts),
        (b.waste, b.total_material, b.offcuts_reused, b.offcuts_wasted, b.unique_cuts)
    );
}

#[test]
fn larger_kerf_wastes_at_least_as_much() {
    let l = layout(&[-300, -1200, -50]);
    let mut last = 0;
    for kerf in [0, 5, 20, 100] {
        let cfg = config(2000, 5000, kerf, 100, None);
        let reqs = calculate_requirements(&cfg, &l);
        let w = allocate_material(&cfg, &reqs).waste;
        assert!(w >= last);
        last = w;
    }
}

#[test]
fn random_offsets_stay_inside_the_plank() {
    let l = Layout::random(50, 2000);
    assert_eq!(l.row_offsets.len(), 50);
    assert!(l.row_offsets.iter().all(|&o| -2000 < o && o <= 0));
    assert!(Layout::random(0, 1).row_offsets.is_empty());
}

#[test]
fn mutate_row_clamps() {
    let l = layout(&[-1900, -100]);
    assert_eq!(l.mutate_row(2000, 0, -500).row_offsets, vec![-2000, -100]);
    assert_eq!(l.mutate_row(2000, 1, 3000).row_offsets, vec![-1900, 0]);
    assert_eq!(l.mutate_row(2000, 1, -50).row_offsets, vec![-1900, -150]);
}

#[test]
fn mutate_moves_at_most_one_row() {
    let l = layout(&[-1000, -1000, -1000]);
    for _ in 0..20 {
        let m = l.mutate(2000, SCORE_ONE);
        let moved = m.row_offsets.iter().filter(|&&o| o != -1000).count();
        assert!(moved <= 1);
        assert!(m.row_offsets.iter().all(|&o| (-2000..=0).contains(&o)));
        assert!(m.row_offsets.iter().all(|&o| (o + 1000).abs() <= 1000));
    }
    assert!(layout(&[]).mutate(2000, SCORE_ONE).row_offsets.is_empty());
}

#[test]
fn mutation_strength_schedule() {
    assert_eq!(mutation_strength(0, 100), 550_000);
    assert_eq!(mutation_strength(50, 100), 300_000);
    assert_eq!(mutation_strength(99, 100), 55_000);
}

#[test]
fn best_score_never_drops() {
    let cfg = config(2000, 5000, 5, 100, None);
    let w = weights(1, 1, 1);
    let start = score(&cfg, &w, &layout(&[0, 0]));
    let best = score(&cfg, &w, &layout(&[0, -1000]));
    let worse = score(&cfg, &w, &layout(&[-1, -1]));
    let copy = score(&cfg, &w, &layout(&[0, 0]));
    let state = Annealing { current: start, best: copy };
    let state = state.advance(best, false);
    let top = state.best.total_score;
    assert_eq!(state.current.layout.row_offsets, vec![0, -1000]);
    let state = state.advance(worse, true);
    assert_eq!(state.current.layout.row_offsets, vec![-1, -1]);
    assert_eq!(state.best.total_score, top);
    assert_eq!(state.best.layout.row_offsets, vec![0, -1000]);
}

#[test]
fn optimize_never_returns_a_worse_layout() {
    let cfg = config(2000, 5000, 5, 100, None);
    let w = weights(1, 1, 1);
    let initial = layout(&[-10, -20, -30, -40]);
    let start = score(&cfg, &w, &initial).total_score;
    let always = |_d: i64, _i: u32| true;
    let r = optimize(&cfg, &w, &initial, 200, &always);
    assert_eq!(r.row_offsets.len(), 4);
    assert!(score(&cfg, &w, &r).total_score >= start);
    let never = |_d: i64, _i: u32| false;
    let r = optimize(&cfg, &w, &initial, 200, &never);
    assert!(score(&cfg, &w, &r).total_score >= start);
}

#[test]
fn pick_best_takes_first_of_ties() {
    let cfg = config(2000, 5000, 0, 100, None);
    let w = weights(1, 1, 1);
    let c = vec![
        score(&cfg, &w, &layout(&[-1, -1])),
        score(&cfg, &w, &layout(&[0, -1000])),
        score(&cfg, &w, &layout(&[-1000, 0])),
    ];
    assert_eq!(pick_best(&c), 1);
}

#[test]
fn solver_session() {
    let cfg = config(2000, 5000, 5, 100, None);
    assert!(cfg.is_valid());
    assert!(!config(0, 5000, 5, 100, None).is_valid());
    assert!(!config(MAX_LENGTH + 1, 5000, 5, 100, None).is_valid());
    let solver = Solver::new(cfg, weights(1, 1, 1), 5);
    let l = solver.generate_random();
    assert_eq!(l.row_offsets.len(), 5);
    let s = solver.score_layout(&l);
    assert_eq!(s.layout.row_offsets, l.row_offsets);
    let g = solver.generate_and_score();
    assert_eq!(g.layout.row_offsets.len(), 5);
    let b = solver.generate_batch_best(8);
    assert_eq!(b.layout.row_offsets.len(), 5);
    let o = solver.optimize(&l, 50, &|_d: i64, _i: u32| false);
    assert!(solver.score_layout(&o).total_score >= s.total_score);
}

#[test]
fn optimize_without_iterations_returns_the_start() {
    let cfg = config(2000, 5000, 5, 100, None);
    let initial = layout(&[-10, -1500, -30]);
    let r = optimize(&cfg, &weights(1, 1, 1), &initial, 0, &|_d: i64, _i: u32| true);
    assert_eq!(r.row_offsets, initial.row_offsets);
}

#[test]
fn optimize_with_zero_weights_returns_the_start() {
    let cfg = config(2000, 5000, 5, 100, None);
    let initial = layout(&[-10, -1500, -30]);
    let r = optimize(&cfg, &weights(0, 0, 0), &initial, 100, &|_d: i64, _i: u32| true);
    assert_eq!(r.row_offsets, initial.row_offsets);
}

#[test]
fn optimize_result_is_start_or_strictly_better() {
    let cfg = config(2000, 5000, 5, 100, None);
    let w = weights(1, 1, 1);
    let initial = layout(&[-700, -700, -700]);
    let start = score(&cfg, &w, &initial).total_score;
    for _ in 0..5 {
        let r = optimize(&cfg, &w, &initial, 100, &|_d: i64, _i: u32| true);
        assert!(r.row_offsets == initial.row_offsets || score(&cfg, &w, &r).total_score > start);
    }
}

#[test]
fn batch_results_stay_above_minus_plank() {
    let solver = Solver::new(config(2000, 5000, 5, 100, None), weights(1, 1, 1), 7);
    for _ in 0..10 {
        let b = solver.generate_batch_best(4);
        assert_eq!(b.layout.row_offsets.len(), 7);
        assert!(b.layout.row_offsets.iter().all(|&o| -2000 < o && o <= 0));
        let g = solver.generate_and_score();
        assert!(g.layout.row_offsets.iter().all(|&o| -2000 < o && o <= 0));
    }
}

#[test]
fn unique_cuts_round_to_the_nearest_tenth() {
    let cfg = config(2000, 5000, 0, 100, None);
    assert_eq!(allocate_material(&cfg, &vec![1040, 1060]).unique_cuts, 2);
    assert_eq!(allocate_material(&cfg, &vec![1050, 1149]).unique_cuts, 1);
    assert_eq!(allocate_material(&cfg, &vec![1049, 1050]).unique_cuts, 2);
}

#[test]
fn anneal_takes_a_strictly_better_neighbour() {
    let cfg = config(2000, 5000, 0, 100, None);
    let w = weights(0, 0, 1);
    let initial = layout(&[0, 0]);
    let r = anneal(&cfg, &w, &initial, 1, &vec![1], &vec![-500], &|_d: i64, _i: u32| false);
    assert_eq!(r.row_offsets, vec![0, -500]);
}

#[test]
fn anneal_keeps_the_best_after_an_accepted_worse_step() {
    let cfg = config(2000, 5000, 0, 100, None);
    let w = weights(0, 0, 1);
    let initial = layout(&[0, 0]);
    let rows = vec![1, 1, 0];
    let shifts = vec![-500, 300, 0];
    let asked = std::cell::Cell::new(0);
    let accept = |d: i64, _i: u32| {
        assert!(d <= 0);
        asked.set(asked.get() + 1);
        true
    };
    let r = anneal(&cfg, &w, &initial, 3, &rows, &shifts, &accept);
    assert_eq!(r.row_offsets, vec![0, -500]);
    assert_eq!(asked.get(), 2);
}

#[test]
fn anneal_rejects_worse_steps_when_the_test_says_no() {
    let cfg = config(2000, 5000, 0, 100, None);
    let w = weights(0, 0, 1);
    let initial = layout(&[0, -500]);
    let r = anneal(&cfg, &w, &initial, 2, &vec![1, 1], &vec![300, 100], &|_d: i64, _i: u32| false);
    assert_eq!(r.row_offsets, vec![0, -500]);
}
