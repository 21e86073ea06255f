use fastbogo::kernel::{
    count_fixed_points, materialize_arr, run_range, run_range_with_tuning, score_candidate,
    KernelTuning,
};
use fastbogo::kernel_simd::{fast_mod_avx2, run_range_simd};
use fastbogo::rng::SeedCursor;

#[test]
fn sample_kernel_matches_known_output() {
    let result = run_range(1_234_567_890_123_456_789, 0, 1_000);
    assert_eq!(result.best_score, 6);
    assert_eq!(result.best_index, 866);
    assert_eq!(
        result.best_arr,
        [
            1, 22, 4, 15, 5, 17, 13, 12, 11, 25, 10, 21, 9, 7, 18, 14, 8, 3, 19, 20, 16, 2, 23,
            24, 6,
        ]
    );
}

#[test]
fn score_screen_matches_materialized_counts() {
    let seed = 1_234_567_890_123_456_789u64;
    for index in 0..10_000u64 {
        let mut state = SeedCursor::new(seed, index).current_state();
        let score = score_candidate::<24>(&mut state, 0);
        let arr = materialize_arr(seed, index);
        assert_eq!(score, count_fixed_points(&arr), "index={index}");
    }
}

#[test]
fn tuning_variants_preserve_output() {
    let seed = 1_234_567_890_123_456_789u64;
    let baseline =
        run_range_with_tuning(seed, 0, 50_000, KernelTuning { prune_check_start: 24 });
    for prune_check_start in [24, 18, 16, 14, 13, 12, 10, 8, 1] {
        let tuned = run_range_with_tuning(seed, 0, 50_000, KernelTuning { prune_check_start });
        assert_eq!(tuned.best_score, baseline.best_score, "start={prune_check_start}");
        assert_eq!(tuned.best_index, baseline.best_index, "start={prune_check_start}");
        assert_eq!(tuned.best_arr, baseline.best_arr, "start={prune_check_start}");
    }
}

#[test]
fn simd_mod_const_works() {
    let inputs: [(u32, u32); 6] = [(25, 0), (24, 4), (23, 3), (22, 2), (21, 1), (101, 1)];
    for (a, expected) in inputs {
        assert_eq!(a % 5, expected);
    }
    for (a, expected) in inputs {
        let result = fast_mod_avx2::<5>([a; 8]);
        assert_eq!(result, [expected; 8]);
    }
}

#[test]
fn simd_search_matches_scalar_search_on_sample() {
    let seed = 1_234_567_890_123_456_789u64;
    let scalar = run_range(seed, 0, 1_000);
    let lanes = run_range_simd(seed, 0, 1_000);
    assert_eq!(lanes.best_score, scalar.best_score);
    assert_eq!(lanes.best_index, scalar.best_index);
    assert_eq!(lanes.best_arr, scalar.best_arr);
}

#[test]
fn materialized_arrangements_are_permutations() {
    let seed = 42u64;
    for index in [0u64, 1, 2, 1_000, u64::MAX] {
        let mut arr = materialize_arr(seed, index).to_vec();
        arr.sort();
        assert_eq!(arr, (1..=25).collect::<Vec<u8>>(), "index={index}");
    }
}

#[test]
fn advancing_a_cursor_matches_a_fresh_one() {
    let seed = 7u64;
    let mut cursor = SeedCursor::new(seed, u64::MAX - 2);
    for index in [u64::MAX - 1, u64::MAX] {
        cursor.advance();
        assert_eq!(cursor.current_state(), SeedCursor::new(seed, index).current_state());
    }
    let mut wrapped = SeedCursor::new(seed, u64::MAX);
    wrapped.advance();
    assert_eq!(wrapped.current_state(), SeedCursor::new(seed, 0).current_state());
}

#[test]
fn pruned_scores_never_exceed_the_floor() {
    let seed = 99u64;
    for index in 0..2_000u64 {
        let exact = count_fixed_points(&materialize_arr(seed, index));
        for floor in [0u8, 1, 2, 3] {
            let mut state = SeedCursor::new(seed, index).current_state();
            let screened = score_candidate::<1>(&mut state, floor);
            if exact > floor {
                assert_eq!(screened, exact);
            } else {
                assert!(screened == exact || screened == floor);
            }
        }
    }
}

#[test]
fn empty_range_returns_identity() {
    let r = run_range(5, 10, 10);
    assert_eq!((r.best_score, r.best_index), (0, 10));
    assert_eq!(r.best_arr, fastbogo::kernel::INITIAL_ARR);
    let r = run_range_simd(5, 11, 10);
    assert_eq!((r.best_score, r.best_index), (0, 11));
}

#[test]
fn simd_search_with_a_tail_matches_scalar_search() {
    let seed = 3u64;
    let scalar = run_range(seed, 5, 1_003);
    let lanes = run_range_simd(seed, 5, 1_003);
    assert_eq!((lanes.best_score, lanes.best_index), (scalar.best_score, scalar.best_index));
    assert_eq!(lanes.best_arr, scalar.best_arr);
}

#[test]
fn shifted_seed_search_matches_offset_search() {
    let seed = 1_234_567_890_123_456_789u64;
    let lo = 400u64;
    let hi = 1_400u64;
    let shifted = seed.wrapping_add(lo.wrapping_mul(fastbogo::kernel::SEED_STRIDE));
    let direct = run_range(seed, lo, hi);
    let moved = run_range(shifted, 0, hi - lo);
    assert_eq!(direct.best_score, moved.best_score);
    assert_eq!(direct.best_index, lo + moved.best_index);
    assert_eq!(direct.best_arr, moved.best_arr);
}

#[test]
fn split_search_keeps_left_on_ties() {
    let seed = 1_234_567_890_123_456_789u64;
    let whole = run_range(seed, 0, 1_000);
    let left = run_range(seed, 0, 866);
    let right = run_range(seed, 866, 1_000);
    assert_eq!(whole.best_score, left.best_score.max(right.best_score));
    let kept = if right.best_score > left.best_score { right } else { left };
    assert_eq!((whole.best_index, whole.best_arr), (kept.best_index, kept.best_arr));
}
