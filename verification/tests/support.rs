use fastbogo::benchmark::{best_partial, segment_bounds};
use fastbogo::kernel::{run_range, RangeResult, INITIAL_ARR};
use fastbogo::libdivide::{calculate_magic, fast_mod, magic_m, magic_sh1, magic_sh2, MagicParams};
use fastbogo::rng::{splitmix64_step, threshold, xseed};
use fastbogo::text::{is_blank, parse_number_list, parse_uint, IntErrorKind};

#[test]
fn segment_split_matches_browser_formula() {
    let workers = 6usize;
    let count = 17u64;
    let segments = (0..workers)
        .map(|idx| segment_bounds(idx, count, workers))
        .collect::<Vec<_>>();
    assert_eq!(segments, vec![(0, 2), (2, 5), (5, 8), (8, 11), (11, 14), (14, 17)]);
}

#[test]
fn segments_tile_a_lease_of_any_size() {
    for workers in 1..9usize {
        for count in [0u64, 1, 7, 17, 100, u64::MAX] {
            let mut expected_lo = 0u64;
            for idx in 0..workers {
                let (lo, hi) = segment_bounds(idx, count, workers);
                assert_eq!(lo, expected_lo);
                assert!(lo <= hi);
                expected_lo = hi;
            }
            assert_eq!(expected_lo, count);
        }
    }
}

#[test]
fn best_partial_takes_first_highest() {
    let mk = |score: u8, index: u64| RangeResult { best_score: score, best_arr: INITIAL_ARR, best_index: index };
    let partials = vec![mk(3, 0), mk(5, 10), mk(5, 20), mk(4, 30)];
    assert_eq!(best_partial(&partials), 1);
    assert_eq!(best_partial(&vec![mk(2, 0)]), 0);
}

#[test]
fn merged_segment_results_match_whole_range() {
    let seed = 1_234_567_890_123_456_789u64;
    let whole = run_range(seed, 0, 1_000);
    let parts = vec![run_range(seed, 0, 300), run_range(seed, 300, 700), run_range(seed, 700, 1_000)];
    let best = parts[best_partial(&parts)];
    assert_eq!(best.best_score, whole.best_score);
    assert_eq!(best.best_index, whole.best_index);
    assert_eq!(best.best_arr, whole.best_arr);
}

#[test]
fn magic_parameters_for_small_divisors() {
    assert_eq!(calculate_magic(1), MagicParams { m: 1, sh1: 0, sh2: 0 });
    assert_eq!(calculate_magic(2), MagicParams { m: 1, sh1: 1, sh2: 0 });
    assert_eq!(calculate_magic(25), MagicParams { m: 1_202_590_843, sh1: 1, sh2: 4 });
    assert_eq!(calculate_magic(16), MagicParams { m: 1, sh1: 1, sh2: 3 });
    assert_eq!(magic_m::<25>(), 1_202_590_843);
    assert_eq!(magic_sh1::<25>(), 1);
    assert_eq!(magic_sh2::<25>(), 4);
    assert_eq!(magic_m::<7>(), 613_566_757);
}

#[test]
fn fast_mod_matches_remainder() {
    let samples = [0u32, 1, 2, 3, 24, 25, 26, 99, 1_000_003, 0x7fff_ffff, 0x8000_0000, u32::MAX - 1, u32::MAX];
    for d in [1u32, 2, 3, 5, 7, 10, 24, 25, 1_000, 65_537, 0x7fff_ffff, 0x8000_0000] {
        let p = calculate_magic(d);
        for &n in &samples {
            assert_eq!(fast_mod(n, d, p), n % d, "n={n} d={d}");
        }
    }
}

#[test]
fn splitmix_first_output_from_zero() {
    let mut z = 0u64;
    let out = splitmix64_step(&mut z);
    assert_eq!(z, 0x9e37_79b9_7f4a_7c15);
    assert_eq!(out, 0xe220_a839_7b1d_cdaf);
}

#[test]
fn seeded_state_is_never_all_zero() {
    for seed in 0..1_000u64 {
        let s = xseed(seed);
        assert!(s != [0, 0, 0, 0]);
    }
}

#[test]
fn thresholds_are_two_to_the_32_mod_max() {
    assert_eq!(threshold(25), 21);
    assert_eq!(threshold(24), 16);
    assert_eq!(threshold(16), 0);
    assert_eq!(threshold(2), 0);
    assert_eq!(threshold(3), 1);
}

fn chars(s: &str) -> Vec<char> {
    s.chars().collect()
}

#[test]
fn number_lists_are_trimmed_and_skip_blanks() {
    assert_eq!(parse_number_list(Some("26,39,52"), u64::MAX).unwrap(), vec![26, 39, 52]);
    assert_eq!(parse_number_list(Some(" 16 , 15,,14 ,"), 255).unwrap(), vec![16, 15, 14]);
    assert_eq!(parse_number_list(Some("+7"), 255).unwrap(), vec![7]);
    assert_eq!(parse_number_list(Some(""), 255).unwrap(), Vec::<u64>::new());
    assert_eq!(parse_number_list(None, 255).unwrap(), Vec::<u64>::new());
    assert_eq!(parse_number_list(Some("\t 3\u{3000}"), 255).unwrap(), vec![3]);
}

#[test]
fn number_list_errors_name_the_item() {
    let e = parse_number_list(Some("1, 2x ,3"), 255).unwrap_err();
    assert_eq!(e.item, chars("2x"));
    assert_eq!(e.kind, IntErrorKind::InvalidDigit);
    let e = parse_number_list(Some("12,256"), 255).unwrap_err();
    assert_eq!(e.item, chars("256"));
    assert_eq!(e.kind, IntErrorKind::PosOverflow);
    let e = parse_number_list(Some("+"), 255).unwrap_err();
    assert_eq!(e.kind, IntErrorKind::InvalidDigit);
    let e = parse_number_list(Some("-1"), 255).unwrap_err();
    assert_eq!(e.kind, IntErrorKind::InvalidDigit);
    let e = parse_number_list(Some("99999999999999999999"), u64::MAX).unwrap_err();
    assert_eq!(e.kind, IntErrorKind::PosOverflow);
    let e = parse_number_list(Some("9999x"), 255).unwrap_err();
    assert_eq!(e.kind, IntErrorKind::PosOverflow);
}

#[test]
fn blank_strings() {
    assert!(is_blank(""));
    assert!(is_blank(" \t\n"));
    assert!(!is_blank(" a "));
}

#[test]
fn empty_number_is_reported_as_empty() {
    assert_eq!(parse_uint(&vec![], 0, 0, 10), Err(IntErrorKind::Empty));
    assert_eq!(parse_uint(&chars("x+9"), 1, 3, 10), Ok(9));
}

#[test]
fn best_partial_with_empty_shares_matches_whole_range() {
    let seed = 1_234_567_890_123_456_789u64;
    let count = 3u64;
    let workers = 5usize;
    let parts: Vec<RangeResult> = (0..workers)
        .map(|idx| {
            let (lo, hi) = segment_bounds(idx, count, workers);
            run_range(seed, lo, hi)
        })
        .collect();
    let whole = run_range(seed, 0, count);
    let best = parts[best_partial(&parts)];
    assert!(whole.best_score > 0);
    assert_eq!((best.best_score, best.best_index, best.best_arr), (whole.best_score, whole.best_index, whole.best_arr));
}
