//! The scalar kernel: Fisher-Yates shuffles of 1..=25 driven by per-candidate
//! xoshiro128++ streams, scored by their fixed points, and the search of a range of
//! candidates for the best one.
use vstd::prelude::*;

use crate::rng::{
    can_draw, candidate_seed, draw_state, draw_value, lemma_candidate_seed_next,
    lemma_cursor_state_is_xseed, st, threshold, threshold_spec, xint, xo_out, xo_step, xseed,
    xseed_state, SeedCursor, XoState,
};

verus! {

/// The length of the shuffled arrays.
pub const N: usize = 25;

/// The stride between the 64-bit seeds of consecutive candidates (the golden-ratio
/// increment of splitmix64).
pub const SEED_STRIDE: u64 = 0x9e37_79b9_7f4a_7c15;

/// The identity arrangement every shuffle starts from.
pub const INITIAL_ARR: [u8; N] = [
    1, 2, 3, 4, 5, 6, 7, 8, 9, 10, 11, 12, 13, 14, 15, 16, 17, 18, 19, 20, 21, 22, 23, 24, 25,
];

/// When the scorer starts cutting off candidates that can no longer beat the floor.
#[derive(Clone, Copy, Debug, PartialEq, Eq)]
pub struct KernelTuning {
    pub prune_check_start: u8,
}

/// The prune start used when none is given: prune checks from the first step.
pub const DEFAULT_PRUNE_CHECK_START: u8 = 24;

impl Default for KernelTuning {
    /// The tuning used when none is given.
    fn default() -> (t: Self)
        ensures
            t.prune_check_start == DEFAULT_PRUNE_CHECK_START,
    {
        KernelTuning { prune_check_start: DEFAULT_PRUNE_CHECK_START }
    }
}

/// The best candidate of a range: its score, its shuffled array and its index.
#[derive(Clone, Copy, Debug)]
pub struct RangeResult {
    pub best_score: u8,
    pub best_arr: [u8; N],
    pub best_index: u64,
}

// ---------------------------------------------------------------------------------------
// The mathematical model of a shuffle.
// ---------------------------------------------------------------------------------------

/// The identity arrangement 1, 2, ..., 25.
pub open spec fn initial_arr() -> Seq<u8> {
    Seq::new(25, |i: int| (i + 1) as u8)
}

/// A sequence with the entries at `i` and `j` exchanged.
pub open spec fn swap_seq(a: Seq<u8>, i: int, j: int) -> Seq<u8> {
    a.update(i, a[j]).update(j, a[i])
}

/// The threshold of the draw at Fisher-Yates position `idx` (a draw below `idx + 1`).
pub open spec fn step_threshold(idx: nat) -> u32 {
    threshold_spec((idx + 1) as u32)
}

/// Every rejection draw of the shuffle steps `idx, idx - 1, ..., 1` ends.
pub open spec fn exact_defined(s: XoState, idx: nat) -> bool
    decreases idx,
{
    if idx == 0 {
        true
    } else {
        can_draw(s, step_threshold(idx)) && exact_defined(
            draw_state(s, step_threshold(idx)),
            (idx - 1) as nat,
        )
    }
}

/// The rejection-sampled draws of the shuffle steps `idx, idx - 1, ..., 1`.
pub open spec fn exact_draws(s: XoState, idx: nat) -> Seq<int>
    decreases idx,
{
    if idx == 0 {
        Seq::empty()
    } else {
        seq![draw_value(s, (idx + 1) as u32, step_threshold(idx))] + exact_draws(
            draw_state(s, step_threshold(idx)),
            (idx - 1) as nat,
        )
    }
}

/// The generator state after the rejection draws of the steps `idx, ..., 1`.
pub open spec fn exact_end(s: XoState, idx: nat) -> XoState
    decreases idx,
{
    if idx == 0 {
        s
    } else {
        exact_end(draw_state(s, step_threshold(idx)), (idx - 1) as nat)
    }
}

/// The draws of the steps `idx, ..., 1` taken as plain remainders, without rejection.
pub open spec fn plain_draws(s: XoState, idx: nat) -> Seq<int>
    decreases idx,
{
    if idx == 0 {
        Seq::empty()
    } else {
        seq![(xo_out(s) % ((idx + 1) as u32)) as int] + plain_draws(xo_step(s), (idx - 1) as nat)
    }
}

/// Draw `k` of the steps `idx, ..., 1` lies in `0..=idx - k`.
pub open spec fn draws_ok(ds: Seq<int>, idx: nat) -> bool {
    &&& ds.len() == idx
    &&& forall|k: int| 0 <= k < idx ==> 0 <= #[trigger] ds[k] <= idx - k
}

/// The Fisher-Yates steps `idx, ..., 1` applied to `arr`, step `idx` swapping position
/// `idx` with the first draw.
pub open spec fn shuffled(arr: Seq<u8>, ds: Seq<int>, idx: nat) -> Seq<u8>
    decreases idx,
{
    if idx == 0 || ds.len() == 0 {
        arr
    } else {
        shuffled(swap_seq(arr, idx as int, ds[0]), ds.drop_first(), (idx - 1) as nat)
    }
}

/// The number of positions `i` in `lo..hi` that hold `i + 1`.
pub open spec fn fixed_in(a: Seq<u8>, lo: int, hi: int) -> nat
    decreases hi - lo,
{
    if lo >= hi {
        0
    } else {
        (if a[lo] as int == lo + 1 {
            1nat
        } else {
            0nat
        }) + fixed_in(a, lo + 1, hi)
    }
}

/// The number of fixed points of an arrangement of 1..=n.
pub open spec fn fixed_points(a: Seq<u8>) -> nat {
    fixed_in(a, 0, a.len() as int)
}

/// Bit `j` of `hits` is set.
pub open spec fn bit_set(hits: u32, j: int) -> bool {
    hits & (1u32 << (j as u32)) != 0u32
}

/// The number of clear bits of `hits` below bit `n`.
pub open spec fn clear_below(hits: u32, n: int) -> nat
    decreases n,
{
    if n <= 0 {
        0
    } else {
        clear_below(hits, n - 1) + (if bit_set(hits, n - 1) {
            0nat
        } else {
            1nat
        })
    }
}

/// How the bitmask of displaced positions describes a shuffle in progress: positions
/// `0..=m` are still open; an open position whose bit is clear still holds its own
/// value, and the own value of an open position whose bit is set has left the open part.
pub open spec fn tracks(arr: Seq<u8>, hits: u32, m: int) -> bool {
    &&& arr.len() == 25
    &&& 0 <= m < 25
    &&& arr.no_duplicates()
    &&& forall|j: int| 0 <= j <= m && !bit_set(hits, j) ==> #[trigger] arr[j] as int == j + 1
    &&& forall|j: int, p: int|
        0 <= j <= m && 0 <= p <= m && #[trigger] bit_set(hits, j) ==> #[trigger] arr[p] as int
            != j + 1
}

/// The arrangement of candidate `index` of `seed`.
pub open spec fn materialized(seed: u64, index: u64) -> Seq<u8> {
    shuffled(initial_arr(), exact_draws(xseed_state(candidate_seed(seed, index)), 24), 24)
}

/// The score of candidate `index` of `seed`: the fixed points of its arrangement.
pub open spec fn candidate_score(seed: u64, index: u64) -> nat {
    fixed_points(materialized(seed, index))
}

/// The draws of candidate `index` of `seed` all end.
pub open spec fn candidate_defined(seed: u64, index: u64) -> bool {
    exact_defined(xseed_state(candidate_seed(seed, index)), 24)
}

/// The draws of every candidate in `lo..hi` end.
pub open spec fn range_defined(seed: u64, lo: u64, hi: u64) -> bool {
    forall|i: u64| lo <= i < hi ==> #[trigger] candidate_defined(seed, i)
}

/// `index` is the first candidate of `lo..hi` with the highest score, and that score is
/// `score`.
pub open spec fn is_first_best(seed: u64, lo: u64, hi: u64, score: nat, index: u64) -> bool {
    &&& lo <= index < hi
    &&& candidate_score(seed, index) == score
    &&& forall|i: u64| lo <= i < hi ==> #[trigger] candidate_score(seed, i) <= score
    &&& forall|i: u64| lo <= i < index ==> #[trigger] candidate_score(seed, i) < score
}

/// What the search of `lo..hi` returns: for an empty range a zero score, the identity
/// arrangement and `lo`; otherwise the first best candidate with its arrangement.
pub open spec fn is_range_result(seed: u64, lo: u64, hi: u64, r: RangeResult) -> bool {
    if lo >= hi {
        &&& r.best_score == 0
        &&& r.best_arr@ == initial_arr()
        &&& r.best_index == lo
    } else {
        &&& is_first_best(seed, lo, hi, r.best_score as nat, r.best_index)
        &&& r.best_arr@ == materialized(seed, r.best_index)
    }
}

// ---------------------------------------------------------------------------------------
// Lemmas about the model.
// ---------------------------------------------------------------------------------------

pub proof fn lemma_initial_arr()
    ensures
        INITIAL_ARR@ == initial_arr(),
        initial_arr().no_duplicates(),
{
    assert(INITIAL_ARR@ =~= initial_arr());
}

pub proof fn lemma_exact_draws_ok(s: XoState, idx: nat)
    requires
        exact_defined(s, idx),
        idx < 32,
    ensures
        draws_ok(exact_draws(s, idx), idx),
    decreases idx,
{
    if idx > 0 {
        lemma_exact_draws_ok(draw_state(s, step_threshold(idx)), (idx - 1) as nat);
        let ds = exact_draws(s, idx);
        let rest = exact_draws(draw_state(s, step_threshold(idx)), (idx - 1) as nat);
        let max = (idx + 1) as u32;
        let v = crate::rng::xo_output_at(s, crate::rng::rejections(s, step_threshold(idx)));
        assert(0 <= v % max < max);
        assert(ds[0] == (v % max) as int);
        assert forall|k: int| 0 <= k < idx implies 0 <= #[trigger] ds[k] <= idx - k by {
            if k > 0 {
                assert(ds[k] == rest[k - 1]);
            }
        }
    }
}

pub proof fn lemma_plain_draws_ok(s: XoState, idx: nat)
    requires
        idx < 32,
    ensures
        draws_ok(plain_draws(s, idx), idx),
    decreases idx,
{
    if idx > 0 {
        lemma_plain_draws_ok(xo_step(s), (idx - 1) as nat);
        let ds = plain_draws(s, idx);
        let rest = plain_draws(xo_step(s), (idx - 1) as nat);
        let max = (idx + 1) as u32;
        assert(0 <= xo_out(s) % max < max);
        assert forall|k: int| 0 <= k < idx implies 0 <= #[trigger] ds[k] <= idx - k by {
            if k > 0 {
                assert(ds[k] == rest[k - 1]);
            }
        }
    }
}

/// Exchanging two entries keeps the entries distinct.
pub proof fn lemma_swap_no_duplicates(arr: Seq<u8>, i: int, j: int)
    requires
        arr.no_duplicates(),
        0 <= i < arr.len(),
        0 <= j < arr.len(),
    ensures
        swap_seq(arr, i, j).no_duplicates(),
        swap_seq(arr, i, j).len() == arr.len(),
{
    let arr2 = swap_seq(arr, i, j);
    assert forall|p: int, q: int|
        0 <= p < arr2.len() && 0 <= q < arr2.len() && p != q implies arr2[p] != arr2[q] by {
        if p != i && p != j && q != i && q != j {
            assert(arr[p] != arr[q]);
        } else if p == i && q != j {
            assert(arr[j] != arr[q]);
        } else if p == j && q != i {
            assert(arr[i] != arr[q]);
        } else if q == i && p != j {
            assert(arr[j] != arr[p]);
        } else if q == j && p != i {
            assert(arr[i] != arr[p]);
        } else {
            assert(arr[i] != arr[j]);
        }
    }
}

/// The draws after the first one fit the steps after the first one.
pub proof fn lemma_draws_ok_rest(ds: Seq<int>, m: nat)
    requires
        draws_ok(ds, m),
        m > 0,
    ensures
        draws_ok(ds.drop_first(), (m - 1) as nat),
        0 <= ds[0] <= m,
{
    let rest = ds.drop_first();
    assert forall|k: int| 0 <= k < m - 1 implies 0 <= #[trigger] rest[k] <= (m - 1) - k by {
        assert(rest[k] == ds[k + 1]);
    }
}

/// The remaining steps of a shuffle leave the positions above `m` alone.
pub proof fn lemma_shuffled_frame(arr: Seq<u8>, ds: Seq<int>, m: nat)
    requires
        draws_ok(ds, m),
        m < arr.len(),
    ensures
        shuffled(arr, ds, m).len() == arr.len(),
        forall|p: int| m < p < arr.len() ==> #[trigger] shuffled(arr, ds, m)[p] == arr[p],
    decreases m,
{
    if m > 0 {
        let rest = ds.drop_first();
        lemma_draws_ok_rest(ds, m);
        assert(0 <= ds[0] <= m);
        lemma_shuffled_frame(swap_seq(arr, m as int, ds[0]), rest, (m - 1) as nat);
    }
}

pub proof fn lemma_fixed_in_split(a: Seq<u8>, lo: int, mid: int, hi: int)
    requires
        lo <= mid <= hi,
    ensures
        fixed_in(a, lo, hi) == fixed_in(a, lo, mid) + fixed_in(a, mid, hi),
    decreases mid - lo,
{
    if lo < mid {
        lemma_fixed_in_split(a, lo + 1, mid, hi);
    }
}

pub proof fn lemma_fixed_in_bound(a: Seq<u8>, lo: int, hi: int)
    requires
        lo <= hi,
    ensures
        fixed_in(a, lo, hi) <= hi - lo,
    decreases hi - lo,
{
    if lo < hi {
        lemma_fixed_in_bound(a, lo + 1, hi);
    }
}

/// An arrangement has at most as many fixed points as entries.
pub proof fn lemma_fixed_points_bound(a: Seq<u8>)
    ensures
        fixed_points(a) <= a.len(),
{
    lemma_fixed_in_bound(a, 0, a.len() as int);
}

pub proof fn lemma_fixed_in_frame(a: Seq<u8>, b: Seq<u8>, lo: int, hi: int)
    requires
        forall|i: int| lo <= i < hi ==> a[i] == b[i],
    ensures
        fixed_in(a, lo, hi) == fixed_in(b, lo, hi),
    decreases hi - lo,
{
    if lo < hi {
        lemma_fixed_in_frame(a, b, lo + 1, hi);
    }
}

/// Setting bit `d` of `hits` affects bit `d` only.
pub proof fn lemma_bit_set_or(hits: u32, d: int, j: int)
    requires
        0 <= d < 32,
        0 <= j < 32,
    ensures
        bit_set(hits | (1u32 << (d as u32)), j) == (bit_set(hits, j) || j == d),
{
    let dd = d as u32;
    let jj = j as u32;
    assert(((hits | (1u32 << dd)) & (1u32 << jj) != 0u32) == ((hits & (1u32 << jj) != 0u32) || jj
        == dd)) by (bit_vector)
        requires
            dd < 32u32,
            jj < 32u32,
    ;
}

pub proof fn lemma_clear_below_or(hits: u32, d: int, n: int)
    requires
        0 <= d < 32,
        n <= 32,
    ensures
        clear_below(hits | (1u32 << (d as u32)), n) <= clear_below(hits, n),
    decreases n,
{
    if n > 0 {
        lemma_clear_below_or(hits, d, n - 1);
        lemma_bit_set_or(hits, d, n - 1);
    }
}

pub proof fn lemma_no_bits_set(j: int)
    requires
        0 <= j < 32,
    ensures
        !bit_set(0u32, j),
{
    let jj = j as u32;
    assert(0u32 & (1u32 << jj) == 0u32) by (bit_vector);
}

pub proof fn lemma_tracks_start()
    ensures
        tracks(initial_arr(), 0u32, 24),
{
    lemma_initial_arr();
    assert forall|j: int| 0 <= j <= 24 implies !#[trigger] bit_set(0u32, j) by {
        lemma_no_bits_set(j);
    }
}

/// One Fisher-Yates step at position `m` with draw `d`: the new position `m` holds its own
/// value exactly when the draw stays at `m` and `m` was not displaced, and the bitmask with
/// the draw recorded tracks the rest.
pub proof fn lemma_tracks_step(arr: Seq<u8>, hits: u32, m: int, d: int)
    requires
        tracks(arr, hits, m),
        1 <= m,
        0 <= d <= m,
    ensures
        ({
            let arr2 = swap_seq(arr, m, d);
            let hits2 = if d == m {
                hits
            } else {
                hits | (1u32 << (d as u32))
            };
            &&& tracks(arr2, hits2, m - 1)
            &&& (arr2[m] as int == m + 1) == (d == m && !bit_set(hits, m))
            &&& clear_below(hits2, m) <= clear_below(hits, m)
            &&& forall|p: int| m < p < 25 ==> #[trigger] arr2[p] == arr[p]
        }),
{
    let arr2 = swap_seq(arr, m, d);
    if d == m {
        assert(arr2 =~= arr);
        if bit_set(hits, m) {
            assert(arr[m] as int != m + 1);
        }
    } else {
        let hits2 = hits | (1u32 << (d as u32));
        assert forall|j: int| 0 <= j < 32 implies #[trigger] bit_set(hits2, j) == (bit_set(hits, j)
            || j == d) by {
            lemma_bit_set_or(hits, d, j);
        }
        lemma_clear_below_or(hits, d, m);
        lemma_swap_no_duplicates(arr, m, d);
        assert(arr2[m] as int != m + 1) by {
            if !bit_set(hits, m) {
                assert(arr[m] as int == m + 1);
                assert(arr[d] != arr[m]);
            } else {
                assert(arr[d] as int != m + 1);
            }
        }
        assert forall|j: int| 0 <= j <= m - 1 && !bit_set(hits2, j) implies #[trigger] arr2[j] as int
            == j + 1 by {
            assert(!bit_set(hits, j));
            assert(arr[j] as int == j + 1);
        }
        assert forall|j: int, p: int|
            0 <= j <= m - 1 && 0 <= p <= m - 1 && #[trigger] bit_set(hits2, j) implies #[trigger] arr2[p]
                as int != j + 1 by {
            if j == d {
                if !bit_set(hits, d) {
                    assert(arr[d] as int == d + 1);
                    if p == d {
                        assert(arr[m] != arr[d]);
                    } else {
                        assert(arr[p] != arr[d]);
                    }
                } else {
                    if p == d {
                        assert(arr[m] as int != d + 1);
                    } else {
                        assert(arr[p] as int != d + 1);
                    }
                }
            } else {
                assert(bit_set(hits, j));
                if p == d {
                    assert(arr[m] as int != j + 1);
                } else {
                    assert(arr[p] as int != j + 1);
                }
            }
        }
    }
}

/// While the bitmask tracks a shuffle in progress at position `m`, the positions
/// `0..=m` end with no more fixed points than there are clear bits below `m + 1`.
pub proof fn lemma_open_positions_bound(arr: Seq<u8>, hits: u32, ds: Seq<int>, m: nat)
    requires
        tracks(arr, hits, m as int),
        draws_ok(ds, m),
    ensures
        fixed_in(shuffled(arr, ds, m), 0, m + 1int) <= clear_below(hits, m + 1int),
    decreases m,
{
    let fin = shuffled(arr, ds, m);
    if m == 0 {
        assert(fin == arr);
        if bit_set(hits, 0) {
            assert(arr[0] as int != 1);
        }
        assert(fixed_in(arr, 1, 1) == 0);
    } else {
        let d = ds[0];
        assert(0 <= d <= m);
        let arr2 = swap_seq(arr, m as int, d);
        let hits2 = if d == m {
            hits
        } else {
            hits | (1u32 << (d as u32))
        };
        let rest = ds.drop_first();
        lemma_draws_ok_rest(ds, m);
        lemma_tracks_step(arr, hits, m as int, d);
        lemma_open_positions_bound(arr2, hits2, rest, (m - 1) as nat);
        assert(fin == shuffled(arr2, rest, (m - 1) as nat));
        lemma_shuffled_frame(arr2, rest, (m - 1) as nat);
        lemma_fixed_in_split(fin, 0, m as int, m + 1int);
        assert(fin[m as int] == arr2[m as int]);
        assert(fixed_in(fin, m + 1int, m + 1int) == 0);
        assert(fixed_in(fin, m as int, m + 1int) == (if arr2[m as int] as int == m + 1 {
            1nat
        } else {
            0nat
        }));
    }
}

/// An arrangement of 1..=25: 25 distinct values, each between 1 and 25.
pub open spec fn is_arrangement(a: Seq<u8>) -> bool {
    &&& a.len() == 25
    &&& a.no_duplicates()
    &&& forall|i: int| 0 <= i < 25 ==> 1 <= #[trigger] a[i] <= 25
}

proof fn lemma_shuffled_arrangement(arr: Seq<u8>, ds: Seq<int>, m: nat)
    requires
        is_arrangement(arr),
        draws_ok(ds, m),
        m < 25,
    ensures
        is_arrangement(shuffled(arr, ds, m)),
    decreases m,
{
    if m > 0 {
        let d = ds[0];
        assert(0 <= d <= m);
        let arr2 = swap_seq(arr, m as int, d);
        lemma_swap_no_duplicates(arr, m as int, d);
        let rest = ds.drop_first();
        lemma_draws_ok_rest(ds, m);
        lemma_shuffled_arrangement(arr2, rest, (m - 1) as nat);
    }
}

/// Every candidate's shuffle is an arrangement of 1..=25: nothing is lost or repeated.
pub proof fn law_materialized_is_arrangement(seed: u64, index: u64)
    requires
        candidate_defined(seed, index),
    ensures
        is_arrangement(materialized(seed, index)),
{
    let s = xseed_state(candidate_seed(seed, index));
    lemma_initial_arr();
    lemma_exact_draws_ok(s, 24);
    lemma_shuffled_arrangement(initial_arr(), exact_draws(s, 24), 24);
}

/// The search result of a range is determined by the seed and the range alone: two results
/// that both meet the contract agree, so no tuning can change what a search returns.
pub proof fn law_range_result_unique(seed: u64, lo: u64, hi: u64, r1: RangeResult, r2: RangeResult)
    requires
        is_range_result(seed, lo, hi, r1),
        is_range_result(seed, lo, hi, r2),
    ensures
        r1.best_score == r2.best_score,
        r1.best_index == r2.best_index,
        r1.best_arr@ == r2.best_arr@,
{
    if lo < hi {
        if r1.best_index < r2.best_index {
            assert(candidate_score(seed, r1.best_index) < r2.best_score);
        } else if r2.best_index < r1.best_index {
            assert(candidate_score(seed, r2.best_index) < r1.best_score);
        }
    }
}

/// Searching two adjacent ranges and keeping the second result only when it scores
/// strictly higher gives the search result of the joined range.
pub proof fn law_merge_adjacent_ranges(
    seed: u64,
    lo: u64,
    mid: u64,
    hi: u64,
    r1: RangeResult,
    r2: RangeResult,
)
    requires
        lo < mid < hi,
        is_range_result(seed, lo, mid, r1),
        is_range_result(seed, mid, hi, r2),
    ensures
        is_range_result(seed, lo, hi, if r2.best_score > r1.best_score { r2 } else { r1 }),
{
    if r2.best_score > r1.best_score {
        assert forall|i: u64| lo <= i < hi implies #[trigger] candidate_score(seed, i)
            <= r2.best_score by {
            if i < mid {
                assert(candidate_score(seed, i) <= r1.best_score);
            }
        }
        assert forall|i: u64| lo <= i < r2.best_index implies #[trigger] candidate_score(seed, i)
            < r2.best_score by {
            if i < mid {
                assert(candidate_score(seed, i) <= r1.best_score);
            }
        }
    } else {
        assert forall|i: u64| lo <= i < hi implies #[trigger] candidate_score(seed, i)
            <= r1.best_score by {
            if i >= mid {
                assert(candidate_score(seed, i) <= r2.best_score);
            }
        }
    }
}

/// Splitting a search at `mid`: the search of `lo..hi` has the higher of the two halves'
/// scores, and the candidate of the second half only where it scores strictly higher.
pub proof fn law_split_search(
    seed: u64,
    lo: u64,
    mid: u64,
    hi: u64,
    left: RangeResult,
    right: RangeResult,
    whole: RangeResult,
)
    requires
        lo < mid < hi,
        is_range_result(seed, lo, mid, left),
        is_range_result(seed, mid, hi, right),
        is_range_result(seed, lo, hi, whole),
    ensures
        whole.best_score == if right.best_score > left.best_score {
            right.best_score
        } else {
            left.best_score
        },
        right.best_score > left.best_score ==> whole.best_index == right.best_index
            && whole.best_arr@ == right.best_arr@,
        right.best_score <= left.best_score ==> whole.best_index == left.best_index
            && whole.best_arr@ == left.best_arr@,
{
    law_merge_adjacent_ranges(seed, lo, mid, hi, left, right);
    if right.best_score > left.best_score {
        law_range_result_unique(seed, lo, hi, whole, right);
    } else {
        law_range_result_unique(seed, lo, hi, whole, left);
    }
}

/// Candidate `i` of the seed `lo` strides on is candidate `lo + i` of the seed.
pub proof fn lemma_candidate_seed_shift(seed: u64, lo: u64, i: u64)
    requires
        lo + i <= u64::MAX,
    ensures
        candidate_seed(candidate_seed(seed, lo), i) == candidate_seed(seed, (lo + i) as u64),
{
    crate::rng::lemma_wrap64_add(seed + lo * SEED_STRIDE, i * SEED_STRIDE);
    assert(seed + lo * SEED_STRIDE + i * SEED_STRIDE == seed + (lo + i) * SEED_STRIDE)
        by (nonlinear_arith);
}

/// Searching `lo..hi` of `seed` is searching `0..hi - lo` of the seed shifted by `lo`
/// strides, with the indices moved up by `lo`; the draws of the one range all end exactly
/// when those of the other do.
pub proof fn law_shifted_seed_range(seed: u64, lo: u64, hi: u64, s: RangeResult)
    requires
        lo <= hi,
        is_range_result(candidate_seed(seed, lo), 0, (hi - lo) as u64, s),
    ensures
        is_range_result(
            seed,
            lo,
            hi,
            RangeResult {
                best_score: s.best_score,
                best_arr: s.best_arr,
                best_index: (lo + s.best_index) as u64,
            },
        ),
        range_defined(candidate_seed(seed, lo), 0, (hi - lo) as u64) == range_defined(seed, lo, hi),
{
    let sh = candidate_seed(seed, lo);
    let n = (hi - lo) as u64;
    if lo < hi {
        lemma_candidate_seed_shift(seed, lo, s.best_index);
        assert forall|i: u64| lo <= i < hi implies #[trigger] candidate_score(seed, i)
            <= s.best_score by {
            lemma_candidate_seed_shift(seed, lo, (i - lo) as u64);
            assert(candidate_score(sh, (i - lo) as u64) <= s.best_score);
        }
        assert forall|i: u64| lo <= i < lo + s.best_index implies #[trigger] candidate_score(
            seed,
            i,
        ) < s.best_score by {
            lemma_candidate_seed_shift(seed, lo, (i - lo) as u64);
            assert(candidate_score(sh, (i - lo) as u64) < s.best_score);
        }
    }
    assert(range_defined(sh, 0, n) ==> range_defined(seed, lo, hi)) by {
        if range_defined(sh, 0, n) {
            assert forall|i: u64| lo <= i < hi implies #[trigger] candidate_defined(seed, i) by {
                lemma_candidate_seed_shift(seed, lo, (i - lo) as u64);
                assert(candidate_defined(sh, (i - lo) as u64));
            }
        }
    }
    assert(range_defined(seed, lo, hi) ==> range_defined(sh, 0, n)) by {
        if range_defined(seed, lo, hi) {
            assert forall|i: u64| 0 <= i < n implies #[trigger] candidate_defined(sh, i) by {
                lemma_candidate_seed_shift(seed, lo, i);
                assert(candidate_defined(seed, (lo + i) as u64));
            }
        }
    }
}

/// The stream a cursor hands out for a candidate shuffles exactly as the candidate's own
/// seed does, so screening from the cursor scores the materialized arrangement.
pub proof fn law_cursor_matches_materialized(c: SeedCursor, seed: u64, index: u64)
    requires
        c.at(candidate_seed(seed, index)),
    ensures
        crate::rng::pair_state(c.a, c.b) == xseed_state(candidate_seed(seed, index)),
        fixed_points(
            shuffled(initial_arr(), exact_draws(crate::rng::pair_state(c.a, c.b), 24), 24),
        ) == candidate_score(seed, index),
{
    lemma_cursor_state_is_xseed(c, candidate_seed(seed, index));
}

// ---------------------------------------------------------------------------------------
// The executable kernel.
// ---------------------------------------------------------------------------------------

/// Exchanges two entries of an arrangement.
pub fn swap_at(arr: &mut [u8; N], left: usize, right: usize)
    requires
        left < N,
        right < N,
    ensures
        final(arr)@ == swap_seq(old(arr)@, left as int, right as int),
{
    let l = arr[left];
    let r = arr[right];
    arr[left] = r;
    arr[right] = l;
    proof {
        assert(arr@ =~= swap_seq(old(arr)@, left as int, right as int));
    }
}

/// Shuffles `arr` in place with the Fisher-Yates steps 24 down to 1, each swapping its
/// position with a uniform rejection draw from the stream.
pub fn shuffle_arr(arr: &mut [u8; N], state: &mut [u32; 4])
    requires
        exact_defined(st(*old(state)), 24),
    ensures
        final(arr)@ == shuffled(old(arr)@, exact_draws(st(*old(state)), 24), 24),
        st(*final(state)) == exact_end(st(*old(state)), 24),
{
    let ghost s0 = st(*state);
    let ghost a0 = arr@;
    let mut idx: usize = 24;
    while idx > 0
        invariant
            idx <= 24,
            exact_defined(st(*state), idx as nat),
            shuffled(a0, exact_draws(s0, 24), 24) == shuffled(
                arr@,
                exact_draws(st(*state), idx as nat),
                idx as nat,
            ),
            exact_end(s0, 24) == exact_end(st(*state), idx as nat),
        decreases idx,
    {
        let ghost s = st(*state);
        let max = (idx + 1) as u32;
        let d = xint(state, max, threshold(max));
        swap_at(arr, idx, d);
        proof {
            assert(exact_draws(s, idx as nat)[0] == d as int);
            assert(exact_draws(s, idx as nat).drop_first() =~= exact_draws(
                st(*state),
                (idx - 1) as nat,
            ));
        }
        idx = idx - 1;
    }
    proof {
        assert(shuffled(arr@, exact_draws(st(*state), 0), 0) == arr@);
    }
}

/// Counts the positions `i` of an arrangement that hold `i + 1`.
pub fn count_fixed_points(arr: &[u8; N]) -> (r: u8)
    ensures
        r as nat == fixed_points(arr@),
{
    let mut c: u8 = 0;
    let mut i: usize = N;
    while i > 0
        invariant
            i <= N,
            c as nat == fixed_in(arr@, i as int, N as int),
            c as int <= N - i,
        decreases i,
    {
        i = i - 1;
        if arr[i] as usize == i + 1 {
            c = c + 1;
        }
    }
    c
}

/// The number of clear bits of `hits` below bit `n`.
pub fn count_clear_below(hits: u32, n: u32) -> (r: u8)
    requires
        n <= 25,
    ensures
        r as nat == clear_below(hits, n as int),
        r as int <= n,
{
    let mut c: u8 = 0;
    let mut j: u32 = 0;
    while j < n
        invariant
            j <= n <= 25,
            c as nat == clear_below(hits, j as int),
            c as int <= j,
        decreases n - j,
    {
        if hits & (1u32 << j) == 0 {
            c = c + 1;
        }
        j = j + 1;
    }
    c
}

/// The arrangement of candidate `index` of `seed`.
pub fn materialize_arr(seed: u64, index: u64) -> (arr: [u8; N])
    requires
        candidate_defined(seed, index),
    ensures
        arr@ == materialized(seed, index),
{
    proof {
        crate::rng::lemma_wrapping_add_u64(seed, crate::rng::wrap64(index * SEED_STRIDE));
        crate::rng::lemma_wrap64_add(index * SEED_STRIDE, seed as int);
        lemma_initial_arr();
    }
    let mut state = xseed(seed.wrapping_add(index.wrapping_mul(SEED_STRIDE)));
    let mut arr = INITIAL_ARR;
    shuffle_arr(&mut arr, &mut state);
    arr
}

/// Scores the shuffle that the stream in `state` would produce without building it: a
/// bitmask records the positions that a draw has displaced, a position ends fixed exactly
/// when its own draw keeps it in place and it was never displaced, and from step
/// `PRUNE_CHECK_START` on the scorer gives up, returning `floor`, once the fixed points so
/// far plus the undisplaced open positions cannot exceed `floor`.
pub fn score_candidate<const PRUNE_CHECK_START: u8>(state: &mut [u32; 4], floor: u8) -> (r: u8)
    requires
        exact_defined(st(*old(state)), 24),
    ensures
        ({
            let total = fixed_points(shuffled(initial_arr(), exact_draws(st(*old(state)), 24), 24));
            &&& r as nat == total || (r == floor && total <= floor)
            &&& r > floor ==> st(*final(state)) == exact_end(st(*old(state)), 24)
            &&& exists|idx: nat|
                idx <= 24 && exact_defined(st(*final(state)), idx) && #[trigger] exact_end(
                    st(*final(state)),
                    idx,
                ) == exact_end(st(*old(state)), 24)
        }),
{
    let ghost s0 = st(*state);
    let ghost fin = shuffled(initial_arr(), exact_draws(s0, 24), 24);
    let ghost mut arr = initial_arr();
    let mut foreign_hits: u32 = 0;
    let mut fixed: u8 = 0;
    let mut idx: usize = 24;
    proof {
        lemma_tracks_start();
        lemma_exact_draws_ok(s0, 24);
        lemma_shuffled_frame(initial_arr(), exact_draws(s0, 24), 24);
    }
    while idx > 0
        invariant
            idx <= 24,
            tracks(arr, foreign_hits, idx as int),
            exact_defined(st(*state), idx as nat),
            fin == shuffled(arr, exact_draws(st(*state), idx as nat), idx as nat),
            exact_end(s0, 24) == exact_end(st(*state), idx as nat),
            fixed as nat == fixed_in(arr, idx + 1, 25),
            fixed as int <= 24 - idx,
            fin.len() == 25,
            fin == shuffled(initial_arr(), exact_draws(s0, 24), 24),
            s0 == st(*old(state)),
        decreases idx,
    {
        let ghost s = st(*state);
        let ghost hits0 = foreign_hits;
        let max = (idx + 1) as u32;
        let draw = xint(state, max, threshold(max));
        let idx_bit = 1u32 << (idx as u32);
        if draw == idx {
            if foreign_hits & idx_bit == 0 {
                fixed = fixed + 1;
            }
        } else {
            foreign_hits = foreign_hits | (1u32 << (draw as u32));
        }
        proof {
            lemma_tracks_step(arr, hits0, idx as int, draw as int);
            let arr2 = swap_seq(arr, idx as int, draw as int);
            assert(exact_draws(s, idx as nat)[0] == draw as int);
            assert(exact_draws(s, idx as nat).drop_first() =~= exact_draws(
                st(*state),
                (idx - 1) as nat,
            ));
            assert(fin == shuffled(arr2, exact_draws(st(*state), (idx - 1) as nat), (idx - 1) as nat));
            lemma_fixed_in_frame(arr, arr2, idx + 1, 25);
            arr = arr2;
        }
        if idx as u8 <= PRUNE_CHECK_START {
            let remaining = count_clear_below(foreign_hits, idx as u32);
            if fixed + remaining <= floor {
                proof {
                    let rest = exact_draws(st(*state), (idx - 1) as nat);
                    lemma_exact_draws_ok(st(*state), (idx - 1) as nat);
                    lemma_open_positions_bound(arr, foreign_hits, rest, (idx - 1) as nat);
                    lemma_shuffled_frame(arr, rest, (idx - 1) as nat);
                    lemma_fixed_in_frame(fin, arr, idx as int, 25);
                    lemma_fixed_in_split(fin, 0, idx as int, 25);
                    assert(exact_end(st(*state), (idx - 1) as nat) == exact_end(
                        st(*old(state)),
                        24,
                    ));
                }
                return floor;
            }
        }
        idx = idx - 1;
    }
    proof {
        assert(fin == arr);
        if bit_set(foreign_hits, 0) {
            assert(arr[0] as int != 1);
        }
        assert(1u32 << 0u32 == 1u32) by (bit_vector);
    }
    fixed + if foreign_hits & 1 == 0 {
        1
    } else {
        0
    }
}

/// Searches candidates `lo..hi` of `seed` for the first one with the most fixed points,
/// screening each with the pruning scorer against the best score so far.
fn run_range_impl<const PRUNE_CHECK_START: u8>(seed: u64, lo: u64, hi: u64) -> (r: RangeResult)
    requires
        range_defined(seed, lo, hi),
    ensures
        is_range_result(seed, lo, hi, r),
{
    if lo >= hi {
        proof {
            lemma_initial_arr();
        }
        return RangeResult { best_score: 0, best_arr: INITIAL_ARR, best_index: lo };
    }
    let mut best_score = 0u8;
    let mut best_index = lo;
    let mut seed_cursor = SeedCursor::new(seed, lo);
    let mut it = lo;
    while it < hi
        invariant
            lo <= it <= hi,
            lo < hi,
            range_defined(seed, lo, hi),
            it < hi ==> seed_cursor.at(candidate_seed(seed, it)),
            it == lo ==> best_score == 0 && best_index == lo,
            it > lo ==> is_first_best(seed, lo, it, best_score as nat, best_index),
        decreases hi - it,
    {
        let mut state = seed_cursor.current_state();
        proof {
            lemma_cursor_state_is_xseed(seed_cursor, candidate_seed(seed, it));
            assert(candidate_defined(seed, it));
        }
        let correct = score_candidate::<PRUNE_CHECK_START>(&mut state, best_score);
        let ghost before = best_score;
        if correct > best_score {
            best_score = correct;
            best_index = it;
        }
        proof {
            assert(candidate_score(seed, it) <= before ==> best_score == before);
            assert forall|i: u64| lo <= i < it + 1 implies #[trigger] candidate_score(seed, i)
                <= best_score by {
                if i < it {
                    assert(candidate_score(seed, i) <= before);
                }
            }
        }
        if it + 1 != hi {
            seed_cursor.advance();
            proof {
                lemma_candidate_seed_next(seed, it);
            }
        }
        it = it + 1;
    }
    let best_arr = materialize_arr(seed, best_index);
    RangeResult { best_score, best_arr, best_index }
}

/// Searches candidates `lo..hi` of `seed` with the default tuning.
pub fn run_range(seed: u64, lo: u64, hi: u64) -> (r: RangeResult)
    requires
        range_defined(seed, lo, hi),
    ensures
        is_range_result(seed, lo, hi, r),
{
    run_range_with_tuning(seed, lo, hi, KernelTuning::default())
}

/// Searches candidates `lo..hi` of `seed` with prune checks starting at
/// `tuning.prune_check_start` (capped at 24; 0 means 24). The tuning changes only how
/// early hopeless candidates are cut off, never the result.
pub fn run_range_with_tuning(seed: u64, lo: u64, hi: u64, tuning: KernelTuning) -> (r: RangeResult)
    requires
        range_defined(seed, lo, hi),
    ensures
        is_range_result(seed, lo, hi, r),
{
    match tuning.prune_check_start.min(24) {
        1 => run_range_impl::<1>(seed, lo, hi),
        2 => run_range_impl::<2>(seed, lo, hi),
        3 => run_range_impl::<3>(seed, lo, hi),
        4 => run_range_impl::<4>(seed, lo, hi),
        5 => run_range_impl::<5>(seed, lo, hi),
        6 => run_range_impl::<6>(seed, lo, hi),
        7 => run_range_impl::<7>(seed, lo, hi),
        8 => run_range_impl::<8>(seed, lo, hi),
        9 => run_range_impl::<9>(seed, lo, hi),
        10 => run_range_impl::<10>(seed, lo, hi),
        11 => run_range_impl::<11>(seed, lo, hi),
        12 => run_range_impl::<12>(seed, lo, hi),
        13 => run_range_impl::<13>(seed, lo, hi),
        14 => run_range_impl::<14>(seed, lo, hi),
        15 => run_range_impl::<15>(seed, lo, hi),
        16 => run_range_impl::<16>(seed, lo, hi),
        17 => run_range_impl::<17>(seed, lo, hi),
        18 => run_range_impl::<18>(seed, lo, hi),
        19 => run_range_impl::<19>(seed, lo, hi),
        20 => run_range_impl::<20>(seed, lo, hi),
        21 => run_range_impl::<21>(seed, lo, hi),
        22 => run_range_impl::<22>(seed, lo, hi),
        23 => run_range_impl::<23>(seed, lo, hi),
        _ => run_range_impl::<24>(seed, lo, hi),
    }
}

} // verus!
