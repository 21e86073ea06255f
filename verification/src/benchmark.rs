//! How a lease of candidates is split among workers, and how their partial results are
//! merged.
use vstd::prelude::*;

use crate::kernel::{candidate_score, is_range_result, RangeResult};

verus! {

/// The benchmark's parameters: which candidates to search, on how many threads, and how
/// many rounds to run.
#[derive(Clone, Copy, Debug)]
pub struct BenchmarkConfig {
    pub seed: u64,
    pub count: u64,
    pub threads: usize,
    pub warmup_rounds: usize,
    pub measure_rounds: usize,
}

/// Where the share of worker `idx` of `workers` begins in a lease of `count` candidates.
pub open spec fn segment_start(idx: int, count: int, workers: int) -> int {
    (idx * count) / workers
}

/// The share of worker `idx` among `workers` in a lease of `count` candidates: from
/// `idx * count / workers` up to `(idx + 1) * count / workers`.
pub fn segment_bounds(idx: usize, count: u64, workers: usize) -> (r: (u64, u64))
    requires
        workers > 0,
        idx < workers,
    ensures
        r.0 == segment_start(idx as int, count as int, workers as int),
        r.1 == segment_start(idx + 1, count as int, workers as int),
{
    proof {
        lemma_segment_start_bounds(idx as int, count as int, workers as int);
        lemma_segment_start_bounds(idx + 1, count as int, workers as int);
        assert((idx as u128) * (count as u128) < 0x1_0000_0000_0000_0000_0000_0000_0000_0000)
            by (nonlinear_arith)
            requires
                idx < 0x1_0000_0000_0000_0000,
                count < 0x1_0000_0000_0000_0000,
        ;
        assert(((idx + 1) as u128) * (count as u128)
            < 0x1_0000_0000_0000_0000_0000_0000_0000_0000) by (nonlinear_arith)
            requires
                idx + 1 <= 0x1_0000_0000_0000_0000,
                count < 0x1_0000_0000_0000_0000,
        ;
    }
    let lo = ((idx as u128 * count as u128) / workers as u128) as u64;
    let hi = (((idx + 1) as u128 * count as u128) / workers as u128) as u64;
    (lo, hi)
}

proof fn lemma_segment_start_bounds(idx: int, count: int, workers: int)
    requires
        0 <= idx <= workers,
        workers > 0,
        count >= 0,
    ensures
        0 <= segment_start(idx, count, workers) <= count,
{
    assert(0 <= idx * count <= workers * count) by (nonlinear_arith)
        requires
            0 <= idx <= workers,
            count >= 0,
    ;
    vstd::arithmetic::div_mod::lemma_div_is_ordered(idx * count, workers * count, workers);
    vstd::arithmetic::div_mod::lemma_div_pos_is_pos(idx * count, workers);
    assert((workers * count) / workers == count) by {
        vstd::arithmetic::div_mod::lemma_div_by_multiple(count, workers);
        assert(workers * count == count * workers) by (nonlinear_arith);
    }
}

/// The shares of the workers tile the lease: the first starts at 0, the last ends at
/// `count`, each ends where the next begins, and none runs backwards.
pub proof fn law_segments_tile_lease(count: int, workers: int, i: int, j: int)
    requires
        workers > 0,
        count >= 0,
        0 <= i <= j <= workers,
    ensures
        segment_start(0, count, workers) == 0,
        segment_start(workers, count, workers) == count,
        segment_start(i, count, workers) <= segment_start(j, count, workers),
{
    lemma_segment_start_bounds(workers, count, workers);
    assert(workers * count == count * workers) by (nonlinear_arith);
    vstd::arithmetic::div_mod::lemma_div_by_multiple(count, workers);
    assert(i * count <= j * count) by (nonlinear_arith)
        requires
            i <= j,
            count >= 0,
    ;
    vstd::arithmetic::div_mod::lemma_div_is_ordered(i * count, j * count, workers);
}

/// The index of the partial result with the highest score, the first one on ties.
pub fn best_partial(partials: &Vec<RangeResult>) -> (r: usize)
    requires
        partials.len() > 0,
    ensures
        r < partials.len(),
        forall|j: int| 0 <= j < partials.len() ==> #[trigger] partials[j].best_score
            <= partials[r as int].best_score,
        forall|j: int| 0 <= j < r ==> #[trigger] partials[j].best_score
            < partials[r as int].best_score,
{
    let mut best: usize = 0;
    let mut i: usize = 1;
    while i < partials.len()
        invariant
            1 <= i <= partials.len(),
            best < i,
            forall|j: int| 0 <= j < i ==> #[trigger] partials[j].best_score
                <= partials[best as int].best_score,
            forall|j: int| 0 <= j < best ==> #[trigger] partials[j].best_score
                < partials[best as int].best_score,
        decreases partials.len() - i,
    {
        if partials[i].best_score > partials[best].best_score {
            best = i;
        }
        i = i + 1;
    }
    best
}

/// Some range `j` of consecutive ranges with the given bounds holds `i`.
proof fn lemma_find_range(bounds: Seq<u64>, i: u64) -> (j: int)
    requires
        bounds.len() >= 2,
        forall|k: int| 0 <= k < bounds.len() - 1 ==> #[trigger] bounds[k] <= bounds[k + 1],
        bounds[0] <= i < bounds.last(),
    ensures
        0 <= j < bounds.len() - 1,
        bounds[j] <= i < bounds[j + 1],
    decreases bounds.len(),
{
    if i < bounds[1] {
        0
    } else {
        let rest = bounds.drop_first();
        assert forall|k: int| 0 <= k < rest.len() - 1 implies #[trigger] rest[k] <= rest[k + 1] by {
            assert(rest[k] == bounds[k + 1]);
            assert(rest[k + 1] == bounds[k + 2]);
        }
        let j = lemma_find_range(rest, i);
        j + 1
    }
}

/// The ranges are consecutive and increasing: range `k` ends where range `k + 1` starts.
proof fn lemma_bounds_ordered(bounds: Seq<u64>, a: int, b: int)
    requires
        forall|k: int| 0 <= k < bounds.len() - 1 ==> #[trigger] bounds[k] <= bounds[k + 1],
        0 <= a <= b < bounds.len(),
    ensures
        bounds[a] <= bounds[b],
    decreases b - a,
{
    if a < b {
        lemma_bounds_ordered(bounds, a + 1, b);
    }
}

/// Searching consecutive ranges one by one and keeping the first partial result with the
/// highest score gives the search result of the whole range, provided the kept range is not
/// empty (an empty range reports the identity arrangement at its start, which is kept when
/// it comes first and no candidate scores above zero).
pub proof fn law_best_partial_of_consecutive_ranges(
    seed: u64,
    bounds: Seq<u64>,
    parts: Seq<RangeResult>,
    r: int,
)
    requires
        parts.len() >= 1,
        bounds.len() == parts.len() + 1,
        forall|k: int| 0 <= k < parts.len() ==> #[trigger] bounds[k] <= bounds[k + 1],
        forall|k: int|
            0 <= k < parts.len() ==> is_range_result(seed, bounds[k], bounds[k + 1], #[trigger] parts[k]),
        0 <= r < parts.len(),
        bounds[r] < bounds[r + 1],
        forall|k: int| 0 <= k < parts.len() ==> #[trigger] parts[k].best_score <= parts[r].best_score,
        forall|k: int| 0 <= k < r ==> #[trigger] parts[k].best_score < parts[r].best_score,
    ensures
        is_range_result(seed, bounds[0], bounds.last(), parts[r]),
{
    let best = parts[r];
    assert(is_range_result(seed, bounds[r], bounds[r + 1], best));
    lemma_bounds_ordered(bounds, 0, r);
    lemma_bounds_ordered(bounds, r + 1, bounds.len() - 1);
    assert forall|i: u64| bounds[0] <= i < bounds.last() implies #[trigger] candidate_score(seed, i)
        <= best.best_score by {
        let j = lemma_find_range(bounds, i);
        assert(is_range_result(seed, bounds[j], bounds[j + 1], parts[j]));
        assert(parts[j].best_score <= best.best_score);
    }
    assert forall|i: u64| bounds[0] <= i < best.best_index implies #[trigger] candidate_score(
        seed,
        i,
    ) < best.best_score by {
        let j = lemma_find_range(bounds, i);
        assert(is_range_result(seed, bounds[j], bounds[j + 1], parts[j]));
        if j < r {
            assert(parts[j].best_score < best.best_score);
        } else if j > r {
            lemma_bounds_ordered(bounds, r + 1, j);
        }
    }
}

} // verus!
