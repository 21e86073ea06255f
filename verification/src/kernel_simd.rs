//! The eight-lane kernel: eight candidates advance in lockstep, each lane drawing plain
//! remainders (no rejection sampling) through the multiply-and-shift remainder, and every
//! lane that looks better than the best so far is re-scored exactly.
use vstd::prelude::*;

use crate::kernel::{
    bit_set, candidate_defined, candidate_score, fixed_in, fixed_points, initial_arr,
    is_first_best, is_range_result, lemma_fixed_in_frame, lemma_initial_arr, lemma_tracks_start,
    lemma_tracks_step, materialize_arr, materialized, plain_draws, range_defined, shuffled,
    step_threshold, swap_seq, tracks, count_fixed_points, exact_defined, exact_draws,
    RangeResult, INITIAL_ARR, SEED_STRIDE,
};
use crate::libdivide::{fast_mod, magic_m, magic_sh1, magic_sh2, magic_spec, MagicParams};
use crate::rng::{
    candidate_seed, can_draw, draw_state, first_accept, rejections, xnext,
    xo_iter, xo_out, xo_output_at, xo_step, xseed, xseed_state, XoState,
};

verus! {

/// Eight xoshiro128 streams, word `k` of lane `i` held in `s<k>[i]`.
#[derive(Copy, Clone)]
pub struct Xoshiro8 {
    pub s0: [u32; 8],
    pub s1: [u32; 8],
    pub s2: [u32; 8],
    pub s3: [u32; 8],
}

impl Xoshiro8 {
    /// The state of lane `i`.
    pub open spec fn lane(self, i: int) -> XoState {
        (self.s0[i], self.s1[i], self.s2[i], self.s3[i])
    }
}

/// The score that the lanes compute for a stream: the fixed points of the shuffle driven by
/// plain remainders.
pub open spec fn approx_score(s: XoState) -> nat {
    fixed_points(shuffled(initial_arr(), plain_draws(s, 24), 24))
}

/// The lane score of candidate `index` of `seed`.
pub open spec fn candidate_approx_score(seed: u64, index: u64) -> nat {
    approx_score(xseed_state(candidate_seed(seed, index)))
}

/// Where the scalar tail of a search of `lo..hi` starts: after the last full block of eight.
pub open spec fn simd_tail_start(lo: u64, hi: u64) -> int {
    lo + (hi - lo) / 8 * 8
}

/// The lane scan cannot overlook candidate `i`: it lies in the scalar tail, or its lane
/// score does not fall below its true score.
pub open spec fn screened_faithfully(seed: u64, lo: u64, hi: u64, i: u64) -> bool {
    i >= simd_tail_start(lo, hi) || candidate_approx_score(seed, i) >= candidate_score(seed, i)
}

/// Every draw of the steps `idx, ..., 1` accepts the first output it sees.
pub open spec fn no_rejection(s: XoState, idx: nat) -> bool
    decreases idx,
{
    if idx == 0 {
        true
    } else {
        xo_out(s) >= step_threshold(idx) && no_rejection(xo_step(s), (idx - 1) as nat)
    }
}

/// Where no draw rejects an output, the rejection-sampled draws are the plain remainders,
/// so the lane score of such a candidate is its true score.
pub proof fn lemma_no_rejection_draws(s: XoState, idx: nat)
    requires
        no_rejection(s, idx),
        idx < 32,
    ensures
        exact_defined(s, idx),
        exact_draws(s, idx) == plain_draws(s, idx),
    decreases idx,
{
    if idx > 0 {
        let t = step_threshold(idx);
        assert(xo_output_at(s, 0) == xo_out(s));
        assert(first_accept(s, t, 0));
        assert(can_draw(s, t));
        let k = rejections(s, t);
        assert(first_accept(s, t, k));
        if k > 0 {
            assert(xo_output_at(s, 0) < t);
        }
        assert(k == 0);
        assert(xo_iter(s, 1) == xo_step(xo_iter(s, 0)));
        assert(draw_state(s, t) == xo_step(s));
        lemma_no_rejection_draws(xo_step(s), (idx - 1) as nat);
        assert(exact_draws(s, idx) =~= plain_draws(s, idx));
    }
}

/// A candidate none of whose draws rejects an output has a lane score equal to its true
/// score, so the lane scan cannot overlook it.
pub proof fn law_no_rejection_screens_faithfully(seed: u64, lo: u64, hi: u64, i: u64)
    requires
        no_rejection(xseed_state(candidate_seed(seed, i)), 24),
    ensures
        candidate_approx_score(seed, i) == candidate_score(seed, i),
        screened_faithfully(seed, lo, hi, i),
{
    lemma_no_rejection_draws(xseed_state(candidate_seed(seed, i)), 24);
}

/// Where no draw of any candidate in the full blocks rejects an output, the lane search
/// screens every candidate faithfully, so its result is that of the scalar search.
pub proof fn law_no_rejection_gives_scalar_result(seed: u64, lo: u64, hi: u64)
    requires
        forall|i: u64|
            lo <= i && i < simd_tail_start(lo, hi) ==> no_rejection(
                #[trigger] xseed_state(candidate_seed(seed, i)),
                24,
            ),
    ensures
        forall|i: u64| lo <= i < hi ==> #[trigger] screened_faithfully(seed, lo, hi, i),
{
    assert forall|i: u64| lo <= i < hi implies #[trigger] screened_faithfully(seed, lo, hi, i) by {
        if i < simd_tail_start(lo, hi) {
            law_no_rejection_screens_faithfully(seed, lo, hi, i);
        }
    }
}

/// Lane by lane, the next output of each stream; every stream advances one step.
pub fn xnext8(rng: &mut Xoshiro8) -> (r: [u32; 8])
    ensures
        forall|i: int| 0 <= i < 8 ==> #[trigger] r[i] == xo_out(old(rng).lane(i)),
        forall|i: int| 0 <= i < 8 ==> #[trigger] final(rng).lane(i) == xo_step(old(rng).lane(i)),
{
    let mut out = [0u32; 8];
    let mut s0 = rng.s0;
    let mut s1 = rng.s1;
    let mut s2 = rng.s2;
    let mut s3 = rng.s3;
    let ghost r0 = *rng;
    let mut i: usize = 0;
    while i < 8
        invariant
            i <= 8,
            r0 == *old(rng),
            forall|j: int| 0 <= j < i ==> #[trigger] out[j] == xo_out(r0.lane(j)),
            forall|j: int|
                0 <= j < i ==> (#[trigger] s0[j], s1[j], s2[j], s3[j]) == xo_step(r0.lane(j)),
            forall|j: int| i <= j < 8 ==> (#[trigger] s0[j], s1[j], s2[j], s3[j]) == r0.lane(j),
        decreases 8 - i,
    {
        assert((s0[i as int], s1[i as int], s2[i as int], s3[i as int]) == r0.lane(i as int));
        let mut s = [s0[i], s1[i], s2[i], s3[i]];
        let v = xnext(&mut s);
        out[i] = v;
        s0[i] = s[0];
        s1[i] = s[1];
        s2[i] = s[2];
        s3[i] = s[3];
        i = i + 1;
    }
    *rng = Xoshiro8 { s0, s1, s2, s3 };
    proof {
        assert forall|i: int| 0 <= i < 8 implies #[trigger] rng.lane(i) == xo_step(r0.lane(i)) by {
            assert((s0[i], s1[i], s2[i], s3[i]) == xo_step(r0.lane(i)));
        }
    }
    out
}

/// The remainders of eight words by the divisor `D`, each lane computed with the
/// multiply-and-shift quotient, as the eight lanes of one AVX2 register would be.
pub fn fast_mod_avx2<const D: u32>(a: [u32; 8]) -> (r: [u32; 8])
    requires
        1 <= D <= 0x8000_0000,
    ensures
        forall|i: int| 0 <= i < 8 ==> #[trigger] r[i] == a[i] % D,
{
    let m = magic_m::<D>() as u32;
    let sh1 = magic_sh1::<D>() as u32;
    let sh2 = magic_sh2::<D>() as u32;
    proof {
        let p = magic_spec(D);
        let pm = p.m;
        let p1 = p.sh1;
        let p2 = p.sh2;
        assert((pm as i32) as u32 == pm) by (bit_vector);
        assert((p1 as i32) as u32 == p1) by (bit_vector);
        assert((p2 as i32) as u32 == p2) by (bit_vector);
    }
    let params = MagicParams { m, sh1, sh2 };
    let mut out = [0u32; 8];
    let mut i: usize = 0;
    while i < 8
        invariant
            i <= 8,
            1 <= D <= 0x8000_0000,
            params == magic_spec(D),
            forall|j: int| 0 <= j < i ==> #[trigger] out[j] == a[j] % D,
        decreases 8 - i,
    {
        out[i] = fast_mod(a[i], D, params);
        i = i + 1;
    }
    out
}

/// The next output of every lane reduced below `MAX`, without rejection sampling: the
/// outputs a rejection draw would refuse are rare enough to ignore here, since every
/// candidate that looks good is re-scored exactly.
fn xint8<const MAX: u32>(rng: &mut Xoshiro8) -> (r: [u32; 8])
    requires
        1 <= MAX <= 0x8000_0000,
    ensures
        forall|i: int| 0 <= i < 8 ==> #[trigger] r[i] == xo_out(old(rng).lane(i)) % MAX,
        forall|i: int| 0 <= i < 8 ==> #[trigger] final(rng).lane(i) == xo_step(old(rng).lane(i)),
{
    fast_mod_avx2::<MAX>(xnext8(rng))
}

/// Seeds the eight lanes with candidates `base_index .. base_index + 8` of `seed`.
fn init_rng8(seed: u64, base_index: u64) -> (rng: Xoshiro8)
    requires
        base_index + 7 <= u64::MAX,
    ensures
        forall|i: int| 0 <= i < 8 ==> #[trigger] rng.lane(i) == xseed_state(
            candidate_seed(seed, (base_index + i) as u64),
        ),
{
    let mut s0 = [0u32; 8];
    let mut s1 = [0u32; 8];
    let mut s2 = [0u32; 8];
    let mut s3 = [0u32; 8];
    let mut i: usize = 0;
    while i < 8
        invariant
            i <= 8,
            base_index + 7 <= u64::MAX,
            forall|j: int| 0 <= j < i ==> (#[trigger] s0[j], s1[j], s2[j], s3[j]) == xseed_state(
                candidate_seed(seed, (base_index + j) as u64),
            ),
        decreases 8 - i,
    {
        let index = base_index + i as u64;
        proof {
            crate::rng::lemma_wrapping_add_u64(seed, crate::rng::wrap64(index * SEED_STRIDE));
            crate::rng::lemma_wrap64_add(index * SEED_STRIDE, seed as int);
        }
        let seed_i = seed.wrapping_add(index.wrapping_mul(SEED_STRIDE));
        let s = xseed(seed_i);
        s0[i] = s[0];
        s1[i] = s[1];
        s2[i] = s[2];
        s3[i] = s[3];
        i = i + 1;
    }
    Xoshiro8 { s0, s1, s2, s3 }
}

/// The lane scorer's bookkeeping at Fisher-Yates position `level`: each lane's bitmask
/// tracks its shuffle in progress, its count holds the fixed points of the settled
/// positions, its stream has made `24 - level` steps from `init`, and finishing the shuffle
/// with plain draws leads to `fins`.
pub open spec fn lanes_track(
    arrs: Seq<Seq<u8>>,
    fins: Seq<Seq<u8>>,
    init: Xoshiro8,
    rng: Xoshiro8,
    foreign: [u32; 8],
    fixed: [u32; 8],
    level: int,
) -> bool {
    &&& arrs.len() == 8
    &&& fins.len() == 8
    &&& 0 <= level <= 24
    &&& forall|i: int|
        0 <= i < 8 ==> {
            &&& tracks(#[trigger] arrs[i], foreign[i], level)
            &&& fixed[i] as nat == fixed_in(arrs[i], level + 1, 25)
            &&& fixed[i] <= 24 - level
            &&& rng.lane(i) == xo_iter(init.lane(i), (24 - level) as nat)
            &&& fins[i] == shuffled(arrs[i], plain_draws(rng.lane(i), level as nat), level as nat)
        }
}

/// Lane `j` has made the step at position `idx` with its draw.
pub open spec fn lane_stepped(
    arrs: Seq<Seq<u8>>,
    arrs2: Seq<Seq<u8>>,
    foreign0: [u32; 8],
    foreign: [u32; 8],
    fixed0: [u32; 8],
    fixed: [u32; 8],
    draw: [u32; 8],
    idx: u32,
    j: int,
) -> bool {
    &&& arrs2[j] == swap_seq(arrs[j], idx as int, draw[j] as int)
    &&& foreign[j] == if draw[j] == idx {
        foreign0[j]
    } else {
        foreign0[j] | (1u32 << draw[j])
    }
    &&& fixed[j] == if draw[j] == idx && !bit_set(foreign0[j], idx as int) {
        fixed0[j] + 1
    } else {
        fixed0[j] as int
    }
}

/// One Fisher-Yates step at position `MAX - 1` in every lane.
fn step8<const MAX: u32>(
    rng: &mut Xoshiro8,
    foreign: &mut [u32; 8],
    fixed: &mut [u32; 8],
    Ghost(arrs): Ghost<Seq<Seq<u8>>>,
    Ghost(fins): Ghost<Seq<Seq<u8>>>,
    Ghost(init): Ghost<Xoshiro8>,
) -> (g: Ghost<Seq<Seq<u8>>>)
    requires
        2 <= MAX <= 25,
        lanes_track(arrs, fins, init, *old(rng), *old(foreign), *old(fixed), MAX - 1),
    ensures
        lanes_track(g@, fins, init, *final(rng), *final(foreign), *final(fixed), MAX - 2),
{
    let ghost rng0 = *rng;
    let draw = xint8::<MAX>(rng);
    let idx: u32 = MAX - 1;
    let idx_bit = 1u32 << idx;
    let ghost foreign0 = *foreign;
    let ghost fixed0 = *fixed;
    let ghost mut arrs2 = arrs;
    let mut i: usize = 0;
    while i < 8
        invariant
            i <= 8,
            idx == MAX - 1,
            2 <= MAX <= 25,
            idx_bit == 1u32 << idx,
            arrs2.len() == 8,
            lanes_track(arrs, fins, init, rng0, foreign0, fixed0, MAX - 1),
            forall|j: int| 0 <= j < 8 ==> #[trigger] draw[j] == xo_out(rng0.lane(j)) % MAX,
            forall|j: int| 0 <= j < 8 ==> #[trigger] rng.lane(j) == xo_step(rng0.lane(j)),
            forall|j: int| 0 <= j < i ==> lane_stepped(
                arrs,
                arrs2,
                foreign0,
                *foreign,
                fixed0,
                *fixed,
                draw,
                idx,
                j,
            ),
            forall|j: int|
                i <= j < 8 ==> #[trigger] foreign[j] == foreign0[j] && fixed[j] == fixed0[j],
        decreases 8 - i,
    {
        let ghost f_before = *foreign;
        let ghost x_before = *fixed;
        let ghost a_before = arrs2;
        proof {
            assert(tracks(arrs[i as int], foreign0[i as int], idx as int));
            assert(foreign[i as int] == foreign0[i as int] && fixed[i as int] == fixed0[i as int]);
            assert forall|j: int| i <= j < 8 implies #[trigger] f_before[j] == foreign0[j]
                && x_before[j] == fixed0[j] by {
                assert(foreign[j] == foreign0[j] && fixed[j] == fixed0[j]);
            }
        }
        if draw[i] == idx {
            if foreign[i] & idx_bit == 0 {
                fixed[i] = fixed[i] + 1;
            }
        } else {
            foreign[i] = foreign[i] | (1u32 << draw[i]);
        }
        proof {
            arrs2 = arrs2.update(i as int, swap_seq(arrs[i as int], idx as int, draw[i as int] as int));
            assert forall|j: int| 0 <= j < i + 1 implies lane_stepped(
                arrs,
                arrs2,
                foreign0,
                *foreign,
                fixed0,
                *fixed,
                draw,
                idx,
                j,
            ) by {
                if j < i {
                    assert(lane_stepped(arrs, a_before, foreign0, f_before, fixed0, x_before, draw, idx, j));
                    assert(foreign[j] == f_before[j]);
                    assert(fixed[j] == x_before[j]);
                    assert(arrs2[j] == a_before[j]);
                }
            }
            assert forall|j: int| i + 1 <= j < 8 implies #[trigger] foreign[j] == foreign0[j]
                && fixed[j] == fixed0[j] by {
                assert(foreign[j] == f_before[j]);
                assert(fixed[j] == x_before[j]);
                assert(f_before[j] == foreign0[j] && x_before[j] == fixed0[j]);
            }
        }
        i = i + 1;
    }
    proof {
        assert forall|j: int| 0 <= j < 8 implies {
            &&& tracks(#[trigger] arrs2[j], foreign[j], MAX - 2)
            &&& fixed[j] as nat == fixed_in(arrs2[j], MAX - 1, 25)
            &&& fixed[j] <= 24 - (MAX - 2)
            &&& rng.lane(j) == xo_iter(init.lane(j), (24 - (MAX - 2)) as nat)
            &&& fins[j] == shuffled(
                arrs2[j],
                plain_draws(rng.lane(j), (MAX - 2) as nat),
                (MAX - 2) as nat,
            )
        } by {
            assert(lane_stepped(arrs, arrs2, foreign0, *foreign, fixed0, *fixed, draw, idx, j));
            let a = arrs[j];
            let d = draw[j] as int;
            assert(tracks(a, foreign0[j], idx as int));
            assert(0 <= d <= idx);
            lemma_tracks_step(a, foreign0[j], idx as int, d);
            lemma_fixed_in_frame(a, arrs2[j], idx + 1, 25);
            assert(plain_draws(rng0.lane(j), idx as nat)[0] == d);
            assert(plain_draws(rng0.lane(j), idx as nat).drop_first() =~= plain_draws(
                rng.lane(j),
                (idx - 1) as nat,
            ));
            assert(xo_iter(init.lane(j), (24 - (MAX - 2)) as nat) == xo_step(
                xo_iter(init.lane(j), (24 - (MAX - 1)) as nat),
            ));
        }
    }
    Ghost(arrs2)
}

/// Scores all eight lanes with plain draws; the lanes' streams advance 24 steps.
fn score8(rng: &mut Xoshiro8) -> (r: [u32; 8])
    ensures
        forall|i: int| 0 <= i < 8 ==> #[trigger] r[i] as nat == approx_score(old(rng).lane(i)),
        forall|i: int| 0 <= i < 8 ==> #[trigger] final(rng).lane(i) == xo_iter(old(rng).lane(i), 24),
{
    let mut foreign_hits = [0u32; 8];
    let mut fixed = [0u32; 8];
    let ghost init = *rng;
    let ghost fins = Seq::new(
        8,
        |i: int| shuffled(initial_arr(), plain_draws(init.lane(i), 24), 24),
    );
    let ghost arrs0 = Seq::new(8, |i: int| initial_arr());
    proof {
        lemma_tracks_start();
        assert forall|i: int| 0 <= i < 8 implies fixed_in(#[trigger] arrs0[i], 25, 25) == 0 by {}
        assert forall|i: int| 0 <= i < 8 implies #[trigger] init.lane(i) == xo_iter(init.lane(i), 0)
            by {}
        assert(lanes_track(arrs0, fins, init, *rng, foreign_hits, fixed, 24));
    }
    let g = step8::<25>(rng, &mut foreign_hits, &mut fixed, Ghost(arrs0), Ghost(fins), Ghost(init));
    let g = step8::<24>(rng, &mut foreign_hits, &mut fixed, g, Ghost(fins), Ghost(init));
    let g = step8::<23>(rng, &mut foreign_hits, &mut fixed, g, Ghost(fins), Ghost(init));
    let g = step8::<22>(rng, &mut foreign_hits, &mut fixed, g, Ghost(fins), Ghost(init));
    let g = step8::<21>(rng, &mut foreign_hits, &mut fixed, g, Ghost(fins), Ghost(init));
    let g = step8::<20>(rng, &mut foreign_hits, &mut fixed, g, Ghost(fins), Ghost(init));
    let g = step8::<19>(rng, &mut foreign_hits, &mut fixed, g, Ghost(fins), Ghost(init));
    let g = step8::<18>(rng, &mut foreign_hits, &mut fixed, g, Ghost(fins), Ghost(init));
    let g = step8::<17>(rng, &mut foreign_hits, &mut fixed, g, Ghost(fins), Ghost(init));
    let g = step8::<16>(rng, &mut foreign_hits, &mut fixed, g, Ghost(fins), Ghost(init));
    let g = step8::<15>(rng, &mut foreign_hits, &mut fixed, g, Ghost(fins), Ghost(init));
    let g = step8::<14>(rng, &mut foreign_hits, &mut fixed, g, Ghost(fins), Ghost(init));
    let g = step8::<13>(rng, &mut foreign_hits, &mut fixed, g, Ghost(fins), Ghost(init));
    let g = step8::<12>(rng, &mut foreign_hits, &mut fixed, g, Ghost(fins), Ghost(init));
    let g = step8::<11>(rng, &mut foreign_hits, &mut fixed, g, Ghost(fins), Ghost(init));
    let g = step8::<10>(rng, &mut foreign_hits, &mut fixed, g, Ghost(fins), Ghost(init));
    let g = step8::<9>(rng, &mut foreign_hits, &mut fixed, g, Ghost(fins), Ghost(init));
    let g = step8::<8>(rng, &mut foreign_hits, &mut fixed, g, Ghost(fins), Ghost(init));
    let g = step8::<7>(rng, &mut foreign_hits, &mut fixed, g, Ghost(fins), Ghost(init));
    let g = step8::<6>(rng, &mut foreign_hits, &mut fixed, g, Ghost(fins), Ghost(init));
    let g = step8::<5>(rng, &mut foreign_hits, &mut fixed, g, Ghost(fins), Ghost(init));
    let g = step8::<4>(rng, &mut foreign_hits, &mut fixed, g, Ghost(fins), Ghost(init));
    let g = step8::<3>(rng, &mut foreign_hits, &mut fixed, g, Ghost(fins), Ghost(init));
    let g = step8::<2>(rng, &mut foreign_hits, &mut fixed, g, Ghost(fins), Ghost(init));
    let ghost arrs = g@;
    let mut out = [0u32; 8];
    let mut i: usize = 0;
    while i < 8
        invariant
            i <= 8,
            lanes_track(arrs, fins, init, *rng, foreign_hits, fixed, 0),
            init == *old(rng),
            fins == Seq::new(
                8,
                |i: int| shuffled(initial_arr(), plain_draws(init.lane(i), 24), 24),
            ),
            forall|j: int| 0 <= j < i ==> #[trigger] out[j] as nat == approx_score(init.lane(j)),
        decreases 8 - i,
    {
        proof {
            let a = arrs[i as int];
            assert(tracks(a, foreign_hits[i as int], 0));
            assert(fins[i as int] == a);
            if bit_set(foreign_hits[i as int], 0) {
                assert(a[0] as int != 1);
            }
            let h = foreign_hits[i as int];
            assert(1u32 << 0u32 == 1u32) by (bit_vector);
            assert(fixed_points(a) == fixed_in(a, 0, 25));
        }
        out[i] = fixed[i] + if foreign_hits[i] & 1 == 0 {
            1
        } else {
            0
        };
        i = i + 1;
    }
    proof {
        assert forall|i: int| 0 <= i < 8 implies #[trigger] rng.lane(i) == xo_iter(init.lane(i), 24)
            by {
            assert(tracks(arrs[i], foreign_hits[i], 0));
        }
    }
    out
}

/// One step of the scan.
proof fn lemma_simd_scan_unfold(seed: u64, lo: u64, hi: u64, k: u64, best: u8, idx: u64)
    requires
        k < hi,
    ensures
        simd_scan(seed, lo, hi, k as int, best, idx) == simd_scan(
            seed,
            lo,
            hi,
            k + 1,
            simd_step(seed, lo, hi, k, best, idx).0,
            simd_step(seed, lo, hi, k, best, idx).1,
        ),
{
    reveal(simd_scan);
}

/// How the scan takes in candidate `k`: a candidate of a full block whose lane score does
/// not beat `best` is passed over; any other replaces the best when its true score is
/// strictly higher.
pub open spec fn simd_step(seed: u64, lo: u64, hi: u64, k: u64, best: u8, idx: u64) -> (u8, u64) {
    if (k as int) < simd_tail_start(lo, hi) && candidate_approx_score(seed, k) <= best {
        (best, idx)
    } else if candidate_score(seed, k) > best {
        (candidate_score(seed, k) as u8, k)
    } else {
        (best, idx)
    }
}

/// The best score and index after the scan takes in candidates `k..hi` in order, starting
/// from `best` and `idx`.
#[verifier::opaque]
pub open spec fn simd_scan(seed: u64, lo: u64, hi: u64, k: int, best: u8, idx: u64) -> (u8, u64)
    decreases hi - k,
{
    if k >= hi {
        (best, idx)
    } else {
        let next = simd_step(seed, lo, hi, k as u64, best, idx);
        simd_scan(seed, lo, hi, k + 1, next.0, next.1)
    }
}

/// The scan of candidates `lo..k` left `best` and `idx`: `idx` is a candidate before `k`
/// with score `best` (or still `lo` with `best` zero), every faithfully screened candidate
/// before `k` scores at most `best`, and if all candidates are screened faithfully, `idx`
/// is the first best of `lo..k`.
#[verifier::opaque]
pub open spec fn scan_ok(seed: u64, lo: u64, hi: u64, k: int, best: u8, idx: u64) -> bool {
    &&& lo <= idx < hi
    &&& lo <= k <= hi
    &&& idx < k || (idx == lo && best == 0)
    &&& best as nat == candidate_score(seed, idx) || (best == 0 && idx == lo)
    &&& forall|j: u64|
        lo <= j < k && #[trigger] screened_faithfully(seed, lo, hi, j) ==> candidate_score(seed, j)
            <= best
    &&& (forall|j: u64| lo <= j < hi ==> #[trigger] screened_faithfully(seed, lo, hi, j)) ==> ((k
        == lo && best == 0 && idx == lo) || (k > lo && is_first_best(
        seed,
        lo,
        k as u64,
        best as nat,
        idx,
    )))
}

/// Scoring candidate `k` exactly and keeping it if it beats `best` extends the scan.
proof fn lemma_scan_exact(
    seed: u64,
    lo: u64,
    hi: u64,
    k: u64,
    best: u8,
    idx: u64,
    best2: u8,
    idx2: u64,
)
    requires
        scan_ok(seed, lo, hi, k as int, best, idx),
        k < hi,
        candidate_score(seed, k) > best ==> best2 as nat == candidate_score(seed, k) && idx2 == k,
        candidate_score(seed, k) <= best ==> best2 == best && idx2 == idx,
    ensures
        scan_ok(seed, lo, hi, k + 1, best2, idx2),
{
    reveal(scan_ok);
    let all = forall|j: u64| lo <= j < hi ==> #[trigger] screened_faithfully(seed, lo, hi, j);
    assert forall|j: u64| lo <= j < k + 1 && #[trigger] screened_faithfully(seed, lo, hi, j)
        implies candidate_score(seed, j) <= best2 by {
        if j < k {
            assert(candidate_score(seed, j) <= best);
        }
    }
    if all {
        if candidate_score(seed, k) > best {
            assert forall|i: u64| lo <= i < k + 1 implies #[trigger] candidate_score(seed, i)
                <= best2 by {
                if i < k {
                    assert(screened_faithfully(seed, lo, hi, i));
                }
            }
            assert forall|i: u64| lo <= i < idx2 implies #[trigger] candidate_score(seed, i)
                < best2 by {
                assert(screened_faithfully(seed, lo, hi, i));
            }
        } else {
            if k == lo {
                assert forall|i: u64| lo <= i < k + 1 implies #[trigger] candidate_score(seed, i)
                    <= best2 by {}
            } else {
                assert(is_first_best(seed, lo, k, best as nat, idx));
                assert forall|i: u64| lo <= i < k + 1 implies #[trigger] candidate_score(seed, i)
                    <= best2 by {
                    if i < k {
                        assert(candidate_score(seed, i) <= best);
                    }
                }
            }
        }
        assert(is_first_best(seed, lo, (k + 1) as u64, best2 as nat, idx2));
    }
}

/// Passing over candidate `k` of a block, whose lane score does not beat `best`, extends
/// the scan.
proof fn lemma_scan_skip(seed: u64, lo: u64, hi: u64, k: u64, best: u8, idx: u64)
    requires
        scan_ok(seed, lo, hi, k as int, best, idx),
        k < simd_tail_start(lo, hi),
        k < hi,
        candidate_approx_score(seed, k) <= best,
    ensures
        scan_ok(seed, lo, hi, k + 1, best, idx),
{
    reveal(scan_ok);
    let all = forall|j: u64| lo <= j < hi ==> #[trigger] screened_faithfully(seed, lo, hi, j);
    assert forall|j: u64| lo <= j < k + 1 && #[trigger] screened_faithfully(seed, lo, hi, j)
        implies candidate_score(seed, j) <= best by {
        if j < k {
            assert(candidate_score(seed, j) <= best);
        }
    }
    if all {
        assert(screened_faithfully(seed, lo, hi, k));
        assert(candidate_score(seed, k) <= best);
        if k == lo {
            assert forall|i: u64| lo <= i < k + 1 implies #[trigger] candidate_score(seed, i)
                <= best by {}
        } else {
            assert(is_first_best(seed, lo, k, best as nat, idx));
            assert forall|i: u64| lo <= i < k + 1 implies #[trigger] candidate_score(seed, i)
                <= best by {
                if i < k {
                    assert(candidate_score(seed, i) <= best);
                }
            }
        }
        assert(is_first_best(seed, lo, (k + 1) as u64, best as nat, idx));
    }
}

/// A lane score is at most 25.
proof fn lemma_approx_score_bound(s: XoState)
    ensures
        approx_score(s) <= 25,
{
    crate::kernel::lemma_plain_draws_ok(s, 24);
    crate::kernel::lemma_shuffled_frame(initial_arr(), plain_draws(s, 24), 24);
    crate::kernel::lemma_fixed_points_bound(shuffled(initial_arr(), plain_draws(s, 24), 24));
}

/// Scores candidate `index` exactly and keeps it if it beats the best so far.
fn rescore(seed: u64, index: u64, best_score: u8, best_index: u64) -> (r: (u8, u64))
    requires
        candidate_defined(seed, index),
    ensures
        candidate_score(seed, index) > best_score ==> r.0 as nat == candidate_score(seed, index)
            && r.1 == index,
        candidate_score(seed, index) <= best_score ==> r.0 == best_score && r.1 == best_index,
{
    let arr = materialize_arr(seed, index);
    let score = count_fixed_points(&arr);
    if score > best_score {
        (score, index)
    } else {
        (best_score, best_index)
    }
}

/// Takes in candidate `index` of a full block whose lane score is `approx`.
fn consider_lane(seed: u64, lo: u64, hi: u64, index: u64, approx: u32, best: u8, idx: u64) -> (r: (
    u8,
    u64,
))
    requires
        scan_ok(seed, lo, hi, index as int, best, idx),
        (index as int) < simd_tail_start(lo, hi),
        index < hi,
        approx as nat == candidate_approx_score(seed, index),
        candidate_defined(seed, index),
    ensures
        r == simd_step(seed, lo, hi, index, best, idx),
        scan_ok(seed, lo, hi, index + 1, r.0, r.1),
{
    proof {
        lemma_approx_score_bound(xseed_state(candidate_seed(seed, index)));
        crate::kernel::lemma_exact_draws_ok(xseed_state(candidate_seed(seed, index)), 24);
        crate::kernel::lemma_shuffled_frame(
            initial_arr(),
            exact_draws(xseed_state(candidate_seed(seed, index)), 24),
            24,
        );
        crate::kernel::lemma_fixed_points_bound(materialized(seed, index));
    }
    if approx as u8 > best {
        let (b, x) = rescore(seed, index, best, idx);
        proof {
            lemma_scan_exact(seed, lo, hi, index, best, idx, b, x);
        }
        (b, x)
    } else {
        proof {
            lemma_scan_skip(seed, lo, hi, index, best, idx);
        }
        (best, idx)
    }
}

/// Takes in candidate `index` of the tail, scored exactly.
fn consider_exact(seed: u64, lo: u64, hi: u64, index: u64, best: u8, idx: u64) -> (r: (u8, u64))
    requires
        scan_ok(seed, lo, hi, index as int, best, idx),
        (index as int) >= simd_tail_start(lo, hi),
        index < hi,
        candidate_defined(seed, index),
    ensures
        r == simd_step(seed, lo, hi, index, best, idx),
        scan_ok(seed, lo, hi, index + 1, r.0, r.1),
{
    proof {
        crate::kernel::lemma_exact_draws_ok(xseed_state(candidate_seed(seed, index)), 24);
        crate::kernel::lemma_shuffled_frame(
            initial_arr(),
            exact_draws(xseed_state(candidate_seed(seed, index)), 24),
            24,
        );
        crate::kernel::lemma_fixed_points_bound(materialized(seed, index));
    }
    let (b, x) = rescore(seed, index, best, idx);
    proof {
        lemma_scan_exact(seed, lo, hi, index, best, idx, b, x);
    }
    (b, x)
}

/// Searches candidates `lo..hi` of `seed` eight at a time: a lane whose plain-draw score
/// beats the best so far is re-scored exactly, and the candidates after the last full
/// block are scored exactly one by one. A candidate whose lane score falls below its true
/// score (which takes a rejected draw) can be overlooked; where no candidate is overlooked
/// the result is that of the scalar search.
#[verifier::spinoff_prover]
#[verifier::rlimit(50)]
pub fn run_range_simd(seed: u64, lo: u64, hi: u64) -> (r: RangeResult)
    requires
        range_defined(seed, lo, hi),
        lo < hi ==> simd_tail_start(lo, hi) + 8 <= u64::MAX,
    ensures
        lo >= hi ==> is_range_result(seed, lo, hi, r),
        lo < hi ==> {
            &&& lo <= r.best_index < hi
            &&& r.best_arr@ == materialized(seed, r.best_index)
            &&& r.best_score as nat == candidate_score(seed, r.best_index) || (r.best_score == 0
                && r.best_index == lo)
            &&& forall|i: u64|
                lo <= i < hi && #[trigger] screened_faithfully(seed, lo, hi, i) ==> candidate_score(
                    seed,
                    i,
                ) <= r.best_score
            &&& (r.best_score, r.best_index) == simd_scan(seed, lo, hi, lo as int, 0, lo)
        },
        (forall|i: u64| lo <= i < hi ==> #[trigger] screened_faithfully(seed, lo, hi, i))
            ==> is_range_result(seed, lo, hi, r),
{
    if lo >= hi {
        proof {
            lemma_initial_arr();
        }
        return RangeResult { best_score: 0, best_arr: INITIAL_ARR, best_index: lo };
    }
    let mut best_score: u8 = 0;
    let mut best_index = lo;
    let mut i = lo;
    proof {
        reveal(scan_ok);
    }
    while i + 8 <= hi
        invariant
            lo <= i <= hi,
            lo < hi,
            (i - lo) % 8 == 0,
            i <= simd_tail_start(lo, hi),
            simd_tail_start(lo, hi) + 8 <= u64::MAX,
            range_defined(seed, lo, hi),
            scan_ok(seed, lo, hi, i as int, best_score, best_index),
            simd_scan(seed, lo, hi, lo as int, 0, lo) == simd_scan(
                seed,
                lo,
                hi,
                i as int,
                best_score,
                best_index,
            ),
        decreases hi - i,
    {
        let mut rng = init_rng8(seed, i);
        let scores = score8(&mut rng);
        let mut lane: usize = 0;
        while lane < 8
            invariant
                lo <= i,
                i + 8 <= hi,
                (i - lo) % 8 == 0,
                i + 8 <= simd_tail_start(lo, hi),
                lane <= 8,
                range_defined(seed, lo, hi),
                forall|j: int| 0 <= j < 8 ==> #[trigger] scores[j] as nat == approx_score(
                    xseed_state(candidate_seed(seed, (i + j) as u64)),
                ),
                scan_ok(seed, lo, hi, i + lane, best_score, best_index),
                simd_scan(seed, lo, hi, lo as int, 0, lo) == simd_scan(
                    seed,
                    lo,
                    hi,
                    i + lane,
                    best_score,
                    best_index,
                ),
            decreases 8 - lane,
        {
            let index = i + lane as u64;
            proof {
                assert(scores[lane as int] as nat == candidate_approx_score(seed, index));
                assert(candidate_defined(seed, index));
                lemma_simd_scan_unfold(seed, lo, hi, index, best_score, best_index);
            }
            let (b, x) = consider_lane(seed, lo, hi, index, scores[lane], best_score, best_index);
            best_score = b;
            best_index = x;
            lane = lane + 1;
        }
        i = i + 8;
    }
    while i < hi
        invariant
            lo <= i <= hi,
            lo < hi,
            i >= simd_tail_start(lo, hi),
            range_defined(seed, lo, hi),
            scan_ok(seed, lo, hi, i as int, best_score, best_index),
            simd_scan(seed, lo, hi, lo as int, 0, lo) == simd_scan(
                seed,
                lo,
                hi,
                i as int,
                best_score,
                best_index,
            ),
        decreases hi - i,
    {
        proof {
            assert(candidate_defined(seed, i));
            lemma_simd_scan_unfold(seed, lo, hi, i, best_score, best_index);
        }
        let (b, x) = consider_exact(seed, lo, hi, i, best_score, best_index);
        best_score = b;
        best_index = x;
        i = i + 1;
    }
    proof {
        reveal(scan_ok);
        reveal(simd_scan);
        assert(candidate_defined(seed, best_index));
    }
    let best_arr = materialize_arr(seed, best_index);
    RangeResult { best_score, best_arr, best_index }
}

} // verus!
