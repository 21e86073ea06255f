//! The candidate generators: splitmix64 seeding, the xoshiro128++ stream, and the
//! rejection-sampled bounded draw used by the shuffle.
use vstd::prelude::*;
use vstd::arithmetic::div_mod::{
    lemma_add_mod_noop, lemma_mod_multiples_vanish, lemma_mul_mod_noop_left, lemma_small_mod,
};
use vstd::arithmetic::mul::lemma_mul_is_associative;

use crate::kernel::SEED_STRIDE;

verus! {

/// Two to the 64th: the modulus of `u64` wrapping arithmetic.
pub open spec fn modulus64() -> int {
    0x1_0000_0000_0000_0000
}

/// Two to the 32nd: the modulus of `u32` wrapping arithmetic.
pub open spec fn modulus32() -> int {
    0x1_0000_0000
}

/// An integer reduced modulo 2^64, as a `u64`.
pub open spec fn wrap64(x: int) -> u64 {
    (x % modulus64()) as u64
}

/// An integer reduced modulo 2^32, as a `u32`.
pub open spec fn wrap32(x: int) -> u32 {
    (x % modulus32()) as u32
}

/// The first multiplier of the splitmix64 finaliser.
pub open spec fn mix_c1() -> int {
    0xbf58_476d_1ce4_e5b9
}

/// The second multiplier of the splitmix64 finaliser.
pub open spec fn mix_c2() -> int {
    0x94d0_49bb_1331_11eb
}

/// The splitmix64 output function applied to a counter value.
pub open spec fn mix64(z: u64) -> u64 {
    let v1 = wrap64((z ^ (z >> 30u64)) as int * mix_c1());
    let v2 = wrap64((v1 ^ (v1 >> 27u64)) as int * mix_c2());
    v2 ^ (v2 >> 31u64)
}

/// The splitmix64 counter after `k` strides from `z`.
pub open spec fn counter_after(z: u64, k: int) -> u64 {
    wrap64(z + k * SEED_STRIDE)
}

/// The xoshiro128 state held as four 32-bit words.
pub type XoState = (u32, u32, u32, u32);

/// The four words of a state array.
pub open spec fn st(s: [u32; 4]) -> XoState {
    (s[0], s[1], s[2], s[3])
}

/// Rotation of a 32-bit word to the left by `k` places, for `0 < k < 32`.
pub open spec fn rotl32_spec(x: u32, k: u32) -> u32 {
    (x << k) | (x >> ((32 - k) as u32))
}

/// The xoshiro128++ output for a state.
pub open spec fn xo_out(s: XoState) -> u32 {
    wrap32(rotl32_spec(wrap32(s.0 + s.3), 7) + s.0)
}

/// The xoshiro128 state transition.
pub open spec fn xo_step(s: XoState) -> XoState {
    let t = s.1 << 9u32;
    let s2 = s.2 ^ s.0;
    let s3 = s.3 ^ s.1;
    let s1 = s.1 ^ s2;
    let s0 = s.0 ^ s3;
    (s0, s1, s2 ^ t, rotl32_spec(s3, 11))
}

/// The state after `k` transitions.
pub open spec fn xo_iter(s: XoState, k: nat) -> XoState
    decreases k,
{
    if k == 0 {
        s
    } else {
        xo_step(xo_iter(s, (k - 1) as nat))
    }
}

/// The `k`-th output of the stream that starts in `s`.
pub open spec fn xo_output_at(s: XoState, k: nat) -> u32 {
    xo_out(xo_iter(s, k))
}

/// The number of values below 2^32 that a rejection draw refuses for the bound `max`.
pub open spec fn threshold_spec(max: u32) -> u32 {
    (modulus32() % (max as int)) as u32
}

/// Output `k` is the first output of the stream from `s` that is at least `t`.
pub open spec fn first_accept(s: XoState, t: u32, k: nat) -> bool {
    &&& xo_output_at(s, k) >= t
    &&& forall|j: nat| j < k ==> #[trigger] xo_output_at(s, j) < t
}

/// The stream from `s` eventually yields an output of at least `t`: a rejection draw ends.
pub open spec fn can_draw(s: XoState, t: u32) -> bool {
    exists|k: nat| first_accept(s, t, k)
}

/// The number of outputs a rejection draw refuses before it accepts one.
pub open spec fn rejections(s: XoState, t: u32) -> nat {
    choose|k: nat| first_accept(s, t, k)
}

/// The value of a rejection draw below `max` (rejecting outputs under `t`).
pub open spec fn draw_value(s: XoState, max: u32, t: u32) -> int {
    (xo_output_at(s, rejections(s, t)) % max) as int
}

/// The state after a rejection draw.
pub open spec fn draw_state(s: XoState, t: u32) -> XoState {
    xo_iter(s, rejections(s, t) + 1)
}

/// The state words made of two 64-bit outputs, low half first.
pub open spec fn pair_state(a: u64, b: u64) -> XoState {
    (
        (a & 0xffff_ffffu64) as u32,
        ((a >> 32u64) & 0xffff_ffffu64) as u32,
        (b & 0xffff_ffffu64) as u32,
        ((b >> 32u64) & 0xffff_ffffu64) as u32,
    )
}

/// The state that `xseed` derives from a 64-bit seed.
pub open spec fn xseed_state(seed64: u64) -> XoState {
    let p = pair_state(mix64(counter_after(seed64, 1)), mix64(counter_after(seed64, 2)));
    if p == (0u32, 0u32, 0u32, 0u32) {
        (1u32, 0u32, 0u32, 0u32)
    } else {
        p
    }
}

/// The 64-bit seed of candidate `index` under `seed`.
pub open spec fn candidate_seed(seed: u64, index: u64) -> u64 {
    wrap64(seed + index * SEED_STRIDE)
}

pub proof fn lemma_wrap64_add(x: int, y: int)
    ensures
        wrap64(wrap64(x) + y) == wrap64(x + y),
{
    lemma_add_mod_noop(x, y, modulus64());
    lemma_small_mod((y % modulus64()) as nat, modulus64() as nat);
    lemma_add_mod_noop(x % modulus64(), y, modulus64());
}

pub proof fn lemma_counter_after(z: u64, j: int, k: int)
    ensures
        counter_after(counter_after(z, j), k) == counter_after(z, j + k),
{
    lemma_wrap64_add(z + j * SEED_STRIDE, k * SEED_STRIDE);
    assert(z + j * SEED_STRIDE + k * SEED_STRIDE == z + (j + k) * SEED_STRIDE) by (nonlinear_arith);
}

/// A wrapping sum of two `u64` values as the sum reduced modulo 2^64.
pub proof fn lemma_wrapping_add_u64(x: u64, y: u64)
    ensures
        vstd::wrapping::u64_specs::wrapping_add(x, y) == wrap64(x + y),
{
    if x + y >= modulus64() {
        lemma_small_mod((x + y - modulus64()) as nat, modulus64() as nat);
        lemma_mod_multiples_vanish(1, x + y - modulus64(), modulus64());
    } else {
        lemma_small_mod((x + y) as nat, modulus64() as nat);
    }
}

/// A wrapping sum of two `u32` values as the sum reduced modulo 2^32.
pub proof fn lemma_wrapping_add_u32(x: u32, y: u32)
    ensures
        vstd::wrapping::u32_specs::wrapping_add(x, y) == wrap32(x + y),
{
    if x + y >= modulus32() {
        lemma_small_mod((x + y - modulus32()) as nat, modulus32() as nat);
        lemma_mod_multiples_vanish(1, x + y - modulus32(), modulus32());
    } else {
        lemma_small_mod((x + y) as nat, modulus32() as nat);
    }
}

/// Undoing `v ^ (v >> 30)`.
proof fn lemma_unshift30(v: u64)
    ensures
        (v ^ (v >> 30u64)) ^ ((v ^ (v >> 30u64)) >> 30u64) ^ ((v ^ (v >> 30u64)) >> 60u64) == v,
{
    assert((v ^ (v >> 30u64)) ^ ((v ^ (v >> 30u64)) >> 30u64) ^ ((v ^ (v >> 30u64)) >> 60u64) == v)
        by (bit_vector);
}

/// Undoing `v ^ (v >> 27)`.
proof fn lemma_unshift27(v: u64)
    ensures
        (v ^ (v >> 27u64)) ^ ((v ^ (v >> 27u64)) >> 27u64) ^ ((v ^ (v >> 27u64)) >> 54u64) == v,
{
    assert((v ^ (v >> 27u64)) ^ ((v ^ (v >> 27u64)) >> 27u64) ^ ((v ^ (v >> 27u64)) >> 54u64) == v)
        by (bit_vector);
}

/// Undoing `v ^ (v >> 31)`.
proof fn lemma_unshift31(v: u64)
    ensures
        (v ^ (v >> 31u64)) ^ ((v ^ (v >> 31u64)) >> 31u64) ^ ((v ^ (v >> 31u64)) >> 62u64) == v,
{
    assert((v ^ (v >> 31u64)) ^ ((v ^ (v >> 31u64)) >> 31u64) ^ ((v ^ (v >> 31u64)) >> 62u64) == v)
        by (bit_vector);
}

/// Undoing a wrapping multiplication by an odd constant with its inverse modulo 2^64.
proof fn lemma_mul_inverse(x: u64, c: int, c_inv: int, k: int)
    requires
        c * c_inv == 1 + k * modulus64(),
        k >= 0,
    ensures
        wrap64(wrap64(x * c) * c_inv) == x,
{
    lemma_mul_mod_noop_left(x * c, c_inv, modulus64());
    lemma_mul_is_associative(x as int, c, c_inv);
    assert(x * (c * c_inv) == x + (x * k) * modulus64()) by (nonlinear_arith)
        requires
            c * c_inv == 1 + k * modulus64(),
    ;
    lemma_mod_multiples_vanish(x * k, x as int, modulus64());
    lemma_small_mod(x as nat, modulus64() as nat);
}

/// The splitmix64 output function is one-to-one.
pub proof fn lemma_mix64_injective(x: u64, y: u64)
    requires
        mix64(x) == mix64(y),
    ensures
        x == y,
{
    let xa = x ^ (x >> 30u64);
    let ya = y ^ (y >> 30u64);
    let xb = wrap64(xa as int * mix_c1());
    let yb = wrap64(ya as int * mix_c1());
    let xc = xb ^ (xb >> 27u64);
    let yc = yb ^ (yb >> 27u64);
    let xd = wrap64(xc as int * mix_c2());
    let yd = wrap64(yc as int * mix_c2());
    assert(mix64(x) == xd ^ (xd >> 31u64));
    assert(mix64(y) == yd ^ (yd >> 31u64));
    lemma_unshift31(xd);
    lemma_unshift31(yd);
    assert(xd == yd);
    lemma_mul_inverse(xc, mix_c2(), 0x3196_42b2_d24d_8ec3, 2077064247507883091);
    lemma_mul_inverse(yc, mix_c2(), 0x3196_42b2_d24d_8ec3, 2077064247507883091);
    assert(xc == yc);
    lemma_unshift27(xb);
    lemma_unshift27(yb);
    assert(xb == yb);
    lemma_mul_inverse(xa, mix_c1(), 0x96de_1b17_3f11_9089, 8125545580553827436);
    lemma_mul_inverse(ya, mix_c1(), 0x96de_1b17_3f11_9089, 8125545580553827436);
    assert(xa == ya);
    lemma_unshift30(x);
    lemma_unshift30(y);
}

/// The words of a pair are all zero exactly when both halves are zero.
pub proof fn lemma_pair_state_zero(a: u64, b: u64)
    ensures
        pair_state(a, b) == (0u32, 0u32, 0u32, 0u32) <==> (a == 0 && b == 0),
{
    assert(((a & 0xffff_ffffu64) as u32 == 0u32 && ((a >> 32u64) & 0xffff_ffffu64) as u32 == 0u32)
        <==> a == 0u64) by (bit_vector);
    assert(((b & 0xffff_ffffu64) as u32 == 0u32 && ((b >> 32u64) & 0xffff_ffffu64) as u32 == 0u32)
        <==> b == 0u64) by (bit_vector);
}

/// Two consecutive splitmix64 outputs are never both zero.
pub proof fn lemma_consecutive_outputs_not_both_zero(z: u64)
    ensures
        pair_state(mix64(counter_after(z, 1)), mix64(counter_after(z, 2))) != (
            0u32,
            0u32,
            0u32,
            0u32,
        ),
{
    let p = counter_after(z, 1);
    let q = counter_after(z, 2);
    lemma_pair_state_zero(mix64(p), mix64(q));
    if mix64(p) == 0 && mix64(q) == 0 {
        lemma_mix64_injective(p, q);
        lemma_counter_after(z, 1, 1);
        assert(counter_after(p, 1) == p);
        lemma_small_mod(p as nat, modulus64() as nat);
        if p + SEED_STRIDE < modulus64() {
            lemma_small_mod((p + SEED_STRIDE) as nat, modulus64() as nat);
        } else {
            lemma_small_mod((p + SEED_STRIDE - modulus64()) as nat, modulus64() as nat);
            lemma_mod_multiples_vanish(1, p + SEED_STRIDE - modulus64(), modulus64());
        }
    }
}

/// The state of a candidate seed is never all zero, so `xseed` never needs its fallback.
pub proof fn lemma_xseed_state_is_pair(seed64: u64)
    ensures
        xseed_state(seed64) == pair_state(
            mix64(counter_after(seed64, 1)),
            mix64(counter_after(seed64, 2)),
        ),
{
    lemma_consecutive_outputs_not_both_zero(seed64);
}

/// Advances a splitmix64 counter by one stride and returns the mixed output.
pub fn splitmix64_step(z: &mut u64) -> (r: u64)
    ensures
        *final(z) == counter_after(*old(z), 1),
        r == mix64(*final(z)),
{
    proof {
        lemma_wrapping_add_u64(*z, SEED_STRIDE);
    }
    *z = (*z).wrapping_add(SEED_STRIDE);
    let mut value = *z;
    value = (value ^ (value >> 30u64)).wrapping_mul(0xbf58_476d_1ce4_e5b9u64);
    value = (value ^ (value >> 27u64)).wrapping_mul(0x94d0_49bb_1331_11ebu64);
    value ^ (value >> 31u64)
}

/// Splits two 64-bit outputs into the four state words.
pub fn state_from_pair(a: u64, b: u64) -> (s: [u32; 4])
    ensures
        st(s) == pair_state(a, b),
{
    [
        (a & 0xffff_ffffu64) as u32,
        ((a >> 32u64) & 0xffff_ffffu64) as u32,
        (b & 0xffff_ffffu64) as u32,
        ((b >> 32u64) & 0xffff_ffffu64) as u32,
    ]
}

/// Seeds a xoshiro128 state from a 64-bit seed by two splitmix64 steps.
pub fn xseed(seed64: u64) -> (s: [u32; 4])
    ensures
        st(s) == xseed_state(seed64),
{
    let mut z = seed64;
    let a = splitmix64_step(&mut z);
    let b = splitmix64_step(&mut z);
    proof {
        lemma_counter_after(seed64, 1, 1);
    }
    let mut s = state_from_pair(a, b);
    if s[0] == 0 && s[1] == 0 && s[2] == 0 && s[3] == 0 {
        s[0] = 1;
    }
    s
}

/// Rotates a 32-bit word left by `k` places.
pub fn rotl32(x: u32, k: u32) -> (r: u32)
    requires
        0 < k < 32,
    ensures
        r == rotl32_spec(x, k),
{
    (x << k) | (x >> (32 - k))
}

/// Produces the next xoshiro128++ output and advances the state.
pub fn xnext(s: &mut [u32; 4]) -> (r: u32)
    ensures
        r == xo_out(st(*old(s))),
        st(*final(s)) == xo_step(st(*old(s))),
{
    proof {
        lemma_wrapping_add_u32(s[0], s[3]);
        lemma_wrapping_add_u32(rotl32_spec(wrap32(s[0] + s[3]), 7), s[0]);
    }
    let res = rotl32(s[0].wrapping_add(s[3]), 7).wrapping_add(s[0]);
    let t = s[1] << 9u32;
    s[2] ^= s[0];
    s[3] ^= s[1];
    s[1] ^= s[2];
    s[0] ^= s[3];
    s[2] ^= t;
    s[3] = rotl32(s[3], 11);
    res
}

/// The number of 32-bit values that a uniform draw below `max` must reject.
pub fn threshold(max: u32) -> (r: u32)
    requires
        max > 0,
    ensures
        r == threshold_spec(max),
        r < max,
{
    assert(1u64 << 32u64 == 0x1_0000_0000u64) by (bit_vector);
    ((1u64 << 32u64) % (max as u64)) as u32
}

/// Draws a value below `max`, rejecting outputs under `threshold` so that the draw is
/// uniform; loops until the stream yields an acceptable output.
pub fn xint(s: &mut [u32; 4], max: u32, threshold: u32) -> (r: usize)
    requires
        max > 0,
        can_draw(st(*old(s)), threshold),
    ensures
        r == draw_value(st(*old(s)), max, threshold),
        r < max,
        st(*final(s)) == draw_state(st(*old(s)), threshold),
{
    let ghost s0 = st(*s);
    let ghost k = rejections(s0, threshold);
    let ghost mut j: nat = 0;
    loop
        invariant
            s0 == st(*old(s)),
            first_accept(s0, threshold, k),
            j <= k,
            st(*s) == xo_iter(s0, j),
            max > 0,
        decreases k - j,
    {
        let value = xnext(s);
        assert(value == xo_output_at(s0, j));
        if value >= threshold {
            assert(j == k) by {
                if j < k {
                    assert(xo_output_at(s0, j) < threshold);
                }
            }
            assert(rejections(s0, threshold) == k);
            assert(xo_iter(s0, k + 1) == xo_step(xo_iter(s0, k)));
            assert(st(*s) == draw_state(s0, threshold));
            let r = (value % max) as usize;
            assert(r == draw_value(s0, max, threshold));
            return r;
        }
        proof {
            j = j + 1;
        }
    }
}

/// A cursor over consecutive candidate seeds that reuses one splitmix64 step per advance.
#[derive(Clone, Copy)]
pub struct SeedCursor {
    pub z: u64,
    pub a: u64,
    pub b: u64,
}

impl SeedCursor {
    /// The cursor sits at the candidate whose 64-bit seed is `base`.
    pub open spec fn at(self, base: u64) -> bool {
        &&& self.z == counter_after(base, 2)
        &&& self.a == mix64(counter_after(base, 1))
        &&& self.b == mix64(counter_after(base, 2))
    }

    /// Places a cursor at candidate `index` of `seed`.
    pub fn new(seed: u64, index: u64) -> (c: Self)
        ensures
            c.at(candidate_seed(seed, index)),
    {
        proof {
            vstd::arithmetic::mul::lemma_mul_nonnegative(index as int, SEED_STRIDE as int);
            lemma_wrapping_add_u64(seed, wrap64(index * SEED_STRIDE));
            lemma_wrap64_add(index * SEED_STRIDE, seed as int);
        }
        let mut z = seed.wrapping_add(index.wrapping_mul(SEED_STRIDE));
        let a = splitmix64_step(&mut z);
        let b = splitmix64_step(&mut z);
        proof {
            lemma_counter_after(candidate_seed(seed, index), 1, 1);
        }
        Self { z, a, b }
    }

    /// The xoshiro128 state of the candidate under the cursor.
    pub fn current_state(&self) -> (s: [u32; 4])
        ensures
            st(s) == pair_state(self.a, self.b),
    {
        state_from_pair(self.a, self.b)
    }

    /// Moves the cursor to the next candidate.
    pub fn advance(&mut self)
        ensures
            final(self).a == old(self).b,
            final(self).z == counter_after(old(self).z, 1),
            final(self).b == mix64(final(self).z),
            forall|base: u64| old(self).at(base) ==> final(self).at(counter_after(base, 1)),
    {
        self.a = self.b;
        self.b = splitmix64_step(&mut self.z);
        proof {
            assert forall|base: u64| old(self).at(base) implies self.at(counter_after(base, 1)) by {
                lemma_counter_after(base, 1, 1);
                lemma_counter_after(base, 2, 1);
                lemma_counter_after(base, 1, 2);
            }
        }
    }
}

/// The state of the candidate under a cursor is the one that `xseed` derives for it.
pub proof fn lemma_cursor_state_is_xseed(c: SeedCursor, base: u64)
    requires
        c.at(base),
    ensures
        pair_state(c.a, c.b) == xseed_state(base),
{
    lemma_xseed_state_is_pair(base);
}

/// Consecutive candidate seeds are one stride apart.
pub proof fn lemma_candidate_seed_next(seed: u64, index: u64)
    requires
        index < u64::MAX,
    ensures
        counter_after(candidate_seed(seed, index), 1) == candidate_seed(seed, (index + 1) as u64),
{
    lemma_wrap64_add(seed + index * SEED_STRIDE, SEED_STRIDE as int);
    assert(seed + index * SEED_STRIDE + SEED_STRIDE == seed + (index + 1) * SEED_STRIDE)
        by (nonlinear_arith);
}

} // verus!
