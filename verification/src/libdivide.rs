//! Division by an invariant 32-bit divisor through a multiply and two shifts
//! (Granlund and Montgomery, "Division by Invariant Integers using Multiplication").
use vstd::prelude::*;
use vstd::arithmetic::div_mod::{
    lemma_div_denominator, lemma_div_multiples_vanish_fancy, lemma_fundamental_div_mod,
    lemma_fundamental_div_mod_converse_div,
};
use vstd::arithmetic::power2::{
    lemma2_to64, lemma2_to64_rest, lemma_pow2_pos, lemma_pow2_strictly_increases,
    lemma_pow2_unfold, pow2,
};
use vstd::bits::{lemma_u32_shr_is_div, lemma_u64_shl_is_mul, lemma_u64_shr_is_div};
use vstd::std_specs::bits::{axiom_u32_leading_zeros, u32_leading_zeros};

verus! {

/// The multiplier and the two shifts that replace division by a fixed divisor.
#[derive(Debug, Clone, Copy, PartialEq, Eq)]
pub struct MagicParams {
    pub m: u32,
    pub sh1: u32,
    pub sh2: u32,
}

/// The least `l` with `d <= 2^l`.
pub open spec fn ceil_log2(d: nat) -> nat
    decreases d,
{
    if d <= 1 {
        0
    } else {
        1 + ceil_log2(((d + 1) / 2) as nat)
    }
}

/// The parameters for the divisor `d`: for `d >= 2`, with `l` the least exponent such that
/// `d <= 2^l`, the multiplier `1 + (2^l - d) * 2^32 / d` and the shifts 1 and `l - 1`; for
/// `d == 1`, the multiplier 1 and no shifts.
pub open spec fn magic_spec(d: u32) -> MagicParams {
    if d <= 1 {
        MagicParams { m: 1, sh1: 0, sh2: 0 }
    } else {
        let l = ceil_log2(d as nat);
        MagicParams {
            m: (1 + ((pow2(l) - d) * 0x1_0000_0000) / (d as int)) as u32,
            sh1: 1,
            sh2: (l - 1) as u32,
        }
    }
}

pub proof fn lemma_ceil_log2_bounds(d: nat)
    requires
        d >= 1,
    ensures
        d <= pow2(ceil_log2(d)),
        d >= 2 ==> ceil_log2(d) >= 1 && pow2((ceil_log2(d) - 1) as nat) < d,
    decreases d,
{
    lemma2_to64();
    if d >= 2 {
        let c = ((d + 1) / 2) as nat;
        lemma_ceil_log2_bounds(c);
        lemma_pow2_unfold(ceil_log2(d));
        if c >= 2 {
            lemma_pow2_unfold(ceil_log2(c));
        }
    }
}

/// `ceil_log2(d)` is the only exponent `l` with `2^(l-1) < d <= 2^l`.
pub proof fn lemma_ceil_log2_unique(d: nat, l: nat)
    requires
        d >= 2,
        l >= 1,
        pow2((l - 1) as nat) < d <= pow2(l),
    ensures
        ceil_log2(d) == l,
{
    lemma_ceil_log2_bounds(d);
    let c = ceil_log2(d);
    if c < l {
        if c < l - 1 {
            lemma_pow2_strictly_increases(c, (l - 1) as nat);
        }
    } else if c > l {
        if l < c - 1 {
            lemma_pow2_strictly_increases(l, (c - 1) as nat);
        }
    }
}

/// Shifting right by at least the bit length of `x` leaves nothing; the highest set
/// bit of a non-zero `x` places it at least at `2^(l-1)`.
proof fn lemma_leading_zeros_bounds(x: u32)
    requires
        x >= 1,
    ensures
        ({
            let l = 32 - u32_leading_zeros(x);
            &&& 1 <= l <= 32
            &&& pow2((l - 1) as nat) <= x
            &&& x < pow2(l as nat)
        }),
{
    axiom_u32_leading_zeros(x);
    let lz = u32_leading_zeros(x);
    let l = (32 - lz) as u32;
    lemma2_to64();
    lemma2_to64_rest();
    let top = (l - 1) as u32;
    let y = x >> top;
    assert(y & 1u32 != 0u32 ==> y != 0u32) by (bit_vector);
    lemma_u32_shr_is_div(x, top);
    lemma_pow2_pos(top as nat);
    if (x as nat) < pow2(top as nat) {
        assert(x as nat / pow2(top as nat) == 0) by {
            vstd::arithmetic::div_mod::lemma_basic_div(x as int, pow2(top as nat) as int);
        }
    }
    if l < 32 {
        lemma_u32_shr_is_div(x, l);
        lemma_pow2_pos(l as nat);
        lemma_fundamental_div_mod(x as int, pow2(l as nat) as int);
    }
}

/// Computes the parameters that turn `n / d` into a multiply and two shifts.
pub fn calculate_magic(d: u32) -> (p: MagicParams)
    requires
        1 <= d <= 0x8000_0000,
    ensures
        p == magic_spec(d),
{
    match d {
        1 => MagicParams { m: 1, sh1: 0, sh2: 0 },
        2 => {
            proof {
                lemma2_to64();
                lemma_ceil_log2_unique(2, 1);
            }
            MagicParams { m: 1, sh1: 1, sh2: 0 }
        },
        _ => {
            let x = d - 1;
            let l = 32 - x.leading_zeros();
            proof {
                lemma_leading_zeros_bounds(x);
                lemma_ceil_log2_unique(d as nat, l as nat);
                lemma2_to64();
                lemma2_to64_rest();
                if l >= 32 {
                    lemma_pow2_strictly_increases(31, (l - 1) as nat);
                }
                lemma_pow2_strictly_increases(l as nat, 64);
                lemma_u64_shl_is_mul(1u64, l as u64);
                lemma_pow2_unfold(l as nat);
            }
            let l2: u64 = if l < 32 {
                1u64 << l
            } else {
                0
            };
            let diff = l2 - d as u64;
            proof {
                assert(diff < 0x8000_0000);
                lemma_u64_shl_is_mul(diff, 32u64);
            }
            let num = diff << 32u64;
            let q = num / d as u64;
            proof {
                assert(num == diff * 0x1_0000_0000);
                assert(diff <= d - 1);
                assert(num < 0xffff_ffff * d) by (nonlinear_arith)
                    requires
                        num == diff * 0x1_0000_0000,
                        diff <= d - 1,
                        d <= 0x8000_0000,
                ;
                assert(q < 0xffff_ffff) by (nonlinear_arith)
                    requires
                        q == num / d as u64,
                        num < 0xffff_ffff * d,
                        d >= 1,
                ;
            }
            let m = 1 + q as u32;
            MagicParams { m, sh1: 1, sh2: l - 1 }
        },
    }
}

/// The multiplier for the divisor `D`, as the signed word that the vector lanes load.
pub fn magic_m<const D: u32>() -> (r: i32)
    requires
        1 <= D <= 0x8000_0000,
    ensures
        r == magic_spec(D).m as i32,
{
    calculate_magic(D).m as i32
}

/// The first shift for the divisor `D`.
pub fn magic_sh1<const D: u32>() -> (r: i32)
    requires
        1 <= D <= 0x8000_0000,
    ensures
        r == magic_spec(D).sh1 as i32,
{
    calculate_magic(D).sh1 as i32
}

/// The second shift for the divisor `D`.
pub fn magic_sh2<const D: u32>() -> (r: i32)
    requires
        1 <= D <= 0x8000_0000,
    ensures
        r == magic_spec(D).sh2 as i32,
{
    calculate_magic(D).sh2 as i32
}

/// Adding a multiple of `d` adds its multiplier to the quotient.
proof fn lemma_div_add_multiple(x: int, b: int, d: int)
    requires
        0 < d,
        0 <= b,
    ensures
        (d * x + b) / d == x + b / d,
{
    lemma_fundamental_div_mod(b, d);
    assert(d * x + b == d * (x + b / d) + b % d) by (nonlinear_arith)
        requires
            b == d * (b / d) + b % d,
    ;
    lemma_div_multiples_vanish_fancy(x + b / d, b % d, d);
}

/// With `mp` one more than `P / d` and `d * 2^32 <= P`, the quotient `a * mp / P` is
/// `a / d` for every 32-bit `a`.
proof fn lemma_magic_quotient(a: int, d: int, big: int, mp: int)
    requires
        0 <= a < 0x1_0000_0000,
        d >= 1,
        d * 0x1_0000_0000 <= big,
        mp == big / d + 1,
    ensures
        (a * mp) / big == a / d,
{
    let q = big / d;
    let rem = big % d;
    lemma_fundamental_div_mod(big, d);
    let e = d - rem;
    assert(0 < e <= d);
    assert(d * mp == big + e) by (nonlinear_arith)
        requires
            mp == q + 1,
            big == d * q + rem,
            e == d - rem,
    ;
    let q0 = a / d;
    let r0 = a % d;
    lemma_fundamental_div_mod(a, d);
    assert(0 <= r0 < d);
    let x = a * mp;
    assert(d * x == a * big + a * e) by (nonlinear_arith)
        requires
            x == a * mp,
            d * mp == big + e,
    ;
    assert(a * e < big) by (nonlinear_arith)
        requires
            0 <= a < 0x1_0000_0000,
            0 < e <= d,
            d * 0x1_0000_0000 <= big,
    ;
    assert(q0 * big <= x) by (nonlinear_arith)
        requires
            d * x == a * big + a * e,
            a == d * q0 + r0,
            0 <= r0,
            0 <= a,
            0 < e,
            d >= 1,
            big > 0,
    ;
    assert(x < (q0 + 1) * big) by (nonlinear_arith)
        requires
            d * x == a * big + a * e,
            a == d * q0 + r0,
            r0 < d,
            a * e < big,
            d >= 1,
            big > 0,
    ;
    let rx = x - q0 * big;
    assert((q0 + 1) * big == q0 * big + big) by (nonlinear_arith);
    assert(0 <= rx < big);
    assert(x == q0 * big + rx);
    lemma_fundamental_div_mod_converse_div(x, big, q0, rx);
}

/// The high word of the 64-bit product `n * m`.
pub open spec fn mul_high(n: u32, m: u32) -> int {
    (n * m) / 0x1_0000_0000
}

/// The quotient that the multiply and the two shifts compute: with `t` the high word of
/// `n * m`, `(t + (n - t) / 2^sh1) / 2^sh2`.
pub open spec fn magic_quotient(n: u32, p: MagicParams) -> int {
    let t = mul_high(n, p.m);
    (t + (n - t) / (pow2(p.sh1 as nat) as int)) / (pow2(p.sh2 as nat) as int)
}

/// For the parameters of a divisor `d`, the high word never exceeds the dividend and the
/// multiply-and-shift quotient is `n / d`, for every 32-bit `n`.
pub proof fn law_magic_quotient(n: u32, d: u32)
    requires
        1 <= d <= 0x8000_0000,
    ensures
        mul_high(n, magic_spec(d).m) <= n,
        magic_quotient(n, magic_spec(d)) == n / d,
        magic_spec(d).sh1 <= 1,
        magic_spec(d).sh2 <= 30,
{
    let p = magic_spec(d);
    let t = mul_high(n, p.m);
    lemma2_to64();
    assert(t <= n) by (nonlinear_arith)
        requires
            t == (n * p.m) / 0x1_0000_0000,
            p.m < 0x1_0000_0000,
            n >= 0,
    ;
    if d == 1 {
        assert(t == 0) by (nonlinear_arith)
            requires
                t == (n * p.m) / 0x1_0000_0000,
                p.m == 1,
                n < 0x1_0000_0000,
        ;
        assert(magic_quotient(n, p) == n);
    } else {
        let l = ceil_log2(d as nat);
        lemma_ceil_log2_bounds(d as nat);
        assert(l <= 31) by {
            if l > 31 {
                lemma_pow2_strictly_increases(31, (l - 1) as nat);
            }
        }
        assert(p.sh1 == 1 && p.sh2 == l - 1);
        let half = t + (n - t) / 2;
        assert(half == (n + t) / 2);
        let l1 = (l - 1) as nat;
        lemma_pow2_pos(l1);
        lemma_pow2_unfold(l);
        lemma_div_denominator((n + t) as int, 2, pow2(l1) as int);
        let q = magic_quotient(n, p);
        assert(q == (n + t) / (pow2(l) as int));
        // n + t is (n * (m + 2^32)) / 2^32
        let mp: int = p.m + 0x1_0000_0000;
        lemma_div_add_multiple(n as int, (n * p.m) as int, 0x1_0000_0000);
        assert(n * mp == n * 0x1_0000_0000 + n * p.m) by (nonlinear_arith)
            requires
                mp == p.m + 0x1_0000_0000,
        ;
        assert((n * mp) / 0x1_0000_0000 == n + t) by {
            assert(0x1_0000_0000 * n + n * p.m == n * mp) by (nonlinear_arith)
                requires
                    n * mp == n * 0x1_0000_0000 + n * p.m,
            ;
        }
        lemma_pow2_pos(l);
        lemma_div_denominator((n * mp) as int, 0x1_0000_0000, pow2(l) as int);
        let big: int = 0x1_0000_0000 * (pow2(l) as int);
        assert(q == (n * mp) / big);
        // the multiplier is one more than 2^(32 + l) / d
        let diffm: int = (pow2(l) - d) * 0x1_0000_0000;
        assert(diffm == big - d * 0x1_0000_0000) by (nonlinear_arith)
            requires
                diffm == (pow2(l) - d) * 0x1_0000_0000,
                big == 0x1_0000_0000 * pow2(l),
        ;
        assert(big / (d as int) == diffm / (d as int) + 0x1_0000_0000) by {
            lemma_div_add_multiple(0x1_0000_0000, diffm, d as int);
            assert(d * 0x1_0000_0000 + diffm == big);
        }
        assert(0 <= diffm / (d as int) < 0xffff_ffff) by (nonlinear_arith)
            requires
                diffm == (pow2(l) - d) * 0x1_0000_0000,
                pow2(l) >= d,
                pow2(l) - d <= d - 1,
                d <= 0x8000_0000,
                d >= 2,
        ;
        assert(p.m == 1 + diffm / (d as int));
        assert(d * 0x1_0000_0000 <= big) by (nonlinear_arith)
            requires
                d <= pow2(l),
                big == 0x1_0000_0000 * pow2(l),
        ;
        lemma_magic_quotient(n as int, d as int, big as int, mp as int);
    }
}

/// `n % d` by the multiply-and-shift quotient, for parameters computed for `d`.
pub fn fast_mod(n: u32, d: u32, p: MagicParams) -> (r: u32)
    requires
        1 <= d <= 0x8000_0000,
        p == magic_spec(d),
    ensures
        r == n % d,
{
    proof {
        law_magic_quotient(n, d);
        assert((n as u64) * (p.m as u64) <= 0xffff_ffff * 0xffff_ffff) by (nonlinear_arith)
            requires
                n <= 0xffff_ffff,
                p.m <= 0xffff_ffff,
        ;
    }
    let t = ((n as u64 * p.m as u64) >> 32u64) as u32;
    proof {
        lemma2_to64();
        lemma2_to64_rest();
        lemma_u64_shr_is_div((n as u64 * p.m as u64) as u64, 32u64);
        assert(t == mul_high(n, p.m));
        let dt = (n - t) as u32;
        let s1 = p.sh1;
        assert(dt >> s1 <= dt) by (bit_vector);
        lemma_u32_shr_is_div(dt, s1);
    }
    let t9 = (n - t) >> p.sh1;
    let t10 = t + t9;
    proof {
        lemma_u32_shr_is_div(t10, p.sh2);
    }
    let q = t10 >> p.sh2;
    proof {
        assert(q == magic_quotient(n, p));
        lemma_fundamental_div_mod(n as int, d as int);
        assert(q * d <= n) by (nonlinear_arith)
            requires
                q == n / d,
                d >= 1,
                n >= 0,
        ;
    }
    n - q * d
}

} // verus!
