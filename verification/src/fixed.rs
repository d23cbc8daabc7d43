//! Fixed-point scalar arithmetic.
//!
//! Every scalar in this library is an `i64` counting 1/65536ths of a world
//! unit, so the value `ONE` stands for 1.0.  All operations truncate toward
//! zero, and each executable operation is specified exactly by the integer
//! formulas below, which the rest of the library's contracts are written over.
use vstd::arithmetic::div_mod::{
    lemma_div_is_ordered, lemma_div_nonincreasing, lemma_div_pos_is_pos,
    lemma_fundamental_div_mod,
};
use vstd::arithmetic::mul::lemma_mul_inequality;
use vstd::prelude::*;

verus! {

/// The fixed-point scale: the representation of 1.0.
pub const ONE: i64 = 65536;

/// Largest magnitude allowed for a scene coordinate or a sphere radius
/// (32768 world units).
pub const COORD_MAX: i64 = 0x8000_0000;

/// Largest magnitude allowed for a ray origin or direction component.
pub const RAY_MAX: i64 = 0x2_0000_0000;

/// Upper limit of every parametric range handed to an intersection query;
/// stands in for "no far limit".
pub const T_MAX: i64 = 0x8000_0000;

/// Quotient of `a / b` truncated toward zero, the rounding every fixed-point
/// operation uses.  Meaningful for `b > 0`.
pub open spec fn tdiv(a: int, b: int) -> int {
    if a >= 0 {
        a / b
    } else {
        -((-a) / b)
    }
}

/// Fixed-point product: `a * b` rescaled by `ONE`, truncated toward zero.
pub open spec fn fmul(a: int, b: int) -> int {
    tdiv(a * b, ONE as int)
}

/// Fixed-point quotient: `a / b` rescaled by `ONE`, truncated toward zero.
pub open spec fn fdiv(a: int, b: int) -> int {
    tdiv(a * (ONE as int), b)
}

/// `r` is the integer square root of `n`: the greatest integer whose square
/// does not exceed `n`.
pub open spec fn is_isqrt(n: int, r: int) -> bool {
    &&& 0 <= r
    &&& r * r <= n
    &&& n < (r + 1) * (r + 1)
}

/// The integer square root as a function, for use in other specifications.
pub open spec fn isqrt(n: int) -> int {
    choose|r: int| is_isqrt(n, r)
}

/// Fixed-point square root of a non-negative scalar: since a scalar `x`
/// stands for `x / ONE`, its root stands for `isqrt(x * ONE) / ONE`.
pub open spec fn fsqrt(x: int) -> int {
    isqrt(x * (ONE as int))
}

/// Truncating division is exact on multiples and within one unit otherwise:
/// `b * tdiv(a, b)` lands within `b` of `a`, on the zero side of it.
pub proof fn lemma_tdiv_fundamental(a: int, b: int)
    requires
        b > 0,
    ensures
        a >= 0 ==> b * tdiv(a, b) <= a < b * tdiv(a, b) + b,
        a < 0 ==> b * tdiv(a, b) - b < a <= b * tdiv(a, b),
{
    if a >= 0 {
        lemma_fundamental_div_mod(a, b);
        lemma_mod_bound(a, b);
    } else {
        lemma_fundamental_div_mod(-a, b);
        lemma_mod_bound(-a, b);
        let q = (-a) / b;
        assert(-a == b * q + (-a) % b);
        assert(b * -q == -(b * q)) by (nonlinear_arith);
    }
}

proof fn lemma_mod_bound(a: int, b: int)
    requires
        b > 0,
    ensures
        0 <= a % b < b,
{
}

/// Truncation never increases magnitude and keeps sign.
pub proof fn lemma_tdiv_bound(a: int, b: int, m: int)
    requires
        b > 0,
        -m <= a <= m,
        0 <= m,
    ensures
        -tdiv(m, b) <= tdiv(a, b) <= tdiv(m, b),
        tdiv(m, b) <= m,
        a >= 0 ==> tdiv(a, b) >= 0,
        a <= 0 ==> tdiv(a, b) <= 0,
{
    lemma_div_nonincreasing(m, b);
    if a >= 0 {
        lemma_div_is_ordered(a, m, b);
        lemma_div_pos_is_pos(a, b);
    } else {
        lemma_div_is_ordered(-a, m, b);
        lemma_div_pos_is_pos(-a, b);
    }
}

/// Truncating division is monotone in the numerator.
pub proof fn lemma_tdiv_ordered(a1: int, a2: int, b: int)
    requires
        b > 0,
        a1 <= a2,
    ensures
        tdiv(a1, b) <= tdiv(a2, b),
{
    if a1 >= 0 {
        lemma_div_is_ordered(a1, a2, b);
    } else if a2 < 0 {
        lemma_div_is_ordered(-a2, -a1, b);
    } else {
        lemma_div_pos_is_pos(-a1, b);
        lemma_div_pos_is_pos(a2, b);
    }
}

/// Truncating division is odd in the numerator.
pub proof fn lemma_tdiv_neg(a: int, b: int)
    requires
        b > 0,
    ensures
        tdiv(-a, b) == -tdiv(a, b),
{
    if a == 0 {
        vstd::arithmetic::div_mod::lemma_div_of0(b);
    }
}

/// Dividing an exact multiple is exact.
pub proof fn lemma_tdiv_exact(x: int, b: int)
    requires
        b > 0,
    ensures
        tdiv(b * x, b) == x,
        tdiv(x * b, b) == x,
{
    vstd::arithmetic::mul::lemma_mul_is_commutative(x, b);
    if x >= 0 {
        vstd::arithmetic::div_mod::lemma_div_multiples_vanish(x, b);
        vstd::arithmetic::mul::lemma_mul_nonnegative(b, x);
    } else {
        vstd::arithmetic::mul::lemma_mul_unary_negation(b, x);
        vstd::arithmetic::div_mod::lemma_div_multiples_vanish(-x, b);
        assert(b * x < 0) by (nonlinear_arith)
            requires
                x < 0,
                b > 0,
        ;
    }
}

/// A rescaled product is bounded by any `m` whose scaling clears the plain
/// product bound.
pub proof fn lemma_fmul_le(a: int, b: int, ma: int, mb: int, m: int)
    requires
        -ma <= a <= ma,
        -mb <= b <= mb,
        0 <= ma,
        0 <= mb,
        ma * mb <= m * (ONE as int),
        0 <= m,
    ensures
        -m <= fmul(a, b) <= m,
{
    lemma_mul_product_bound(a, b, ma, mb);
    lemma_tdiv_exact(m, ONE as int);
    lemma_tdiv_neg(m * (ONE as int), ONE as int);
    lemma_tdiv_ordered(a * b, m * (ONE as int), ONE as int);
    lemma_tdiv_ordered(-(m * (ONE as int)), a * b, ONE as int);
    assert(-(m * (ONE as int)) == (-m) * (ONE as int)) by (nonlinear_arith);
}

/// `|a| <= ma` and `|b| <= mb` bound the product by `ma * mb`.
pub proof fn lemma_mul_product_bound(a: int, b: int, ma: int, mb: int)
    requires
        -ma <= a <= ma,
        -mb <= b <= mb,
        0 <= ma,
        0 <= mb,
    ensures
        -(ma * mb) <= a * b <= ma * mb,
{
    assert(-(ma * mb) <= a * b <= ma * mb) by (nonlinear_arith)
        requires
            -ma <= a <= ma,
            -mb <= b <= mb,
            0 <= ma,
            0 <= mb,
    ;
}

/// Attenuating a non-negative scalar by a factor in `[0, 1]` keeps it
/// non-negative and never increases it.
pub proof fn lemma_fmul_attenuate(a: int, c: int)
    requires
        0 <= a <= ONE,
        0 <= c,
    ensures
        0 <= fmul(a, c) <= c,
{
    lemma_mul_inequality(a, ONE as int, c);
    vstd::arithmetic::mul::lemma_mul_nonnegative(a, c);
    lemma_tdiv_ordered(a * c, (ONE as int) * c, ONE as int);
    lemma_tdiv_exact(c, ONE as int);
    lemma_tdiv_bound(a * c, ONE as int, a * c);
}

/// Quotient of wide signed integers, truncated toward zero.
pub fn div_trunc(a: i128, b: i128) -> (r: i128)
    requires
        b > 0,
        a > i128::MIN,
    ensures
        r == tdiv(a as int, b as int),
{
    if a >= 0 {
        let q: u128 = (a as u128) / (b as u128);
        proof {
            lemma_div_nonincreasing(a as int, b as int);
            lemma_div_pos_is_pos(a as int, b as int);
        }
        q as i128
    } else {
        let q: u128 = ((-a) as u128) / (b as u128);
        proof {
            lemma_div_nonincreasing(-a as int, b as int);
            lemma_div_pos_is_pos(-a as int, b as int);
        }
        -(q as i128)
    }
}

/// Rounded-up quotient; meaningful for `b > 0`, where `/` rounds down.
pub open spec fn ceil_div(a: int, b: int) -> int {
    -((-a) / b)
}

/// Quotient of signed machine integers, rounded down (as `/` on `int`).
pub fn div_floor(a: i64, b: i64) -> (r: i64)
    requires
        b > 0,
        -0x4000_0000_0000_0000 <= a <= 0x4000_0000_0000_0000,
    ensures
        r == a as int / b as int,
        -0x4000_0000_0000_0000 <= r <= 0x4000_0000_0000_0000,
{
    if a >= 0 {
        let q: u64 = (a as u64) / (b as u64);
        proof {
            lemma_div_nonincreasing(a as int, b as int);
            lemma_div_pos_is_pos(a as int, b as int);
        }
        q as i64
    } else {
        let n: u64 = (-a) as u64;
        let q: u64 = (n + (b as u64) - 1) / (b as u64);
        proof {
            let bi = b as int;
            let ni = n as int;
            let m = ni + bi - 1;
            lemma_fundamental_div_mod(m, bi);
            lemma_mod_bound(m, bi);
            lemma_div_pos_is_pos(m, bi);
            let qq = m / bi;
            // The quotient is at most n, so it fits back into an i64.
            assert(m <= ni * bi) by (nonlinear_arith)
                requires
                    ni >= 1,
                    bi >= 1,
                    m == ni + bi - 1,
            ;
            assert(ni * bi >= 0) by (nonlinear_arith)
                requires
                    ni >= 1,
                    bi >= 1,
            ;
            lemma_div_is_ordered(m, ni * bi, bi);
            lemma_tdiv_exact(ni, bi);
            assert(qq <= ni);
            // a == b * (-q) + (b - 1 - (m % b)), with that remainder in
            // [0, b), so -q is the rounded-down quotient of a.
            assert((-qq) * bi == -(bi * qq)) by (nonlinear_arith);
            vstd::arithmetic::div_mod::lemma_fundamental_div_mod_converse_div(
                a as int,
                bi,
                -qq,
                bi - 1 - (m % bi),
            );
        }
        -(q as i64)
    }
}

/// Quotient of signed machine integers, rounded up.
pub fn div_ceil(a: i64, b: i64) -> (r: i64)
    requires
        b > 0,
        -0x4000_0000_0000_0000 <= a <= 0x4000_0000_0000_0000,
    ensures
        r == ceil_div(a as int, b as int),
        -0x4000_0000_0000_0000 <= r <= 0x4000_0000_0000_0000,
{
    let f = div_floor(-a, b);
    -f
}

/// For a positive divisor, comparing a product against a bound is the same
/// as comparing the factor against the rounded quotient.
pub proof fn lemma_mul_div_iff(t: int, d: int, a: int, b: int)
    requires
        d > 0,
    ensures
        (t * d >= a) <==> (t >= ceil_div(a, d)),
        (t * d <= b) <==> (t <= b / d),
{
    // Rounding down: t <= b / d exactly captures t * d <= b.
    lemma_fundamental_div_mod(b, d);
    lemma_mod_bound(b, d);
    let p = b / d;
    if t <= p {
        lemma_mul_inequality(t, p, d);
        assert(p * d == d * p) by (nonlinear_arith);
    }
    if t > p {
        lemma_mul_inequality(p + 1, t, d);
        assert((p + 1) * d == d * p + d) by (nonlinear_arith);
    }
    // Rounding up: t >= ceil_div(a, d) exactly captures t * d >= a.
    lemma_fundamental_div_mod(-a, d);
    lemma_mod_bound(-a, d);
    let q = (-a) / d;
    if t >= -q {
        lemma_mul_inequality(-q, t, d);
        assert((-q) * d == -(d * q)) by (nonlinear_arith);
    }
    if t < -q {
        lemma_mul_inequality(t, -q - 1, d);
        assert((-q - 1) * d == -(d * q) - d) by (nonlinear_arith);
    }
}

/// Existence half of the integer square root: every `n >= 0` has one.
pub proof fn lemma_isqrt_exists(n: int)
    requires
        n >= 0,
    ensures
        is_isqrt(n, isqrt(n)),
    decreases n,
{
    if n == 0 {
        assert(is_isqrt(0, 0));
    } else {
        lemma_isqrt_exists(n - 1);
        let r = choose|r: int| #[trigger] is_isqrt(n - 1, r);
        if (r + 1) * (r + 1) <= n {
            assert((r + 1) * (r + 1) > n - 1);
            assert((r + 2) * (r + 2) > n) by (nonlinear_arith)
                requires
                    (r + 1) * (r + 1) == n,
                    r >= 0,
            ;
            assert(is_isqrt(n, r + 1));
        } else {
            assert(is_isqrt(n, r));
        }
    }
}

/// Uniqueness half: two integer square roots of `n` agree, so `isqrt(n)`
/// is the one root whenever any witness is at hand.
pub proof fn lemma_isqrt_unique(n: int, r: int)
    requires
        is_isqrt(n, r),
    ensures
        isqrt(n) == r,
{
    lemma_isqrt_exists(n);
    let q = isqrt(n);
    assert(q == r) by (nonlinear_arith)
        requires
            0 <= r,
            r * r <= n < (r + 1) * (r + 1),
            0 <= q,
            q * q <= n < (q + 1) * (q + 1),
    ;
}

/// Integer square root by binary search on the answer.
pub fn isqrt_u128(n: u128) -> (r: u128)
    ensures
        is_isqrt(n as int, r as int),
        r == isqrt(n as int),
{
    let mut lo: u128 = 0;
    let mut hi: u128 = 1 << 64;
    assert((1u128 << 64) == 0x1_0000_0000_0000_0000u128) by (bit_vector);
    proof {
        assert((0x1_0000_0000_0000_0000 * 0x1_0000_0000_0000_0000) > u128::MAX);
    }
    while lo + 1 < hi
        invariant
            0 <= lo < hi <= 0x1_0000_0000_0000_0000,
            lo * lo <= n,
            hi * hi > n,
        decreases hi - lo,
    {
        let mid: u128 = lo + (hi - lo) / 2;
        assert(lo < mid < hi);
        assert(mid * mid < u128::MAX) by (nonlinear_arith)
            requires
                0 < mid < 0x1_0000_0000_0000_0000u128,
        ;
        if mid * mid <= n {
            lo = mid;
        } else {
            hi = mid;
        }
    }
    proof {
        assert((lo + 1) * (lo + 1) > n);
        lemma_isqrt_unique(n as int, lo as int);
    }
    lo
}

/// Clamp into `[lo, hi]`; mirrors how the library saturates scalars.
pub open spec fn clamped(lo: int, hi: int, v: int) -> int {
    if v < lo {
        lo
    } else if v > hi {
        hi
    } else {
        v
    }
}

} // verus!
