//! Saturating fixed-point scalars.
//!
//! A scalar is an `i128` raw value standing for the rational `raw / SCALE`.
//! Every operation saturates at `MAXF`, so arithmetic is total on the
//! in-range values and every contract states the exact integer result.

use vstd::prelude::*;
use vstd::arithmetic::power2::pow2;

verus! {

/// Raw value of 1.0: the fixed-point scale factor, 2^32.
pub const SCALE: i128 = 4294967296;

/// Saturation bound, 2^62. Values are kept in [-MAXF, MAXF]; reaching the
/// bound plays the role a float infinity plays elsewhere.
pub const MAXF: i128 = 4611686018427387904;

/// Cap on the total mass of a system, 2^52 raw units. Together with `MAXF`
/// it keeps every mass-weighted position sum inside `i128`.
pub const MASS_CAP: i128 = 4503599627370496;

/// A raw value within the saturation bound.
pub open spec fn in_range(a: int) -> bool {
    -MAXF <= a <= MAXF
}

/// Clamp to the saturation bound.
pub open spec fn sat(a: int) -> int {
    if a > MAXF {
        MAXF as int
    } else if a < -MAXF {
        -(MAXF as int)
    } else {
        a
    }
}

/// Truncated (round-toward-zero) division; meaningful for `b > 0`.
pub open spec fn tdiv(a: int, b: int) -> int {
    if a >= 0 {
        a / b
    } else {
        -((-a) / b)
    }
}

/// Fixed-point product: exact integer product, rescaled and clamped.
pub open spec fn fmul(a: int, b: int) -> int {
    sat(tdiv(a * b, SCALE as int))
}

/// Fixed-point quotient for a positive divisor; 0 on other divisors.
pub open spec fn fdiv(a: int, b: int) -> int {
    if b <= 0 {
        0
    } else {
        sat(tdiv(a * SCALE, b))
    }
}

/// The integer square root: the unique r with r^2 <= x < (r+1)^2.
pub open spec fn sqrt_floor(x: int) -> int {
    choose|r: int| r >= 0 && #[trigger] (r * r) <= x && x < (r + 1) * (r + 1)
}

/// Fixed-point square root of a non-negative value; 0 on negatives.
pub open spec fn fsqrt(a: int) -> int {
    if a <= 0 {
        0
    } else {
        sqrt_floor(a * SCALE)
    }
}

/// Truncated division is odd in its dividend.
pub proof fn lemma_tdiv_neg(a: int, b: int)
    requires
        b > 0,
    ensures
        tdiv(-a, b) == -tdiv(a, b),
{
    if a == 0 {
        assert(0int / b == 0) by (nonlinear_arith)
            requires
                b > 0,
        ;
    }
}

/// Clamping is odd.
pub proof fn lemma_sat_neg(a: int)
    ensures
        sat(-a) == -sat(a),
{
}

/// The fixed-point product is odd in its first argument.
pub proof fn lemma_fmul_neg(a: int, b: int)
    ensures
        fmul(-a, b) == -fmul(a, b),
{
    assert((-a) * b == -(a * b)) by (nonlinear_arith);
    lemma_tdiv_neg(a * b, SCALE as int);
    lemma_sat_neg(tdiv(a * b, SCALE as int));
}

/// A product of bounded factors is bounded by the product of the bounds.
pub proof fn lemma_mul_bound(a: int, b: int, ca: int, cb: int)
    requires
        -ca <= a <= ca,
        -cb <= b <= cb,
    ensures
        -(ca * cb) <= a * b <= ca * cb,
{
    assert(-(ca * cb) <= a * b <= ca * cb) by (nonlinear_arith)
        requires
            -ca <= a <= ca,
            -cb <= b <= cb,
    ;
}

/// Truncated division shrinks the magnitude of the dividend.
pub proof fn lemma_tdiv_mag(a: int, b: int)
    requires
        b > 0,
    ensures
        a >= 0 ==> 0 <= tdiv(a, b) <= a,
        a < 0 ==> a <= tdiv(a, b) <= 0,
{
    if a >= 0 {
        assert(0 <= a / b <= a) by (nonlinear_arith)
            requires
                b > 0,
                a >= 0,
        ;
    } else {
        assert(0 <= (-a) / b <= -a) by (nonlinear_arith)
            requires
                b > 0,
                a < 0,
        ;
    }
}

/// A truncated quotient of a sum bounded by `b * c` is bounded by `c`.
pub proof fn lemma_tdiv_quotient_bound(a: int, b: int, c: int)
    requires
        b > 0,
        c >= 0,
        -(b * c) <= a <= b * c,
    ensures
        -c <= tdiv(a, b) <= c,
{
    if a >= 0 {
        assert(a / b <= c) by (nonlinear_arith)
            requires
                b > 0,
                c >= 0,
                a <= b * c,
                a >= 0,
        ;
        assert(a / b >= 0) by (nonlinear_arith)
            requires
                b > 0,
                a >= 0,
        ;
    } else {
        assert((-a) / b <= c) by (nonlinear_arith)
            requires
                b > 0,
                c >= 0,
                -a <= b * c,
                -a >= 0,
        ;
        assert((-a) / b >= 0) by (nonlinear_arith)
            requires
                b > 0,
                -a >= 0,
        ;
    }
}

/// Truncated division loses less than one divisor's worth of dividend.
pub proof fn lemma_tdiv_rem(p: int, b: int)
    requires
        b > 0,
    ensures
        -b < b * tdiv(p, b) - p < b,
{
    if p >= 0 {
        vstd::arithmetic::div_mod::lemma_fundamental_div_mod(p, b);
        vstd::arithmetic::div_mod::lemma_mod_bound(p, b);
    } else {
        vstd::arithmetic::div_mod::lemma_fundamental_div_mod(-p, b);
        vstd::arithmetic::div_mod::lemma_mod_bound(-p, b);
        assert(b * (-((-p) / b)) == -(b * ((-p) / b))) by (nonlinear_arith);
    }
}

/// Truncated division cancels an exact multiple.
pub proof fn lemma_tdiv_mul_exact(v: int, m: int)
    requires
        m > 0,
    ensures
        tdiv(m * v, m) == v,
{
    if m * v >= 0 {
        vstd::arithmetic::div_mod::lemma_div_multiples_vanish(v, m);
        assert(v >= 0) by (nonlinear_arith)
            requires
                m > 0,
                m * v >= 0,
        ;
    } else {
        assert(-(m * v) == m * (-v)) by (nonlinear_arith);
        vstd::arithmetic::div_mod::lemma_div_multiples_vanish(-v, m);
    }
}

/// The fixed-point product of non-negative values is non-negative.
pub proof fn lemma_fmul_nonneg(a: int, b: int)
    requires
        a >= 0,
        b >= 0,
    ensures
        fmul(a, b) >= 0,
{
    assert(a * b >= 0) by (nonlinear_arith)
        requires
            a >= 0,
            b >= 0,
    ;
    lemma_tdiv_mag(a * b, SCALE as int);
}

/// The fixed-point quotient of a non-negative value is non-negative.
pub proof fn lemma_fdiv_nonneg(a: int, b: int)
    requires
        a >= 0,
    ensures
        fdiv(a, b) >= 0,
{
    if b > 0 {
        assert(a * SCALE >= 0) by (nonlinear_arith)
            requires
                a >= 0,
                SCALE > 0,
        ;
        lemma_tdiv_mag(a * SCALE, b);
    }
}

/// Two weighted sums bounded by their masses stay bounded by the summed
/// mass.
pub proof fn lemma_wsum_add(m1: int, w1: int, m2: int, w2: int)
    requires
        0 <= m1,
        0 <= m2,
        -(m1 * MAXF) <= w1 <= m1 * MAXF,
        -(m2 * MAXF) <= w2 <= m2 * MAXF,
    ensures
        -((m1 + m2) * MAXF) <= w1 + w2 <= (m1 + m2) * MAXF,
{
    assert((m1 + m2) * MAXF == m1 * MAXF + m2 * MAXF) by (nonlinear_arith);
}

/// A weighted sum bounded by a capped mass fits comfortably in `i128`.
pub proof fn lemma_wsum_fits(m: int, w: int)
    requires
        0 <= m <= MASS_CAP,
        -(m * MAXF) <= w <= m * MAXF,
    ensures
        -(MASS_CAP * MAXF) <= w <= MASS_CAP * MAXF,
        i128::MIN < w < i128::MAX,
{
    assert(m * MAXF <= MASS_CAP * MAXF) by (nonlinear_arith)
        requires
            0 <= m <= MASS_CAP,
            MAXF > 0,
    ;
    assert(MASS_CAP * MAXF < i128::MAX) by (nonlinear_arith)
        requires
            MASS_CAP == 4503599627370496i128,
            MAXF == 4611686018427387904i128,
    ;
}

/// Raw value of the natural logarithm of two.
pub const LN2: i128 = 2977044472;

/// Repeated doubling of a value below the scale until one more doubling
/// would reach it: returns the doubled mantissa and the (negative)
/// exponent consumed.
pub open spec fn norm_up(m: int) -> (int, int)
    decreases SCALE - m,
    when 0 < m < SCALE
{
    if 2 * m >= SCALE {
        (2 * m, -1)
    } else {
        let r = norm_up(2 * m);
        (r.0, r.1 - 1)
    }
}

/// Repeated halving of a value until it drops below twice the scale:
/// returns the mantissa and the exponent consumed.
pub open spec fn norm_down(m: int) -> (int, int)
    decreases m,
    when 0 < m
{
    if m < 2 * SCALE {
        (m, 0)
    } else {
        let r = norm_down(tdiv(m, 2));
        (r.0, r.1 + 1)
    }
}

/// The fixed-point logarithm: the base-2 exponent with the mantissa
/// interpolated linearly between powers of two, scaled by ln 2; zero on
/// non-positive input.
pub open spec fn ln_s(x: int) -> int {
    if x <= 0 {
        0
    } else {
        let u = if x >= SCALE {
            (x, 0int)
        } else {
            norm_up(x)
        };
        let d = norm_down(u.0);
        fmul((u.1 + d.1) * SCALE + (d.0 - SCALE), LN2 as int)
    }
}

/// Exec form of `ln_s`.
pub fn fx_ln(x: i128) -> (r: i128)
    requires
        in_range(x as int),
    ensures
        r == ln_s(x as int),
        in_range(r as int),
{
    if x <= 0 {
        return 0;
    }
    let mut m: i128 = x;
    let mut k: i128 = 0;
    proof {
        vstd::arithmetic::power2::lemma2_to64();
    }
    if m < SCALE {
        let ghost target = norm_up(x as int);
        while 2 * m < SCALE
            invariant
                0 < m < SCALE,
                -33 <= k <= 0,
                pow2((-k) as nat) <= m,
                0 < x < SCALE,
                target == norm_up(x as int),
                norm_up(m as int) == (target.0, target.1 - k),
            decreases SCALE - m,
        {
            proof {
                vstd::arithmetic::power2::lemma2_to64();
                if -k >= 32 {
                    if -k > 32 {
                        vstd::arithmetic::power2::lemma_pow2_strictly_increases(
                            32,
                            (-k) as nat,
                        );
                    }
                    assert(pow2((-k) as nat) >= 0x100000000);
                    assert(false);
                }
                vstd::arithmetic::power2::lemma_pow2_unfold((1 - k) as nat);
            }
            m = 2 * m;
            k = k - 1;
        }
        proof {
            assert(norm_up(m as int) == (2 * (m as int), -1int));
        }
        m = 2 * m;
        k = k - 1;
        assert(m == norm_up(x as int).0 && k == norm_up(x as int).1);
    }
    assert(m >= SCALE && m < 2 * SCALE || (x >= SCALE && m == x));
    assert(-34 <= k <= 0);
    let ghost target_d = norm_down(m as int);
    let ghost m_mid = m as int;
    proof {
        assert((pow2(0) as int) * (m as int) == m as int) by (nonlinear_arith)
            requires
                pow2(0) == 1,
        ;
    }
    let mut j: i128 = 0;
    while m >= 2 * SCALE
        invariant
            SCALE <= m,
            0 <= j <= 64,
            m_mid <= MAXF,
            (pow2(j as nat) as int) * (m as int) <= m_mid,
            target_d == norm_down(m_mid),
            norm_down(m as int) == (target_d.0, target_d.1 - j),
        decreases m,
    {
        proof {
            vstd::arithmetic::power2::lemma2_to64();
            assert((pow2(j as nat) as int) * (m as int) >= (pow2(j as nat) as int) * (
            SCALE as int)) by (nonlinear_arith)
                requires
                    m >= SCALE,
                    pow2(j as nat) >= 0,
            ;
            if j >= 31 {
                if j > 31 {
                    vstd::arithmetic::power2::lemma_pow2_strictly_increases(31, j as nat);
                }
                assert(pow2(j as nat) >= 0x80000000);
                assert((pow2(j as nat) as int) * (SCALE as int) > MAXF) by (nonlinear_arith)
                    requires
                        pow2(j as nat) >= 0x80000000,
                        SCALE == 4294967296i128,
                        MAXF == 4611686018427387904i128,
                ;
                assert(false);
            }
            lemma_tdiv_mag(m as int, 2);
            vstd::arithmetic::power2::lemma_pow2_unfold((j + 1) as nat);
            assert((pow2((j + 1) as nat) as int) * (tdiv(m as int, 2)) <= (pow2(
                j as nat,
            ) as int) * (m as int)) by (nonlinear_arith)
                requires
                    pow2((j + 1) as nat) == 2 * pow2(j as nat),
                    2 * tdiv(m as int, 2) <= m,
                    tdiv(m as int, 2) >= 0,
                    pow2(j as nat) >= 0,
            ;
        }
        m = tdiv_i(m, 2);
        j = j + 1;
    }
    assert(norm_down(m as int) == (m as int, 0int));
    assert(m == target_d.0 && j == target_d.1);
    assert(SCALE <= m && m < 2 * SCALE);
    assert(0 <= j <= 64);
    let e: i128 = (k + j) * SCALE + (m - SCALE);
    fx_mul(e, LN2)
}

/// Clamp a raw value to the saturation bound.
pub fn sat_i(a: i128) -> (r: i128)
    ensures
        r == sat(a as int),
        in_range(r as int),
{
    if a > MAXF {
        MAXF
    } else if a < -MAXF {
        -MAXF
    } else {
        a
    }
}

/// Truncated division for a positive divisor.
pub fn tdiv_i(a: i128, b: i128) -> (r: i128)
    requires
        b > 0,
        a > i128::MIN,
    ensures
        r == tdiv(a as int, b as int),
{
    if a >= 0 {
        a / b
    } else {
        -((-a) / b)
    }
}

/// Saturating addition.
pub fn fx_add(a: i128, b: i128) -> (r: i128)
    requires
        in_range(a as int),
        in_range(b as int),
    ensures
        r == sat(a + b),
        in_range(r as int),
{
    sat_i(a + b)
}

/// Saturating subtraction.
pub fn fx_sub(a: i128, b: i128) -> (r: i128)
    requires
        in_range(a as int),
        in_range(b as int),
    ensures
        r == sat(a - b),
        in_range(r as int),
{
    sat_i(a - b)
}

/// Negation; exact on in-range values.
pub fn fx_neg(a: i128) -> (r: i128)
    requires
        in_range(a as int),
    ensures
        r == -a,
        in_range(r as int),
{
    -a
}

/// Saturating fixed-point multiplication.
pub fn fx_mul(a: i128, b: i128) -> (r: i128)
    requires
        in_range(a as int),
        in_range(b as int),
    ensures
        r == fmul(a as int, b as int),
        in_range(r as int),
{
    proof {
        lemma_mul_bound(a as int, b as int, MAXF as int, MAXF as int);
    }
    let p: i128 = a * b;
    proof {
        lemma_tdiv_mag(p as int, SCALE as int);
    }
    let q: i128 = tdiv_i(p, SCALE);
    sat_i(q)
}

/// Saturating fixed-point division; 0 when the divisor is not positive.
pub fn fx_div(a: i128, b: i128) -> (r: i128)
    requires
        in_range(a as int),
    ensures
        r == fdiv(a as int, b as int),
        in_range(r as int),
{
    if b <= 0 {
        0
    } else {
        proof {
            lemma_mul_bound(a as int, SCALE as int, MAXF as int, SCALE as int);
        }
        let p: i128 = a * SCALE;
        proof {
            lemma_tdiv_mag(p as int, b as int);
        }
        let q: i128 = tdiv_i(p, b);
        sat_i(q)
    }
}

/// Halve a value; exact truncated division by two.
pub fn fx_half(a: i128) -> (r: i128)
    requires
        in_range(a as int),
    ensures
        r == tdiv(a as int, 2),
        in_range(r as int),
{
    proof {
        lemma_tdiv_mag(a as int, 2);
    }
    tdiv_i(a, 2)
}

/// The unique integer square root is pinned by its bracketing property.
pub proof fn lemma_sqrt_unique(x: int, r: int)
    requires
        r >= 0,
        r * r <= x,
        x < (r + 1) * (r + 1),
    ensures
        sqrt_floor(x) == r,
{
    let c = sqrt_floor(x);
    assert(c >= 0 && c * c <= x && x < (c + 1) * (c + 1));
    if c < r {
        assert((c + 1) * (c + 1) <= r * r) by (nonlinear_arith)
            requires
                0 <= c,
                c < r,
        ;
    }
    if r < c {
        assert((r + 1) * (r + 1) <= c * c) by (nonlinear_arith)
            requires
                0 <= r,
                r < c,
        ;
    }
}

/// Integer square root by bisection.
fn isqrt(x: i128) -> (r: i128)
    requires
        0 <= x,
        x <= MAXF * SCALE,
    ensures
        r >= 0,
        r * r <= x,
        x < (r + 1) * (r + 1),
        r == sqrt_floor(x as int),
{
    let mut lo: i128 = 0;
    let mut hi: i128 = 140737488355329;
    assert(x < hi * hi) by (nonlinear_arith)
        requires
            x <= MAXF * SCALE,
            hi == 140737488355329i128,
    ;
    while lo + 1 < hi
        invariant
            0 <= lo < hi,
            hi <= 140737488355329,
            lo * lo <= x,
            x < hi * hi,
        decreases hi - lo,
    {
        let mid: i128 = lo + (hi - lo) / 2;
        assert(lo < mid < hi);
        assert(mid * mid <= 140737488355329i128 * 140737488355329i128) by (nonlinear_arith)
            requires
                0 <= mid,
                mid <= 140737488355329i128,
        ;
        let sq: i128 = mid * mid;
        if sq <= x {
            lo = mid;
        } else {
            hi = mid;
        }
    }
    proof {
        lemma_sqrt_unique(x as int, lo as int);
    }
    lo
}

/// Saturating fixed-point square root; 0 on non-positive input.
pub fn fx_sqrt(a: i128) -> (r: i128)
    requires
        in_range(a as int),
    ensures
        r == fsqrt(a as int),
        0 <= r,
        in_range(r as int),
{
    if a <= 0 {
        0
    } else {
        assert(a * SCALE <= MAXF * SCALE) by (nonlinear_arith)
            requires
                a <= MAXF,
                SCALE > 0,
        ;
        assert(a * SCALE >= 0) by (nonlinear_arith)
            requires
                a >= 0,
                SCALE > 0,
        ;
        let r = isqrt(a * SCALE);
        assert(r <= MAXF) by (nonlinear_arith)
            requires
                r >= 0,
                r * r <= MAXF * SCALE,
                MAXF == 4611686018427387904i128,
                SCALE == 4294967296i128,
        ;
        r
    }
}

} // verus!
