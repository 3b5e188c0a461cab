use nbody::fx::{fx_add, fx_div, fx_ln, fx_mul, fx_sqrt, LN2, MAXF, SCALE};
use nbody::vec::Vec2;

fn raw(x: f64) -> i128 {
    (x * 4294967296.0).round() as i128
}

#[test]
fn mul_exact_halves() {
    // 1.5 * 2.5 == 3.75 exactly in fixed point
    assert_eq!(fx_mul(raw(1.5), raw(2.5)), raw(3.75));
}

#[test]
fn mul_saturates() {
    assert_eq!(fx_mul(MAXF, MAXF), MAXF);
    assert_eq!(fx_mul(-MAXF, MAXF), -MAXF);
}

#[test]
fn div_exact() {
    assert_eq!(fx_div(raw(3.0), raw(2.0)), raw(1.5));
    // division by zero yields zero rather than trapping
    assert_eq!(fx_div(raw(3.0), 0), 0);
}

#[test]
fn add_saturates_at_bound() {
    assert_eq!(fx_add(MAXF, MAXF), MAXF);
    assert_eq!(fx_add(raw(1.0), raw(2.0)), raw(3.0));
}

#[test]
fn sqrt_of_perfect_squares() {
    assert_eq!(fx_sqrt(raw(4.0)), raw(2.0));
    assert_eq!(fx_sqrt(raw(1.0)), raw(1.0));
    assert_eq!(fx_sqrt(raw(0.25)), raw(0.5));
    assert_eq!(fx_sqrt(0), 0);
    assert_eq!(fx_sqrt(-5), 0);
}

#[test]
fn ln_of_powers_of_two() {
    assert_eq!(fx_ln(SCALE), 0);
    assert_eq!(fx_ln(2 * SCALE), LN2);
    assert_eq!(fx_ln(4 * SCALE), fx_mul(2 * SCALE, LN2));
    // halving subtracts ln 2
    assert_eq!(fx_ln(SCALE / 2), fx_mul(-SCALE, LN2));
}

#[test]
fn ln_interpolates_between_powers() {
    // 3.0 sits between 2 and 4: ln(3) ~ 1.0986 with the linear mantissa
    let v = fx_ln(raw(3.0)) as f64 / 4294967296.0;
    assert!(v > 0.9 && v < 1.2, "ln(3) approximation out of range: {v}");
}

#[test]
fn dot_product_exact() {
    let a = Vec2(raw(1.5), raw(2.0));
    let b = Vec2(raw(2.0), raw(-0.5));
    assert_eq!(a.dot(b), raw(2.0));
}

#[test]
fn inf_norm_picks_larger_magnitude() {
    let a = Vec2(raw(-3.0), raw(2.0));
    assert_eq!(a.inf_norm(), raw(3.0));
    let b = Vec2(raw(0.5), raw(-4.5));
    assert_eq!(b.inf_norm(), raw(4.5));
}

#[test]
fn vector_algebra_roundtrip() {
    let a = Vec2(raw(1.0), raw(-2.0));
    let b = Vec2(raw(0.25), raw(0.75));
    let s = a.add(b);
    assert_eq!(s, Vec2(raw(1.25), raw(-1.25)));
    assert_eq!(s.sub(b), a);
    assert_eq!(a.mul(raw(2.0)), Vec2(raw(2.0), raw(-4.0)));
    assert_eq!(a.div(raw(2.0)), Vec2(raw(0.5), raw(-1.0)));
    assert_eq!(a.neg(), Vec2(raw(-1.0), raw(2.0)));
    assert_eq!(Vec2::zero(), Vec2(0, 0));
}
