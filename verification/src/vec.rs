//! Two-dimensional fixed-point vectors.

use vstd::prelude::*;
use crate::fx;
use crate::fx::{in_range, sat, fmul, fdiv};

verus! {

/// A 2-D vector of fixed-point scalars.
#[derive(Clone, Copy, PartialEq, Eq, Structural, Debug)]
pub struct Vec2(pub i128, pub i128);

/// Both components within the saturation bound.
pub open spec fn v_in_range(v: Vec2) -> bool {
    in_range(v.0 as int) && in_range(v.1 as int)
}

/// Componentwise saturating sum.
pub open spec fn v_add(a: Vec2, b: Vec2) -> Vec2 {
    Vec2((sat(a.0 + b.0)) as i128, (sat(a.1 + b.1)) as i128)
}

/// Componentwise saturating difference.
pub open spec fn v_sub(a: Vec2, b: Vec2) -> Vec2 {
    Vec2((sat(a.0 - b.0)) as i128, (sat(a.1 - b.1)) as i128)
}

/// Scaling by a fixed-point scalar.
pub open spec fn v_mul(a: Vec2, k: int) -> Vec2 {
    Vec2(fmul(a.0 as int, k) as i128, fmul(a.1 as int, k) as i128)
}

/// Division by a fixed-point scalar.
pub open spec fn v_div(a: Vec2, k: int) -> Vec2 {
    Vec2(fdiv(a.0 as int, k) as i128, fdiv(a.1 as int, k) as i128)
}

/// Negation.
pub open spec fn v_neg(a: Vec2) -> Vec2 {
    Vec2((-a.0) as i128, (-a.1) as i128)
}

/// Saturating dot product.
pub open spec fn v_dot(a: Vec2, b: Vec2) -> int {
    sat(fmul(a.0 as int, b.0 as int) + fmul(a.1 as int, b.1 as int))
}

/// The infinity norm: the larger componentwise magnitude.
pub open spec fn v_inf_norm(a: Vec2) -> int {
    let m0 = if a.0 >= 0 { a.0 as int } else { -(a.0 as int) };
    let m1 = if a.1 >= 0 { a.1 as int } else { -(a.1 as int) };
    if m0 > m1 { m0 } else { m1 }
}

impl Vec2 {
    /// The all-zero vector.
    pub fn zero() -> (r: Vec2)
        ensures
            r == (Vec2(0, 0)),
    {
        Vec2(0, 0)
    }

    /// Componentwise saturating addition.
    pub fn add(self, rhs: Vec2) -> (r: Vec2)
        requires
            v_in_range(self),
            v_in_range(rhs),
        ensures
            r == v_add(self, rhs),
            v_in_range(r),
    {
        Vec2(fx::fx_add(self.0, rhs.0), fx::fx_add(self.1, rhs.1))
    }

    /// Componentwise saturating subtraction.
    pub fn sub(self, rhs: Vec2) -> (r: Vec2)
        requires
            v_in_range(self),
            v_in_range(rhs),
        ensures
            r == v_sub(self, rhs),
            v_in_range(r),
    {
        Vec2(fx::fx_sub(self.0, rhs.0), fx::fx_sub(self.1, rhs.1))
    }

    /// Scaling by a fixed-point scalar.
    pub fn mul(self, k: i128) -> (r: Vec2)
        requires
            v_in_range(self),
            in_range(k as int),
        ensures
            r == v_mul(self, k as int),
            v_in_range(r),
    {
        Vec2(fx::fx_mul(self.0, k), fx::fx_mul(self.1, k))
    }

    /// Division by a fixed-point scalar.
    pub fn div(self, k: i128) -> (r: Vec2)
        requires
            v_in_range(self),
        ensures
            r == v_div(self, k as int),
            v_in_range(r),
    {
        Vec2(fx::fx_div(self.0, k), fx::fx_div(self.1, k))
    }

    /// Negation.
    pub fn neg(self) -> (r: Vec2)
        requires
            v_in_range(self),
        ensures
            r == v_neg(self),
            v_in_range(r),
    {
        Vec2(fx::fx_neg(self.0), fx::fx_neg(self.1))
    }

    /// Saturating dot product.
    pub fn dot(&self, rhs: Vec2) -> (r: i128)
        requires
            v_in_range(*self),
            v_in_range(rhs),
        ensures
            r == v_dot(*self, rhs),
            in_range(r as int),
    {
        fx::fx_add(fx::fx_mul(self.0, rhs.0), fx::fx_mul(self.1, rhs.1))
    }

    /// The infinity norm.
    pub fn inf_norm(&self) -> (r: i128)
        requires
            v_in_range(*self),
        ensures
            r == v_inf_norm(*self),
            0 <= r,
            in_range(r as int),
    {
        let m0: i128 = if self.0 >= 0 { self.0 } else { -self.0 };
        let m1: i128 = if self.1 >= 0 { self.1 } else { -self.1 };
        if m0 > m1 { m0 } else { m1 }
    }
}

/// Negating both arguments leaves the dot product unchanged.
pub proof fn lemma_dot_neg(a: Vec2, b: Vec2)
    requires
        v_in_range(a),
        v_in_range(b),
    ensures
        v_dot(v_neg(a), v_neg(b)) == v_dot(a, b),
{
    assert((-a.0) * (-b.0) == a.0 * b.0) by (nonlinear_arith);
    assert((-a.1) * (-b.1) == a.1 * b.1) by (nonlinear_arith);
}

/// The sum of negated vectors is the negated sum.
pub proof fn lemma_add_neg(a: Vec2, b: Vec2)
    requires
        v_in_range(a),
        v_in_range(b),
    ensures
        v_add(v_neg(a), v_neg(b)) == v_neg(v_add(a, b)),
{
    fx::lemma_sat_neg(a.0 + b.0);
    fx::lemma_sat_neg(a.1 + b.1);
}

/// Scaling a negated vector negates the scaled vector.
pub proof fn lemma_mul_neg(a: Vec2, k: int)
    requires
        v_in_range(a),
    ensures
        v_mul(v_neg(a), k) == v_neg(v_mul(a, k)),
{
    fx::lemma_fmul_neg(a.0 as int, k);
    fx::lemma_fmul_neg(a.1 as int, k);
}

} // verus!
