//! Deterministic initial-condition generators.
//!
//! Positions are drawn from a seeded pseudo-random stream; the mapping from
//! drawn samples to bodies is verified, so a whole scenario is a function
//! of its seed and size.

use vstd::prelude::*;
use rand::{RngExt, SeedableRng};
use crate::fx::{SCALE, tdiv};
use crate::node::{Body, sum_mass_upto, wf_bodies, wf_body};
use crate::vec::Vec2;

verus! {

/// Largest body count a generator accepts: with unit masses the total mass
/// then reaches the mass cap exactly.
pub const MAX_BODIES: usize = 1048576;

/// The stream of `n` samples that the seeded generator draws for `seed`.
pub uninterp spec fn sample_stream(seed: u64, n: nat) -> Seq<u32>;

/// Relies on rand's `StdRng`: seeded through `SeedableRng::seed_from_u64`
/// and drawn through `RngExt::random::<u32>`, the sample sequence is a
/// function of the seed and the count alone.
#[verifier::external_body]
pub(crate) fn draw_samples(seed: u64, n: usize) -> (r: Vec<u32>)
    ensures
        r@.len() == n,
        r@ == sample_stream(seed, n as nat),
{
    let mut rng = rand::rngs::StdRng::seed_from_u64(seed);
    let mut v = Vec::with_capacity(n);
    for _ in 0..n {
        v.push(rng.random::<u32>());
    }
    v
}

/// A mass-one body at rest whose position coordinates are two raw samples,
/// each covering `[0, 1)`.
pub open spec fn uniform_body_s(stream: Seq<u32>, i: int) -> Body {
    Body {
        x: Vec2(stream[2 * i] as i128, stream[2 * i + 1] as i128),
        v: Vec2(0, 0),
        a: Vec2(0, 0),
        m: SCALE,
    }
}

/// The uniform-square scenario: `n` mass-one bodies at rest, uniform over
/// the unit square.
pub open spec fn uniform_bodies_s(seed: u64, n: nat) -> Seq<Body> {
    Seq::new(n, |i: int| uniform_body_s(sample_stream(seed, 2 * n), i))
}

/// A mass-one body at rest for the two-square collision scenario: the
/// first half sits in `[0, 0.5)^2`, the second half in `[0.5, 1)^2`.
pub open spec fn collision_body_s(stream: Seq<u32>, i: int, n: int) -> Body {
    let sx = stream[2 * i] as int;
    let sy = stream[2 * i + 1] as int;
    let x = if i < n / 2 {
        Vec2((tdiv(sx, 2)) as i128, (tdiv(sy, 2)) as i128)
    } else {
        Vec2((tdiv(SCALE + sx, 2)) as i128, (tdiv(SCALE + sy, 2)) as i128)
    };
    Body { x: x, v: Vec2(0, 0), a: Vec2(0, 0), m: SCALE }
}

/// The two-square collision scenario.
pub open spec fn collision_bodies_s(seed: u64, n: nat) -> Seq<Body> {
    Seq::new(n, |i: int| collision_body_s(sample_stream(seed, 2 * n), i, n as int))
}

/// A sequence of mass-one bodies has total mass exactly its length.
pub proof fn lemma_sum_mass_const(bs: Seq<Body>, n: int)
    requires
        0 <= n <= bs.len(),
        forall|i: int| 0 <= i < bs.len() ==> (#[trigger] bs[i].m) == SCALE,
    ensures
        sum_mass_upto(bs, n) == n * SCALE,
    decreases n,
{
    if n > 0 {
        lemma_sum_mass_const(bs, n - 1);
        assert(n * SCALE == (n - 1) * SCALE + SCALE) by (nonlinear_arith);
    }
}

/// `n` mass-one bodies at rest, uniform over the unit square, determined
/// by `seed`.
pub fn simple_square(n: usize, seed: u64) -> (r: Vec<Body>)
    requires
        n <= MAX_BODIES,
    ensures
        r@ == uniform_bodies_s(seed, n as nat),
        r@.len() == n,
        wf_bodies(r@),
        sum_mass_upto(r@, n as int) == n * SCALE,
        forall|i: int|
            0 <= i < n ==> (#[trigger] r@[i]).m == SCALE && r@[i].v == (Vec2(0, 0)) && r@[i].a
                == (Vec2(0, 0)) && 0 <= r@[i].x.0 < SCALE && 0 <= r@[i].x.1 < SCALE,
{
    let samples = draw_samples(seed, 2 * n);
    let mut out: Vec<Body> = Vec::new();
    let ghost stream = samples@;
    let mut i: usize = 0;
    while i < n
        invariant
            0 <= i <= n,
            n <= MAX_BODIES,
            stream == sample_stream(seed, (2 * n) as nat),
            stream.len() == 2 * n,
            samples@ == stream,
            out@.len() == i,
            forall|j: int| 0 <= j < i ==> (#[trigger] out@[j]) == uniform_body_s(stream, j),
        decreases n - i,
    {
        let sx = samples[2 * i];
        let sy = samples[2 * i + 1];
        out.push(
            Body { x: Vec2(sx as i128, sy as i128), v: Vec2::zero(), a: Vec2::zero(), m: SCALE },
        );
        i = i + 1;
    }
    proof {
        assert(out@ =~= uniform_bodies_s(seed, n as nat));
        assert forall|i2: int| 0 <= i2 < n implies wf_body(#[trigger] out@[i2]) by {
            assert(out@[i2] == uniform_body_s(stream, i2));
        }
        lemma_sum_mass_const(out@, n as int);
    }
    out
}

/// Half the fixed-point unit: the raw value of 0.5.
pub const HALF: i128 = 2147483648;

/// The raw value of 1.2, the y offset of the upper square before halving.
pub const UPPER_Y: i128 = 5153960755;

/// The downward speed of the upper square, 4000 in fixed point.
pub const FALL_SPEED: i128 = 17179869184000;

/// A mass-one body for the falling-square scenario: the first half sits at
/// rest in `[0, 0.5)^2`, the second half spans `[0.25, 0.75) x [0.6, 1.1)`
/// and falls with speed `FALL_SPEED`.
pub open spec fn falling_body_s(stream: Seq<u32>, i: int, n: int) -> Body {
    let sx = stream[2 * i] as int;
    let sy = stream[2 * i + 1] as int;
    if i < n / 2 {
        Body {
            x: Vec2((tdiv(sx, 2)) as i128, (tdiv(sy, 2)) as i128),
            v: Vec2(0, 0),
            a: Vec2(0, 0),
            m: SCALE,
        }
    } else {
        Body {
            x: Vec2((tdiv(HALF + sx, 2)) as i128, (tdiv(UPPER_Y + sy, 2)) as i128),
            v: Vec2(0, (-FALL_SPEED) as i128),
            a: Vec2(0, 0),
            m: SCALE,
        }
    }
}

/// The falling-square collision scenario.
pub open spec fn falling_bodies_s(seed: u64, n: nat) -> Seq<Body> {
    Seq::new(n, |i: int| falling_body_s(sample_stream(seed, 2 * n), i, n as int))
}

/// Two `n/2`-body squares: one at rest in the lower-left quarter of the
/// unit square, one above it falling downward, determined by `seed`.
pub fn square_collision(n: usize, seed: u64) -> (r: Vec<Body>)
    requires
        n <= MAX_BODIES,
    ensures
        r@ == falling_bodies_s(seed, n as nat),
        r@.len() == n,
        wf_bodies(r@),
        sum_mass_upto(r@, n as int) == n * SCALE,
{
    let samples = draw_samples(seed, 2 * n);
    let mut out: Vec<Body> = Vec::new();
    let ghost stream = samples@;
    let mut i: usize = 0;
    while i < n
        invariant
            0 <= i <= n,
            n <= MAX_BODIES,
            stream == sample_stream(seed, (2 * n) as nat),
            stream.len() == 2 * n,
            samples@ == stream,
            out@.len() == i,
            forall|j: int| 0 <= j < i ==> (#[trigger] out@[j]) == falling_body_s(stream, j, n as int),
        decreases n - i,
    {
        let sx = samples[2 * i] as i128;
        let sy = samples[2 * i + 1] as i128;
        let b = if i < n / 2 {
            Body { x: Vec2(sx / 2, sy / 2), v: Vec2::zero(), a: Vec2::zero(), m: SCALE }
        } else {
            Body {
                x: Vec2((HALF + sx) / 2, (UPPER_Y + sy) / 2),
                v: Vec2(0, -FALL_SPEED),
                a: Vec2::zero(),
                m: SCALE,
            }
        };
        out.push(b);
        i = i + 1;
    }
    proof {
        assert(out@ =~= falling_bodies_s(seed, n as nat));
        assert forall|i2: int| 0 <= i2 < n implies wf_body(#[trigger] out@[i2]) by {
            assert(out@[i2] == falling_body_s(stream, i2, n as int));
        }
        lemma_sum_mass_const(out@, n as int);
    }
    out
}

} // verus!
