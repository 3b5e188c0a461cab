//! Simulation configuration, errors, and the per-step driver.

use vstd::prelude::*;
use crate::fx;
use crate::fx::{fmul, in_range, tdiv, MAXF, MASS_CAP, SCALE};
use crate::vec::{Vec2, v_add, v_mul};
use crate::node::{
    Body, Section, accel_of, advance_all, advance_s, agg_com, attracted_s, bounding_s,
    built_quadrant_s, lemma_sum_mass_same, new_s, opt_contrib, par_add_s, position_s, samples,
    sum_mass, wf_bodies, wf_body,
};

verus! {

/// Errors surfaced by the simulation core.
#[derive(Clone, Copy, PartialEq, Eq, Structural, Debug)]
pub enum SimError {
    /// Bounding or building was asked to work on zero bodies.
    EmptyInput,
    /// A position or velocity reached the saturation bound.
    NonFiniteState,
    /// A configuration field is outside its accepted range.
    ConfigInvalid,
}

/// The initial-condition generator to run.
#[derive(Clone, Copy, PartialEq, Eq, Structural, Debug)]
pub enum Scenario {
    Uniform,
    TwoSquare,
    Disk,
    GalaxyCollision,
}

/// Simulation configuration. `dt`, `theta` and `softening` are fixed-point
/// scalars; `softening` is a length and is squared before use.
#[derive(Clone, Copy, PartialEq, Eq, Structural, Debug)]
pub struct Config {
    pub n: usize,
    pub dt: i128,
    pub theta: i128,
    pub softening: i128,
    pub dim: u32,
    pub seed: u64,
    pub scenario: Scenario,
    pub workers: usize,
}

/// A configuration is accepted exactly when the opening parameter and the
/// time step are positive, there is at least one body and one worker, and
/// the dimension is two or three.
pub open spec fn config_ok(c: Config) -> bool {
    &&& c.theta > 0
    &&& c.dt > 0
    &&& c.n > 0
    &&& (c.dim == 2 || c.dim == 3)
    &&& c.softening >= 0
    &&& c.workers > 0
}

/// The tree one step builds over the current bodies: the bounding cell,
/// filled by the parallel build.
pub open spec fn step_tree_s(bs: Seq<Body>) -> Section {
    par_add_s(bounding_s(bs), bs)
}

/// One full simulation step as a mathematical function of the body
/// sequence: build the tree, add its acceleration onto every body, then
/// advance every body.
pub open spec fn step_bodies_s(bs: Seq<Body>, dt: int, th_sq: int, soft_sq: int) -> Seq<Body> {
    let tree = step_tree_s(bs);
    Seq::new(bs.len(), |i: int| advance_s(attracted_s(tree, bs[i], th_sq, soft_sq), dt))
}

/// A body whose position and velocity are strictly inside the saturation
/// bound; a component at the bound is the fixed-point analogue of an
/// infinity.
pub open spec fn finite_body(b: Body) -> bool {
    &&& -MAXF < b.x.0 < MAXF
    &&& -MAXF < b.x.1 < MAXF
    &&& -MAXF < b.v.0 < MAXF
    &&& -MAXF < b.v.1 < MAXF
}

/// All bodies of a sequence are finite.
pub open spec fn all_finite(bs: Seq<Body>) -> bool {
    forall|i: int| 0 <= i < bs.len() ==> finite_body(#[trigger] bs[i])
}

/// Run one simulation step over the bodies.
///
/// With no bodies, fails with `EmptyInput` and changes nothing. Otherwise
/// the bodies become exactly `step_bodies_s` of their old value; the step
/// reports `NonFiniteState` exactly when some position or velocity has
/// reached the saturation bound.
pub fn step(bodies: &mut Vec<Body>, dt: i128, th_sq: i128, soft_sq: i128) -> (r: Result<
    (),
    SimError,
>)
    requires
        wf_bodies(old(bodies)@),
        sum_mass(old(bodies)@) <= MASS_CAP,
        in_range(dt as int),
        in_range(th_sq as int),
        in_range(soft_sq as int),
    ensures
        old(bodies)@.len() == 0 ==> r == Result::<(), SimError>::Err(SimError::EmptyInput)
            && final(bodies)@ == old(bodies)@,
        old(bodies)@.len() > 0 ==> final(bodies)@ == step_bodies_s(
            old(bodies)@,
            dt as int,
            th_sq as int,
            soft_sq as int,
        ) && (r == Result::<(), SimError>::Ok(()) <==> all_finite(final(bodies)@)) && (!(r
            == Result::<(), SimError>::Ok(())) ==> r == Result::<(), SimError>::Err(
            SimError::NonFiniteState,
        )),
        final(bodies)@.len() == old(bodies)@.len(),
        wf_bodies(final(bodies)@),
        sum_mass(final(bodies)@) == sum_mass(old(bodies)@),
        forall|i: int|
            0 <= i < old(bodies)@.len() ==> final(bodies)@[i].m == #[trigger] old(
                bodies,
            )@[i].m,
{
    let ghost bs0 = bodies@;
    let mut tree = match Section::containing(bodies) {
        Err(e) => {
            return Err(e);
        },
        Ok(s) => s,
    };
    tree.parallel_add(bodies);
    let ghost t = tree;
    tree.compute(bodies, th_sq, soft_sq);
    let ghost bs1 = bodies@;
    proof {
        assert forall|i: int| 0 <= i < bs1.len() implies wf_body(#[trigger] bs1[i]) by {
            assert(bs1[i] == attracted_s(t, bs0[i], th_sq as int, soft_sq as int));
            assert(wf_body(bs0[i]));
        }
    }
    advance_all(bodies, dt);
    let ghost bs2 = bodies@;
    proof {
        assert forall|i: int| 0 <= i < bs2.len() implies wf_body(#[trigger] bs2[i]) by {
            assert(bs2[i] == advance_s(bs1[i], dt as int));
            assert(wf_body(bs1[i]));
        }
        assert(bs2 =~= step_bodies_s(bs0, dt as int, th_sq as int, soft_sq as int));
        assert(forall|i: int| 0 <= i < bs0.len() ==> bs0[i].m == #[trigger] bs2[i].m);
        lemma_sum_mass_same(bs2, bs0, bs2.len() as int);
    }
    let n = bodies.len();
    let mut ok = true;
    let mut i: usize = 0;
    while i < n
        invariant
            0 <= i <= n,
            n == bodies@.len(),
            bodies@ == bs2,
            ok <==> (forall|j: int| 0 <= j < i ==> finite_body(#[trigger] bs2[j])),
        decreases n - i,
    {
        let b = &bodies[i];
        if !(b.x.0 > -MAXF && b.x.0 < MAXF && b.x.1 > -MAXF && b.x.1 < MAXF && b.v.0 > -MAXF
            && b.v.0 < MAXF && b.v.1 > -MAXF && b.v.1 < MAXF) {
            ok = false;
        }
        i = i + 1;
    }
    if ok {
        Ok(())
    } else {
        Err(SimError::NonFiniteState)
    }
}

/// Mass and center-of-mass conservation for the tree a step builds: the
/// root's total mass is exactly the sum of the body masses, its weighted
/// sums are exactly the mass-weighted position sums, and its center of
/// mass is their single truncated quotient.
pub proof fn lemma_step_tree_conservation(bs: Seq<Body>)
    requires
        wf_bodies(bs),
        bs.len() > 0,
        sum_mass(bs) <= MASS_CAP,
    ensures
        step_tree_s(bs).total_mass == sum_mass(bs),
        step_tree_s(bs).wx == crate::node::wsum_x_upto(bs, bs.len() as int),
        step_tree_s(bs).wy == crate::node::wsum_y_upto(bs, bs.len() as int),
        step_tree_s(bs).com == agg_com(
            crate::node::wsum_x_upto(bs, bs.len() as int),
            crate::node::wsum_y_upto(bs, bs.len() as int),
            sum_mass(bs),
        ),
        crate::node::wf_tree(step_tree_s(bs)),
        crate::node::aggregated(step_tree_s(bs)),
{
    crate::node::lemma_bounding_wf(bs);
    crate::node::lemma_tree_conservation(bounding_s(bs), bs);
}

/// Determinism: a step is a mathematical function of the bodies and the
/// parameters, so equal inputs give bitwise equal successor states.
pub proof fn lemma_step_deterministic(
    a: Seq<Body>,
    b: Seq<Body>,
    dt: int,
    th_sq: int,
    soft_sq: int,
)
    requires
        a == b,
    ensures
        step_bodies_s(a, dt, th_sq, soft_sq) == step_bodies_s(b, dt, th_sq, soft_sq),
{
}

/// A single body: the built tree holds exactly its one sample, it exerts
/// no force on itself, and at rest it stays exactly in place.
pub proof fn lemma_single_body(b: Body, dt: int, th_sq: int, soft_sq: int)
    requires
        wf_body(b),
        b.v == (Vec2(0, 0)),
        b.a == (Vec2(0, 0)),
    ensures
        step_bodies_s(seq![b], dt, th_sq, soft_sq) == seq![b],
        samples(step_tree_s(seq![b])) == seq![(b.x, b.m)],
{
    let bs = seq![b];
    assert(bs.len() == 1 && bs[0] == b);
    let root = bounding_s(bs);
    let tree = step_tree_s(bs);
    let pc = root.center;
    let half = (tdiv(root.width as int, 2)) as i128;
    let nh = (-half) as i128;
    let c0 = new_s(pc, half, Vec2(nh, nh));
    let c1 = new_s(pc, half, Vec2(half, nh));
    let c2 = new_s(pc, half, Vec2(nh, half));
    let c3 = new_s(pc, half, Vec2(half, half));
    let r0 = built_quadrant_s(c0, bs, 0, pc);
    let r1 = built_quadrant_s(c1, bs, 1, pc);
    let r2 = built_quadrant_s(c2, bs, 2, pc);
    let r3 = built_quadrant_s(c3, bs, 3, pc);
    let pos = position_s(pc, b.x);
    assert(0 <= pos < 4);
    if pos == 0 {
        crate::node::lemma_built_quadrant_single(c0, bs, 0, pc, th_sq, soft_sq);
        crate::node::lemma_built_quadrant_empty(c1, bs, 1, pc);
        crate::node::lemma_built_quadrant_empty(c2, bs, 2, pc);
        crate::node::lemma_built_quadrant_empty(c3, bs, 3, pc);
    } else if pos == 1 {
        crate::node::lemma_built_quadrant_empty(c0, bs, 0, pc);
        crate::node::lemma_built_quadrant_single(c1, bs, 1, pc, th_sq, soft_sq);
        crate::node::lemma_built_quadrant_empty(c2, bs, 2, pc);
        crate::node::lemma_built_quadrant_empty(c3, bs, 3, pc);
    } else if pos == 2 {
        crate::node::lemma_built_quadrant_empty(c0, bs, 0, pc);
        crate::node::lemma_built_quadrant_empty(c1, bs, 1, pc);
        crate::node::lemma_built_quadrant_single(c2, bs, 2, pc, th_sq, soft_sq);
        crate::node::lemma_built_quadrant_empty(c3, bs, 3, pc);
    } else {
        crate::node::lemma_built_quadrant_empty(c0, bs, 0, pc);
        crate::node::lemma_built_quadrant_empty(c1, bs, 1, pc);
        crate::node::lemma_built_quadrant_empty(c2, bs, 2, pc);
        crate::node::lemma_built_quadrant_single(c3, bs, 3, pc, th_sq, soft_sq);
    }
    assert(tree.sub == Some(
        Box::new(
            crate::node::Quad { q0: Some(r0), q1: Some(r1), q2: Some(r2), q3: Some(r3) },
        ),
    ));
    assert(opt_contrib(Some(r0), b.x, th_sq, soft_sq) == (0int, 0int));
    assert(opt_contrib(Some(r1), b.x, th_sq, soft_sq) == (0int, 0int));
    assert(opt_contrib(Some(r2), b.x, th_sq, soft_sq) == (0int, 0int));
    assert(opt_contrib(Some(r3), b.x, th_sq, soft_sq) == (0int, 0int));
    assert(accel_of(tree, b.x, th_sq, soft_sq) == (0int, 0int));
    assert(samples(tree) =~= seq![(b.x, b.m)]);
    let b1 = attracted_s(tree, b, th_sq, soft_sq);
    assert(b1 == b);
    assert(fmul(0, tdiv(dt, 2)) == 0 && fmul(0, dt) == 0) by {
        fx::lemma_tdiv_mag(0, SCALE as int);
    };
    assert(v_mul(Vec2(0, 0), tdiv(dt, 2)) == (Vec2(0, 0)));
    assert(v_mul(Vec2(0, 0), dt) == (Vec2(0, 0)));
    assert(v_add(Vec2(0, 0), Vec2(0, 0)) == (Vec2(0, 0)));
    assert(v_add(b.x, Vec2(0, 0)) == b.x);
    assert(v_add(b.v, Vec2(0, 0)) == b.v);
    assert(advance_s(b1, dt) == b);
    assert(step_bodies_s(bs, dt, th_sq, soft_sq) =~= seq![b]);
}

/// Two equal bodies placed symmetrically about the origin stay exact
/// reflections of each other after a step: the built tree gives them
/// exactly opposite accelerations, and the update commutes with the
/// reflection. Bodies on a coordinate axis are excluded, since they can
/// share a quadrant with their mirror image.
#[verifier::rlimit(100)]
pub proof fn lemma_two_body_symmetry(b: Body, dt: int, th_sq: int, soft_sq: int)
    requires
        wf_body(b),
        b.a == (Vec2(0, 0)),
        b.x.0 != 0,
        b.x.1 != 0,
    ensures
        step_bodies_s(seq![b, crate::node::mirrored(b)], dt, th_sq, soft_sq).len() == 2,
        step_bodies_s(seq![b, crate::node::mirrored(b)], dt, th_sq, soft_sq)[1]
            == crate::node::mirrored(
            step_bodies_s(seq![b, crate::node::mirrored(b)], dt, th_sq, soft_sq)[0],
        ),
{
    let mb = crate::node::mirrored(b);
    let bs = seq![b, mb];
    assert(bs.len() == 2 && bs[0] == b && bs[1] == mb);
    assert(wf_body(mb));
    // the bounding box is symmetric, so the root is centered on the origin
    assert(crate::node::min_x_upto(bs, 1) == b.x.0);
    assert(crate::node::max_x_upto(bs, 1) == b.x.0);
    assert(crate::node::min_y_upto(bs, 1) == b.x.1);
    assert(crate::node::max_y_upto(bs, 1) == b.x.1);
    assert(crate::node::min_x_upto(bs, 2) + crate::node::max_x_upto(bs, 2) == 0);
    assert(crate::node::min_y_upto(bs, 2) + crate::node::max_y_upto(bs, 2) == 0);
    let root = bounding_s(bs);
    assert(fx::tdiv(0, 2) == 0) by {
        fx::lemma_tdiv_mag(0, 2);
    };
    assert(root.center == (Vec2(0, 0)));
    let pc = root.center;
    let tree = step_tree_s(bs);
    let pos0 = position_s(pc, b.x);
    let pos1 = position_s(pc, mb.x);
    assert(mb.x.0 == -b.x.0 && mb.x.1 == -b.x.1);
    assert(pos1 == 3 - pos0);
    let half = (tdiv(root.width as int, 2)) as i128;
    let nh = (-half) as i128;
    let c0 = new_s(pc, half, Vec2(nh, nh));
    let c1 = new_s(pc, half, Vec2(half, nh));
    let c2 = new_s(pc, half, Vec2(nh, half));
    let c3 = new_s(pc, half, Vec2(half, half));
    let r0 = built_quadrant_s(c0, bs, 0, pc);
    let r1 = built_quadrant_s(c1, bs, 1, pc);
    let r2 = built_quadrant_s(c2, bs, 2, pc);
    let r3 = built_quadrant_s(c3, bs, 3, pc);
    assert(tree.sub == Some(
        Box::new(
            crate::node::Quad { q0: Some(r0), q1: Some(r1), q2: Some(r2), q3: Some(r3) },
        ),
    ));
    let acc0 = crate::node::pair_contrib(b.x, mb.x, mb.m, soft_sq);
    let acc1 = crate::node::pair_contrib(mb.x, b.x, b.m, soft_sq);
    assert(crate::node::pair_contrib(b.x, b.x, b.m, soft_sq) == (0int, 0int));
    assert(crate::node::pair_contrib(mb.x, mb.x, mb.m, soft_sq) == (0int, 0int));
    if pos0 == 0 {
        crate::node::lemma_quadrant_one_of_two(c0, bs, 0, pc, 0, b.x, th_sq, soft_sq);
        crate::node::lemma_quadrant_one_of_two(c0, bs, 0, pc, 0, mb.x, th_sq, soft_sq);
        crate::node::lemma_quadrant_empty_two(c1, bs, 1, pc);
        crate::node::lemma_quadrant_empty_two(c2, bs, 2, pc);
        crate::node::lemma_quadrant_one_of_two(c3, bs, 3, pc, 1, b.x, th_sq, soft_sq);
        crate::node::lemma_quadrant_one_of_two(c3, bs, 3, pc, 1, mb.x, th_sq, soft_sq);
    } else if pos0 == 1 {
        crate::node::lemma_quadrant_one_of_two(c1, bs, 1, pc, 0, b.x, th_sq, soft_sq);
        crate::node::lemma_quadrant_one_of_two(c1, bs, 1, pc, 0, mb.x, th_sq, soft_sq);
        crate::node::lemma_quadrant_empty_two(c0, bs, 0, pc);
        crate::node::lemma_quadrant_empty_two(c3, bs, 3, pc);
        crate::node::lemma_quadrant_one_of_two(c2, bs, 2, pc, 1, b.x, th_sq, soft_sq);
        crate::node::lemma_quadrant_one_of_two(c2, bs, 2, pc, 1, mb.x, th_sq, soft_sq);
    } else if pos0 == 2 {
        crate::node::lemma_quadrant_one_of_two(c2, bs, 2, pc, 0, b.x, th_sq, soft_sq);
        crate::node::lemma_quadrant_one_of_two(c2, bs, 2, pc, 0, mb.x, th_sq, soft_sq);
        crate::node::lemma_quadrant_empty_two(c0, bs, 0, pc);
        crate::node::lemma_quadrant_empty_two(c3, bs, 3, pc);
        crate::node::lemma_quadrant_one_of_two(c1, bs, 1, pc, 1, b.x, th_sq, soft_sq);
        crate::node::lemma_quadrant_one_of_two(c1, bs, 1, pc, 1, mb.x, th_sq, soft_sq);
    } else {
        crate::node::lemma_quadrant_one_of_two(c3, bs, 3, pc, 0, b.x, th_sq, soft_sq);
        crate::node::lemma_quadrant_one_of_two(c3, bs, 3, pc, 0, mb.x, th_sq, soft_sq);
        crate::node::lemma_quadrant_empty_two(c1, bs, 1, pc);
        crate::node::lemma_quadrant_empty_two(c2, bs, 2, pc);
        crate::node::lemma_quadrant_one_of_two(c0, bs, 0, pc, 1, b.x, th_sq, soft_sq);
        crate::node::lemma_quadrant_one_of_two(c0, bs, 0, pc, 1, mb.x, th_sq, soft_sq);
    }
    assert(accel_of(tree, b.x, th_sq, soft_sq) == acc0);
    assert(accel_of(tree, mb.x, th_sq, soft_sq) == acc1);
    crate::node::lemma_pair_antisym(b.x, mb.x, b.m, soft_sq);

    assert(acc1 == (-acc0.0, -acc0.1));
    let at0 = attracted_s(tree, b, th_sq, soft_sq);
    let at1 = attracted_s(tree, mb, th_sq, soft_sq);
    assert(mb.a == (Vec2(0, 0)));
    fx::lemma_sat_neg(acc0.0);
    fx::lemma_sat_neg(acc0.1);
    assert(at1 == crate::node::mirrored(at0));
    assert(wf_body(at0));
    crate::node::lemma_advance_mirror(at0, dt);
    assert(step_bodies_s(bs, dt, th_sq, soft_sq)[0] == advance_s(at0, dt));
    assert(step_bodies_s(bs, dt, th_sq, soft_sq)[1] == advance_s(at1, dt));
}

/// Check a configuration before the simulation loop starts.
pub fn validate(c: &Config) -> (r: Result<(), SimError>)
    ensures
        r is Ok <==> config_ok(*c),
        r is Err ==> r == Result::<(), SimError>::Err(SimError::ConfigInvalid),
{
    if c.theta > 0 && c.dt > 0 && c.n > 0 && (c.dim == 2 || c.dim == 3) && c.softening >= 0
        && c.workers > 0 {
        Ok(())
    } else {
        Err(SimError::ConfigInvalid)
    }
}

/// Build the initial bodies for a scenario that the verified core can
/// generate itself. The disk and galaxy-collision scenarios are produced
/// by an outside generator and are not built here.
pub fn build_scenario(sc: Scenario, n: usize, seed: u64) -> (r: Option<Vec<Body>>)
    requires
        n <= crate::generator::MAX_BODIES,
    ensures
        r is Some <==> (sc == Scenario::Uniform || sc == Scenario::TwoSquare),
        sc == Scenario::Uniform ==> r.unwrap()@ == crate::generator::uniform_bodies_s(
            seed,
            n as nat,
        ),
        sc == Scenario::TwoSquare ==> r.unwrap()@ == crate::generator::falling_bodies_s(
            seed,
            n as nat,
        ),
        r is Some ==> r.unwrap()@.len() == n && wf_bodies(r.unwrap()@) && sum_mass(r.unwrap()@)
            == n * crate::fx::SCALE,
{
    match sc {
        Scenario::Uniform => Some(crate::generator::simple_square(n, seed)),
        Scenario::TwoSquare => Some(crate::generator::square_collision(n, seed)),
        Scenario::Disk => None,
        Scenario::GalaxyCollision => None,
    }
}

} // verus!
