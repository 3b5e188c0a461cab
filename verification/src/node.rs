//! Bodies and the Barnes-Hut quadtree.
//!
//! A `Section` is one cell of the quadtree: an internal node carries four
//! child slots and cached aggregates, a leaf carries one (point, mass)
//! sample, and an absent child slot stands for an empty cell.
//!
//! Every executable function mirrors a spec-level function exactly, so the
//! whole build/evaluate/advance pipeline is a mathematical function of its
//! inputs; the conservation laws are proved about those spec functions.

use vstd::prelude::*;
use rayon::iter::{IntoParallelRefMutIterator, ParallelIterator};
use crate::fx;
use crate::fx::{in_range, sat, tdiv, fmul, fdiv, fsqrt, SCALE, MAXF, MASS_CAP};
use crate::vec::{Vec2, v_in_range, v_add, v_sub, v_mul, v_neg, v_dot};
use crate::sim::SimError;

verus! {

/// Number of tree levels below the root before co-located points merge.
pub const MAX_DEPTH: u32 = 64;

/// A point mass: position, velocity, acceleration and mass.
#[derive(Clone, Copy, PartialEq, Eq, Structural, Debug)]
pub struct Body {
    pub x: Vec2,
    pub v: Vec2,
    pub a: Vec2,
    pub m: i128,
}

/// A body whose fields are in range and whose mass is positive and bounded.
pub open spec fn wf_body(b: Body) -> bool {
    &&& v_in_range(b.x)
    &&& v_in_range(b.v)
    &&& v_in_range(b.a)
    &&& 0 < b.m <= MASS_CAP
}

/// All bodies of a sequence are well-formed.
pub open spec fn wf_bodies(bs: Seq<Body>) -> bool {
    forall|i: int| 0 <= i < bs.len() ==> wf_body(#[trigger] bs[i])
}

/// Sum of the masses of the first `n` bodies.
pub open spec fn sum_mass_upto(bs: Seq<Body>, n: int) -> int
    decreases n,
{
    if n <= 0 {
        0
    } else {
        sum_mass_upto(bs, n - 1) + bs[n - 1].m
    }
}

/// Sum of the masses of all bodies.
pub open spec fn sum_mass(bs: Seq<Body>) -> int {
    sum_mass_upto(bs, bs.len() as int)
}

/// Sum of mass-weighted x positions (exact, at double scale) of the first
/// `n` bodies.
pub open spec fn wsum_x_upto(bs: Seq<Body>, n: int) -> int
    decreases n,
{
    if n <= 0 {
        0
    } else {
        wsum_x_upto(bs, n - 1) + bs[n - 1].m * bs[n - 1].x.0
    }
}

/// Sum of mass-weighted y positions of the first `n` bodies.
pub open spec fn wsum_y_upto(bs: Seq<Body>, n: int) -> int
    decreases n,
{
    if n <= 0 {
        0
    } else {
        wsum_y_upto(bs, n - 1) + bs[n - 1].m * bs[n - 1].x.1
    }
}

/// Two sequences with the same masses have the same prefix mass sums.
pub proof fn lemma_sum_mass_same(a: Seq<Body>, b: Seq<Body>, n: int)
    requires
        a.len() == b.len(),
        0 <= n <= a.len(),
        forall|i: int| 0 <= i < a.len() ==> a[i].m == #[trigger] b[i].m,
    ensures
        sum_mass_upto(a, n) == sum_mass_upto(b, n),
    decreases n,
{
    if n > 0 {
        lemma_sum_mass_same(a, b, n - 1);
    }
}

/// The leapfrog-style update of one body over a step `dt`:
/// `x += (v + (dt/2)*a) * dt; v += a * dt; a = 0`.
pub open spec fn advance_s(b: Body, dt: int) -> Body {
    Body {
        x: v_add(b.x, v_mul(v_add(b.v, v_mul(b.a, tdiv(dt, 2))), dt)),
        v: v_add(b.v, v_mul(b.a, dt)),
        a: Vec2(0, 0),
        m: b.m,
    }
}

impl Body {
    /// Advance position and velocity by one step and reset the acceleration.
    pub fn advance(&mut self, dt: i128)
        requires
            wf_body(*old(self)),
            in_range(dt as int),
        ensures
            *final(self) == advance_s(*old(self), dt as int),
            wf_body(*final(self)),
    {
        let half_dt = fx::fx_half(dt);
        let kick = self.v.add(self.a.mul(half_dt));
        self.x = self.x.add(kick.mul(dt));
        self.v = self.v.add(self.a.mul(dt));
        self.a = Vec2::zero();
    }

    /// `num_bodies` mass-one bodies at rest, uniform over the unit square,
    /// determined by `seed`.
    pub fn generate(num_bodies: usize, seed: u64) -> (r: Vec<Body>)
        requires
            num_bodies <= crate::generator::MAX_BODIES,
        ensures
            r@ == crate::generator::uniform_bodies_s(seed, num_bodies as nat),
            r@.len() == num_bodies,
            wf_bodies(r@),
            sum_mass_upto(r@, num_bodies as int) == num_bodies * SCALE,
    {
        crate::generator::simple_square(num_bodies, seed)
    }

    /// Two `num_bodies / 2` squares of mass-one bodies at rest: one
    /// uniform over `[0, 0.5)^2`, one uniform over `[0.5, 1)^2`,
    /// determined by `seed`.
    pub fn generate_collision(num_bodies: usize, seed: u64) -> (r: Vec<Body>)
        requires
            num_bodies <= crate::generator::MAX_BODIES,
        ensures
            r@ == crate::generator::collision_bodies_s(seed, num_bodies as nat),
            r@.len() == num_bodies,
            wf_bodies(r@),
            sum_mass_upto(r@, num_bodies as int) == num_bodies * SCALE,
    {
        let n = num_bodies;
        let samples = crate::generator::draw_samples(seed, 2 * n);
        let mut out: Vec<Body> = Vec::new();
        let ghost stream = samples@;
        let mut i: usize = 0;
        while i < n
            invariant
                0 <= i <= n,
                n <= crate::generator::MAX_BODIES,
                stream == crate::generator::sample_stream(seed, (2 * n) as nat),
                stream.len() == 2 * n,
                samples@ == stream,
                out@.len() == i,
                forall|j: int|
                    0 <= j < i ==> (#[trigger] out@[j]) == crate::generator::collision_body_s(
                        stream,
                        j,
                        n as int,
                    ),
            decreases n - i,
        {
            let sx = samples[2 * i] as i128;
            let sy = samples[2 * i + 1] as i128;
            let x = if i < n / 2 {
                Vec2(sx / 2, sy / 2)
            } else {
                Vec2((SCALE + sx) / 2, (SCALE + sy) / 2)
            };
            out.push(Body { x: x, v: Vec2::zero(), a: Vec2::zero(), m: SCALE });
            i = i + 1;
        }
        proof {
            assert(out@ =~= crate::generator::collision_bodies_s(seed, n as nat));
            assert forall|i2: int| 0 <= i2 < n implies wf_body(#[trigger] out@[i2]) by {
                assert(out@[i2] == crate::generator::collision_body_s(stream, i2, n as int));
            }
            crate::generator::lemma_sum_mass_const(out@, n as int);
        }
        out
    }
}

/// The four child slots of an internal cell, indexed by quadrant:
/// bit 0 set means upper in x, bit 1 set means upper in y.
pub struct Quad {
    pub q0: Option<Section>,
    pub q1: Option<Section>,
    pub q2: Option<Section>,
    pub q3: Option<Section>,
}

/// One cell of the quadtree.
///
/// A leaf (`sub == None`) stores its sample point in `com`, its mass in
/// `total_mass`, and the exact double-scale products mass times position in
/// `(wx, wy)`. An internal node (`sub == Some`) stores its geometry in
/// `(center, width)`; `com`, `total_mass`, `wx`, `wy` hold the subtree
/// aggregates once `aggregate` has run.
pub struct Section {
    pub center: Vec2,
    pub com: Vec2,
    pub total_mass: i128,
    pub width: i128,
    pub wx: i128,
    pub wy: i128,
    pub sub: Option<Box<Quad>>,
}

/// The child slot of `q` with index `i`.
pub open spec fn slot(q: Quad, i: int) -> Option<Section> {
    if i == 0 {
        q.q0
    } else if i == 1 {
        q.q1
    } else if i == 2 {
        q.q2
    } else {
        q.q3
    }
}

/// `q` with slot `i` replaced by `c`.
pub open spec fn set_slot(q: Quad, i: int, c: Option<Section>) -> Quad {
    if i == 0 {
        Quad { q0: c, ..q }
    } else if i == 1 {
        Quad { q1: c, ..q }
    } else if i == 2 {
        Quad { q2: c, ..q }
    } else {
        Quad { q3: c, ..q }
    }
}

/// Whether a cell is internal.
pub open spec fn is_node(s: Section) -> bool {
    s.sub is Some
}

/// Total mass of the leaf samples below a slot.
pub open spec fn opt_mass(c: Option<Section>) -> int
    decreases c,
{
    match c {
        None => 0,
        Some(s) => leaves_mass(s),
    }
}

/// Total mass of the leaf samples below a cell.
pub open spec fn leaves_mass(s: Section) -> int
    decreases s,
{
    match s.sub {
        None => s.total_mass as int,
        Some(q) => opt_mass(q.q0) + opt_mass(q.q1) + opt_mass(q.q2) + opt_mass(q.q3),
    }
}

/// Exact mass-weighted x sum of the leaf samples below a slot.
pub open spec fn opt_wx(c: Option<Section>) -> int
    decreases c,
{
    match c {
        None => 0,
        Some(s) => leaves_wx(s),
    }
}

/// Exact mass-weighted x sum of the leaf samples below a cell.
pub open spec fn leaves_wx(s: Section) -> int
    decreases s,
{
    match s.sub {
        None => s.wx as int,
        Some(q) => opt_wx(q.q0) + opt_wx(q.q1) + opt_wx(q.q2) + opt_wx(q.q3),
    }
}

/// Exact mass-weighted y sum of the leaf samples below a slot.
pub open spec fn opt_wy(c: Option<Section>) -> int
    decreases c,
{
    match c {
        None => 0,
        Some(s) => leaves_wy(s),
    }
}

/// Exact mass-weighted y sum of the leaf samples below a cell.
pub open spec fn leaves_wy(s: Section) -> int
    decreases s,
{
    match s.sub {
        None => s.wy as int,
        Some(q) => opt_wy(q.q0) + opt_wy(q.q1) + opt_wy(q.q2) + opt_wy(q.q3),
    }
}

/// Well-formedness of a slot.
pub open spec fn opt_wf(c: Option<Section>) -> bool
    decreases c,
{
    match c {
        None => true,
        Some(s) => wf_tree(s),
    }
}

/// Well-formedness of a cell: fields in range; a leaf has positive bounded
/// mass and weighted sums bounded by mass times the position bound.
pub open spec fn wf_tree(s: Section) -> bool
    decreases s,
{
    &&& v_in_range(s.center)
    &&& v_in_range(s.com)
    &&& in_range(s.total_mass as int)
    &&& 0 <= s.width <= MAXF
    &&& match s.sub {
        None => {
            &&& 0 < s.total_mass <= MASS_CAP
            &&& -(s.total_mass * MAXF) <= s.wx <= s.total_mass * MAXF
            &&& -(s.total_mass * MAXF) <= s.wy <= s.total_mass * MAXF
        },
        Some(q) => {
            &&& opt_wf(q.q0)
            &&& opt_wf(q.q1)
            &&& opt_wf(q.q2)
            &&& opt_wf(q.q3)
        },
    }
}

/// Children of `s` fit within a remaining depth budget of `d`.
pub open spec fn depth_ok(s: Section, d: nat) -> bool
    decreases s,
{
    match s.sub {
        None => true,
        Some(q) => {
            &&& slot_depth_ok(q.q0, d)
            &&& slot_depth_ok(q.q1, d)
            &&& slot_depth_ok(q.q2, d)
            &&& slot_depth_ok(q.q3, d)
        },
    }
}

/// A slot fits within a remaining depth budget of `d`: an internal child
/// consumes one level.
pub open spec fn slot_depth_ok(c: Option<Section>, d: nat) -> bool
    decreases c,
{
    match c {
        None => true,
        Some(t) => {
            if t.sub is Some {
                d > 0 && depth_ok(t, (d - 1) as nat)
            } else {
                true
            }
        },
    }
}

/// The leaf samples below a slot, in child order.
pub open spec fn opt_samples(c: Option<Section>) -> Seq<(Vec2, i128)>
    decreases c,
{
    match c {
        None => Seq::empty(),
        Some(s) => samples(s),
    }
}

/// The leaf samples (point, mass) below a cell, in child order.
pub open spec fn samples(s: Section) -> Seq<(Vec2, i128)>
    decreases s,
{
    match s.sub {
        None => seq![(s.com, s.total_mass)],
        Some(q) => opt_samples(q.q0) + opt_samples(q.q1) + opt_samples(q.q2) + opt_samples(q.q3),
    }
}

/// The masses below a well-formed cell are non-negative and its weighted
/// sums are bounded by the total mass times the position bound.
pub proof fn lemma_leaves_bounds(s: Section)
    requires
        wf_tree(s),
    ensures
        0 <= leaves_mass(s),
        -(leaves_mass(s) * MAXF) <= leaves_wx(s) <= leaves_mass(s) * MAXF,
        -(leaves_mass(s) * MAXF) <= leaves_wy(s) <= leaves_mass(s) * MAXF,
    decreases s,
{
    match s.sub {
        None => {},
        Some(q) => {
            lemma_opt_bounds(q.q0);
            lemma_opt_bounds(q.q1);
            lemma_opt_bounds(q.q2);
            lemma_opt_bounds(q.q3);
        },
    }
}

/// Slot form of `lemma_leaves_bounds`.
pub proof fn lemma_opt_bounds(c: Option<Section>)
    requires
        opt_wf(c),
    ensures
        0 <= opt_mass(c),
        -(opt_mass(c) * MAXF) <= opt_wx(c) <= opt_mass(c) * MAXF,
        -(opt_mass(c) * MAXF) <= opt_wy(c) <= opt_mass(c) * MAXF,
    decreases c,
{
    match c {
        None => {},
        Some(s) => {
            lemma_leaves_bounds(s);
        },
    }
}

/// Quadrant index of a point relative to a cell center: strictly greater
/// coordinates select the upper half on each axis, so ties go lower.
pub open spec fn position_s(c: Vec2, p: Vec2) -> int {
    (if p.0 > c.0 {
        1int
    } else {
        0int
    }) + (if p.1 > c.1 {
        2int
    } else {
        0int
    })
}

/// Offset from a cell center to the center of the child cell containing a
/// point, for a child half-width of `dist`.
pub open spec fn offset_s(c: Vec2, p: Vec2, dist: i128) -> Vec2 {
    Vec2(
        if p.0 > c.0 {
            dist
        } else {
            (-dist) as i128
        },
        if p.1 > c.1 {
            dist
        } else {
            (-dist) as i128
        },
    )
}

/// A fresh empty internal cell with the given geometry.
pub open spec fn new_s(old_center: Vec2, width: i128, off: Vec2) -> Section {
    Section {
        center: v_add(old_center, off),
        com: Vec2(0, 0),
        total_mass: 0,
        width: width,
        wx: 0,
        wy: 0,
        sub: Some(
            Box::new(Quad { q0: None, q1: None, q2: None, q3: None }),
        ),
    }
}

/// A leaf cell holding one sample.
pub open spec fn leaf_s(point: Vec2, mass: i128, wx: i128, wy: i128) -> Section {
    Section {
        center: Vec2(0, 0),
        com: point,
        total_mass: mass,
        width: 0,
        wx: wx,
        wy: wy,
        sub: None,
    }
}

/// Smallest x coordinate among the first `n` bodies.
pub open spec fn min_x_upto(bs: Seq<Body>, n: int) -> int
    decreases n,
{
    if n <= 1 {
        bs[0].x.0 as int
    } else {
        let m = min_x_upto(bs, n - 1);
        if bs[n - 1].x.0 < m {
            bs[n - 1].x.0 as int
        } else {
            m
        }
    }
}

/// Largest x coordinate among the first `n` bodies.
pub open spec fn max_x_upto(bs: Seq<Body>, n: int) -> int
    decreases n,
{
    if n <= 1 {
        bs[0].x.0 as int
    } else {
        let m = max_x_upto(bs, n - 1);
        if bs[n - 1].x.0 > m {
            bs[n - 1].x.0 as int
        } else {
            m
        }
    }
}

/// Smallest y coordinate among the first `n` bodies.
pub open spec fn min_y_upto(bs: Seq<Body>, n: int) -> int
    decreases n,
{
    if n <= 1 {
        bs[0].x.1 as int
    } else {
        let m = min_y_upto(bs, n - 1);
        if bs[n - 1].x.1 < m {
            bs[n - 1].x.1 as int
        } else {
            m
        }
    }
}

/// Largest y coordinate among the first `n` bodies.
pub open spec fn max_y_upto(bs: Seq<Body>, n: int) -> int
    decreases n,
{
    if n <= 1 {
        bs[0].x.1 as int
    } else {
        let m = max_y_upto(bs, n - 1);
        if bs[n - 1].x.1 > m {
            bs[n - 1].x.1 as int
        } else {
            m
        }
    }
}

/// The root cell of the bounding pass over a non-empty body sequence:
/// centered at the midpoint of the bounding box, with half-width half the
/// larger box extent.
pub open spec fn bounding_s(bs: Seq<Body>) -> Section {
    let n = bs.len() as int;
    let ll = Vec2((min_x_upto(bs, n)) as i128, (min_y_upto(bs, n)) as i128);
    let ur = Vec2((max_x_upto(bs, n)) as i128, (max_y_upto(bs, n)) as i128);
    let m = v_add(ll, ur);
    let center = Vec2((tdiv(m.0 as int, 2)) as i128, (tdiv(m.1 as int, 2)) as i128);
    let ext = v_sub(ur, ll);
    let m0 = if ext.0 >= 0 {
        ext.0 as int
    } else {
        -(ext.0 as int)
    };
    let m1 = if ext.1 >= 0 {
        ext.1 as int
    } else {
        -(ext.1 as int)
    };
    let size = tdiv(if m0 > m1 {
        m0
    } else {
        m1
    }, 2);
    new_s(center, size as i128, Vec2(0, 0))
}

impl Section {
    /// A fresh empty internal cell at `old_center + offset`.
    fn new(old_center: Vec2, width: i128, off: Vec2) -> (r: Section)
        requires
            v_in_range(old_center),
            v_in_range(off),
            0 <= width <= MAXF,
        ensures
            r == new_s(old_center, width, off),
            wf_tree(r),
            is_node(r),
            leaves_mass(r) == 0,
            leaves_wx(r) == 0,
            leaves_wy(r) == 0,
    {
        Section {
            center: old_center.add(off),
            com: Vec2::zero(),
            total_mass: 0,
            width: width,
            wx: 0,
            wy: 0,
            sub: Some(Box::new(Quad { q0: None, q1: None, q2: None, q3: None })),
        }
    }

    /// Quadrant index of a point relative to this cell's center.
    fn position(&self, point: Vec2) -> (r: usize)
        ensures
            r == position_s(self.center, point),
            r < 4,
    {
        (if point.0 > self.center.0 {
            1
        } else {
            0
        }) + (if point.1 > self.center.1 {
            2
        } else {
            0
        })
    }

    /// Offset from `center` to the child cell containing `point`.
    fn offset(center: Vec2, point: Vec2, dist: i128) -> (r: Vec2)
        requires
            in_range(dist as int),
        ensures
            r == offset_s(center, point, dist),
            v_in_range(r),
    {
        Vec2(
            if point.0 > center.0 {
                dist
            } else {
                -dist
            },
            if point.1 > center.1 {
                dist
            } else {
                -dist
            },
        )
    }

    /// Scan the bodies for their bounding box and return the enclosing empty
    /// root cell, or `EmptyInput` when there are no bodies.
    pub fn containing(bodies: &Vec<Body>) -> (r: Result<Section, SimError>)
        requires
            wf_bodies(bodies@),
        ensures
            bodies@.len() == 0 <==> r is Err,
            r is Err ==> r == Result::<Section, SimError>::Err(SimError::EmptyInput),
            r is Ok ==> r == Result::<Section, SimError>::Ok(bounding_s(bodies@)),
            r is Ok ==> wf_tree(bounding_s(bodies@)) && is_node(bounding_s(bodies@))
                && leaves_mass(bounding_s(bodies@)) == 0 && leaves_wx(bounding_s(bodies@)) == 0
                && leaves_wy(bounding_s(bodies@)) == 0,
    {
        if bodies.len() == 0 {
            return Err(SimError::EmptyInput);
        }
        let p = bodies[0].x;
        let mut min_x: i128 = p.0;
        let mut min_y: i128 = p.1;
        let mut max_x: i128 = p.0;
        let mut max_y: i128 = p.1;
        let ghost bs = bodies@;
        let n = bodies.len();
        let mut i: usize = 1;
        while i < n
            invariant
                1 <= i <= n,
                n == bs.len(),
                bs == bodies@,
                wf_bodies(bs),
                min_x == min_x_upto(bs, i as int),
                min_y == min_y_upto(bs, i as int),
                max_x == max_x_upto(bs, i as int),
                max_y == max_y_upto(bs, i as int),
            decreases n - i,
        {
            let b = &bodies[i];
            if b.x.0 < min_x {
                min_x = b.x.0;
            }
            if b.x.1 < min_y {
                min_y = b.x.1;
            }
            if b.x.0 > max_x {
                max_x = b.x.0;
            }
            if b.x.1 > max_y {
                max_y = b.x.1;
            }
            i = i + 1;
        }
        proof {
            lemma_minmax_in_range(bs, n as int);
        }
        let lower_left = Vec2(min_x, min_y);
        let upper_right = Vec2(max_x, max_y);
        let mid = lower_left.add(upper_right);
        let center = Vec2(fx::fx_half(mid.0), fx::fx_half(mid.1));
        let ext = upper_right.sub(lower_left);
        let size = fx::fx_half(ext.inf_norm());
        Ok(Section::new(center, size, Vec2::zero()))
    }
}

/// The leaf obtained by merging a new sample into the leaf `t`: masses and
/// exact weighted sums add, and the displayed point becomes the
/// mass-weighted average.
pub open spec fn merge_leaf_s(t: Section, mass: i128, wx: i128, wy: i128) -> Section {
    let m2 = (t.total_mass + mass) as i128;
    let wx2 = (t.wx + wx) as i128;
    let wy2 = (t.wy + wy) as i128;
    Section {
        com: Vec2((tdiv(wx2 as int, m2 as int)) as i128, (tdiv(wy2 as int, m2 as int)) as i128),
        total_mass: m2,
        wx: wx2,
        wy: wy2,
        ..t
    }
}

/// Insertion of a sample into the internal cell `s` with `depth` levels of
/// subdivision left below it.
pub open spec fn insert_s(
    s: Section,
    point: Vec2,
    mass: i128,
    wx: i128,
    wy: i128,
    depth: nat,
) -> Section
    decreases depth, 1int,
{
    match s.sub {
        None => s,
        Some(q) => {
            let pos = position_s(s.center, point);
            let half = (tdiv(s.width as int, 2)) as i128;
            let c2 = insert_opt_s(slot(*q, pos), s.center, half, point, mass, wx, wy, depth);
            Section { sub: Some(Box::new(set_slot(*q, pos, Some(c2)))), ..s }
        },
    }
}

/// Insertion of a sample into one child slot of a cell centered at
/// `pcenter` whose children have half-width `half`. An empty slot receives
/// a leaf; a leaf splits (or merges when no depth is left); an internal
/// child absorbs the sample one level down.
pub open spec fn insert_opt_s(
    c: Option<Section>,
    pcenter: Vec2,
    half: i128,
    point: Vec2,
    mass: i128,
    wx: i128,
    wy: i128,
    depth: nat,
) -> Section
    decreases depth, 0int,
{
    match c {
        None => leaf_s(point, mass, wx, wy),
        Some(t) => {
            if t.sub is None {
                if depth == 0 {
                    merge_leaf_s(t, mass, wx, wy)
                } else {
                    let n = new_s(pcenter, half, offset_s(pcenter, t.com, half));
                    let n1 = insert_s(n, t.com, t.total_mass, t.wx, t.wy, (depth - 1) as nat);
                    insert_s(n1, point, mass, wx, wy, (depth - 1) as nat)
                }
            } else {
                if depth == 0 {
                    t
                } else {
                    insert_s(t, point, mass, wx, wy, (depth - 1) as nat)
                }
            }
        },
    }
}

/// What insertion does: it adds exactly the sample's mass and weighted
/// sums to the subtree totals, keeps the cell's own cached fields, and
/// preserves well-formedness and the depth budget.
pub proof fn lemma_insert(s: Section, point: Vec2, mass: i128, wx: i128, wy: i128, depth: nat)
    requires
        is_node(s),
        wf_tree(s),
        depth_ok(s, depth),
        v_in_range(point),
        0 < mass,
        leaves_mass(s) + mass <= MASS_CAP,
        -(mass * MAXF) <= wx <= mass * MAXF,
        -(mass * MAXF) <= wy <= mass * MAXF,
    ensures
        is_node(insert_s(s, point, mass, wx, wy, depth)),
        wf_tree(insert_s(s, point, mass, wx, wy, depth)),
        depth_ok(insert_s(s, point, mass, wx, wy, depth), depth),
        leaves_mass(insert_s(s, point, mass, wx, wy, depth)) == leaves_mass(s) + mass,
        leaves_wx(insert_s(s, point, mass, wx, wy, depth)) == leaves_wx(s) + wx,
        leaves_wy(insert_s(s, point, mass, wx, wy, depth)) == leaves_wy(s) + wy,
        insert_s(s, point, mass, wx, wy, depth).center == s.center,
        insert_s(s, point, mass, wx, wy, depth).width == s.width,
        insert_s(s, point, mass, wx, wy, depth).com == s.com,
        insert_s(s, point, mass, wx, wy, depth).total_mass == s.total_mass,
        insert_s(s, point, mass, wx, wy, depth).wx == s.wx,
        insert_s(s, point, mass, wx, wy, depth).wy == s.wy,
    decreases depth, 1int,
{
    let q = s.sub.unwrap();
    let pos = position_s(s.center, point);
    let half = (tdiv(s.width as int, 2)) as int;
    let c = slot(*q, pos);
    fx::lemma_tdiv_mag(s.width as int, 2);
    lemma_opt_bounds(q.q0);
    lemma_opt_bounds(q.q1);
    lemma_opt_bounds(q.q2);
    lemma_opt_bounds(q.q3);
    lemma_insert_opt(c, s.center, half as i128, point, mass, wx, wy, depth);
}

/// Slot form of `lemma_insert`.
pub proof fn lemma_insert_opt(
    c: Option<Section>,
    pcenter: Vec2,
    half: i128,
    point: Vec2,
    mass: i128,
    wx: i128,
    wy: i128,
    depth: nat,
)
    requires
        opt_wf(c),
        slot_depth_ok(c, depth),
        v_in_range(pcenter),
        0 <= half <= MAXF,
        v_in_range(point),
        0 < mass,
        opt_mass(c) + mass <= MASS_CAP,
        -(mass * MAXF) <= wx <= mass * MAXF,
        -(mass * MAXF) <= wy <= mass * MAXF,
    ensures
        wf_tree(insert_opt_s(c, pcenter, half, point, mass, wx, wy, depth)),
        slot_depth_ok(Some(insert_opt_s(c, pcenter, half, point, mass, wx, wy, depth)), depth),
        leaves_mass(insert_opt_s(c, pcenter, half, point, mass, wx, wy, depth)) == opt_mass(c)
            + mass,
        leaves_wx(insert_opt_s(c, pcenter, half, point, mass, wx, wy, depth)) == opt_wx(c) + wx,
        leaves_wy(insert_opt_s(c, pcenter, half, point, mass, wx, wy, depth)) == opt_wy(c) + wy,
    decreases depth, 0int,
{
    match c {
        None => {},
        Some(t) => {
            if t.sub is None {
                if depth == 0 {
                    let m2 = t.total_mass + mass;
                    fx::lemma_wsum_add(t.total_mass as int, t.wx as int, mass as int, wx as int);
                    fx::lemma_wsum_add(t.total_mass as int, t.wy as int, mass as int, wy as int);
                    fx::lemma_wsum_fits(m2 as int, t.wx + wx);
                    fx::lemma_wsum_fits(m2 as int, t.wy + wy);
                    fx::lemma_tdiv_quotient_bound(t.wx + wx, m2 as int, MAXF as int);
                    fx::lemma_tdiv_quotient_bound(t.wy + wy, m2 as int, MAXF as int);
                } else {
                    let n = new_s(pcenter, half, offset_s(pcenter, t.com, half));
                    let d1 = (depth - 1) as nat;
                    let n1 = insert_s(n, t.com, t.total_mass, t.wx, t.wy, d1);
                    lemma_insert(n, t.com, t.total_mass, t.wx, t.wy, d1);
                    lemma_insert(n1, point, mass, wx, wy, d1);
                }
            } else {
                let d1 = (depth - 1) as nat;
                lemma_insert(t, point, mass, wx, wy, d1);
            }
        },
    }
}

impl Section {
    /// Insert a sample carrying its exact weighted sums.
    fn insert(&mut self, point: Vec2, mass: i128, wx: i128, wy: i128, depth: u32)
        requires
            is_node(*old(self)),
            wf_tree(*old(self)),
            depth_ok(*old(self), depth as nat),
            v_in_range(point),
            0 < mass,
            leaves_mass(*old(self)) + mass <= MASS_CAP,
            -(mass * MAXF) <= wx <= mass * MAXF,
            -(mass * MAXF) <= wy <= mass * MAXF,
        ensures
            *final(self) == insert_s(*old(self), point, mass, wx, wy, depth as nat),
        decreases depth,
    {
        proof {
            lemma_opt_bounds(old(self).sub.unwrap().q0);
            lemma_opt_bounds(old(self).sub.unwrap().q1);
            lemma_opt_bounds(old(self).sub.unwrap().q2);
            lemma_opt_bounds(old(self).sub.unwrap().q3);
        }
        let pos = self.position(point);
        let half = fx::fx_half(self.width);
        let mut quad: Box<Quad> = self.sub.take().unwrap();
        let c: Option<Section> = if pos == 0 {
            quad.q0.take()
        } else if pos == 1 {
            quad.q1.take()
        } else if pos == 2 {
            quad.q2.take()
        } else {
            quad.q3.take()
        };
        proof {
            let q0 = *old(self).sub.unwrap();
            assert(c == slot(q0, pos as int));
            assert(opt_wf(c));
            assert(slot_depth_ok(c, depth as nat));
            assert(opt_mass(c) <= leaves_mass(*old(self)));
        }
        let ghost spec_c2 = insert_opt_s(
            c,
            old(self).center,
            half,
            point,
            mass,
            wx,
            wy,
            depth as nat,
        );
        let c2: Section = match c {
            None => Section {
                center: Vec2::zero(),
                com: point,
                total_mass: mass,
                width: 0,
                wx: wx,
                wy: wy,
                sub: None,
            },
            Some(mut t) => {
                if t.sub.is_none() {
                    if depth == 0 {
                        proof {
                            fx::lemma_wsum_add(
                                t.total_mass as int,
                                t.wx as int,
                                mass as int,
                                wx as int,
                            );
                            fx::lemma_wsum_add(
                                t.total_mass as int,
                                t.wy as int,
                                mass as int,
                                wy as int,
                            );
                            fx::lemma_wsum_fits((t.total_mass + mass) as int, t.wx + wx);
                            fx::lemma_wsum_fits((t.total_mass + mass) as int, t.wy + wy);
                        }
                        let m2 = t.total_mass + mass;
                        let wx2 = t.wx + wx;
                        let wy2 = t.wy + wy;
                        t.total_mass = m2;
                        t.wx = wx2;
                        t.wy = wy2;
                        t.com = Vec2(fx::tdiv_i(wx2, m2), fx::tdiv_i(wy2, m2));
                        t
                    } else {
                        let off = Section::offset(self.center, t.com, half);
                        let mut n = Section::new(self.center, half, off);
                        n.insert(t.com, t.total_mass, t.wx, t.wy, depth - 1);
                        proof {
                            lemma_insert(
                                new_s(old(self).center, half, offset_s(old(self).center, t.com, half)),
                                t.com,
                                t.total_mass,
                                t.wx,
                                t.wy,
                                (depth - 1) as nat,
                            );
                        }
                        n.insert(point, mass, wx, wy, depth - 1);
                        n
                    }
                } else {
                    t.insert(point, mass, wx, wy, depth - 1);
                    t
                }
            },
        };
        assert(c2 == spec_c2);
        if pos == 0 {
            quad.q0 = Some(c2);
        } else if pos == 1 {
            quad.q1 = Some(c2);
        } else if pos == 2 {
            quad.q2 = Some(c2);
        } else {
            quad.q3 = Some(c2);
        }
        self.sub = Some(quad);
    }

    /// Insert one (point, mass) sample into this cell.
    pub fn add(&mut self, point: Vec2, mass: i128)
        requires
            is_node(*old(self)),
            wf_tree(*old(self)),
            depth_ok(*old(self), MAX_DEPTH as nat),
            v_in_range(point),
            0 < mass,
            leaves_mass(*old(self)) + mass <= MASS_CAP,
        ensures
            *final(self) == insert_s(
                *old(self),
                point,
                mass,
                (mass * point.0) as i128,
                (mass * point.1) as i128,
                MAX_DEPTH as nat,
            ),
    {
        proof {
            lemma_leaves_bounds(*old(self));
            fx::lemma_mul_bound(mass as int, point.0 as int, MASS_CAP as int, MAXF as int);
            fx::lemma_mul_bound(mass as int, point.1 as int, MASS_CAP as int, MAXF as int);
            assert(mass * point.0 <= mass * MAXF && -(mass * MAXF) <= mass * point.0)
                by (nonlinear_arith)
                requires
                    0 < mass,
                    -MAXF <= point.0 <= MAXF,
            ;
            assert(mass * point.1 <= mass * MAXF && -(mass * MAXF) <= mass * point.1)
                by (nonlinear_arith)
                requires
                    0 < mass,
                    -MAXF <= point.1 <= MAXF,
            ;
            fx::lemma_wsum_fits(mass as int, mass * point.0);
            fx::lemma_wsum_fits(mass as int, mass * point.1);
        }
        let wx = mass * point.0;
        let wy = mass * point.1;
        self.insert(point, mass, wx, wy, MAX_DEPTH);
    }
}

/// The displayed center of mass for exact weighted sums `(wxs, wys)` and
/// total mass `m`: the truncated quotient, or the origin for an empty cell.
pub open spec fn agg_com(wxs: int, wys: int, m: int) -> Vec2 {
    if m > 0 {
        Vec2((tdiv(wxs, m)) as i128, (tdiv(wys, m)) as i128)
    } else {
        Vec2(0, 0)
    }
}

/// Aggregation of one child slot.
pub open spec fn opt_agg(c: Option<Section>) -> Option<Section>
    decreases c,
{
    match c {
        None => None,
        Some(s) => Some(agg_s(s)),
    }
}

/// The bottom-up aggregation pass: every internal cell's cached fields are
/// set to its subtree totals; leaves are untouched.
pub open spec fn agg_s(s: Section) -> Section
    decreases s,
{
    match s.sub {
        None => s,
        Some(q) => Section {
            com: agg_com(leaves_wx(s), leaves_wy(s), leaves_mass(s)),
            total_mass: (leaves_mass(s)) as i128,
            wx: (leaves_wx(s)) as i128,
            wy: (leaves_wy(s)) as i128,
            sub: Some(
                Box::new(
                    Quad {
                        q0: opt_agg(q.q0),
                        q1: opt_agg(q.q1),
                        q2: opt_agg(q.q2),
                        q3: opt_agg(q.q3),
                    },
                ),
            ),
            ..s
        },
    }
}

/// Aggregation status of a slot.
pub open spec fn opt_aggregated(c: Option<Section>) -> bool
    decreases c,
{
    match c {
        None => true,
        Some(s) => aggregated(s),
    }
}

/// Every internal cell caches exactly its subtree totals and their
/// truncated center of mass.
pub open spec fn aggregated(s: Section) -> bool
    decreases s,
{
    match s.sub {
        None => true,
        Some(q) => {
            &&& s.total_mass == leaves_mass(s)
            &&& s.wx == leaves_wx(s)
            &&& s.wy == leaves_wy(s)
            &&& s.com == agg_com(leaves_wx(s), leaves_wy(s), leaves_mass(s))
            &&& opt_aggregated(q.q0)
            &&& opt_aggregated(q.q1)
            &&& opt_aggregated(q.q2)
            &&& opt_aggregated(q.q3)
        },
    }
}

/// What aggregation does: it caches subtree totals everywhere, changes no
/// leaf sample and no geometry, and preserves well-formedness.
pub proof fn lemma_agg(s: Section)
    requires
        wf_tree(s),
        leaves_mass(s) <= MASS_CAP,
    ensures
        wf_tree(agg_s(s)),
        aggregated(agg_s(s)),
        leaves_mass(agg_s(s)) == leaves_mass(s),
        leaves_wx(agg_s(s)) == leaves_wx(s),
        leaves_wy(agg_s(s)) == leaves_wy(s),
        samples(agg_s(s)) == samples(s),
        agg_s(s).center == s.center,
        agg_s(s).width == s.width,
        agg_s(s).sub is Some <==> s.sub is Some,
    decreases s,
{
    match s.sub {
        None => {},
        Some(q) => {
            lemma_opt_bounds(q.q0);
            lemma_opt_bounds(q.q1);
            lemma_opt_bounds(q.q2);
            lemma_opt_bounds(q.q3);
            lemma_agg_opt(q.q0);
            lemma_agg_opt(q.q1);
            lemma_agg_opt(q.q2);
            lemma_agg_opt(q.q3);
            lemma_leaves_bounds(s);
            if leaves_mass(s) > 0 {
                fx::lemma_tdiv_quotient_bound(leaves_wx(s), leaves_mass(s), MAXF as int);
                fx::lemma_tdiv_quotient_bound(leaves_wy(s), leaves_mass(s), MAXF as int);
            }
            assert(samples(agg_s(s)) == samples(s));
        },
    }
}

/// Slot form of `lemma_agg`.
pub proof fn lemma_agg_opt(c: Option<Section>)
    requires
        opt_wf(c),
        opt_mass(c) <= MASS_CAP,
    ensures
        opt_wf(opt_agg(c)),
        opt_aggregated(opt_agg(c)),
        opt_mass(opt_agg(c)) == opt_mass(c),
        opt_wx(opt_agg(c)) == opt_wx(c),
        opt_wy(opt_agg(c)) == opt_wy(c),
        opt_samples(opt_agg(c)) == opt_samples(c),
    decreases c,
{
    match c {
        None => {},
        Some(s) => {
            lemma_agg(s);
        },
    }
}

/// Aggregate one child slot by value, returning the new slot and its
/// subtree totals.
fn agg_slot(c: Option<Section>) -> (r: (Option<Section>, i128, i128, i128))
    requires
        opt_wf(c),
        opt_mass(c) <= MASS_CAP,
    ensures
        r.0 == opt_agg(c),
        r.1 == opt_mass(c),
        r.2 == opt_wx(c),
        r.3 == opt_wy(c),
    decreases c,
{
    match c {
        None => (None, 0, 0, 0),
        Some(s) => {
            let (t, m, x, y) = agg_val(s);
            (Some(t), m, x, y)
        },
    }
}

/// Aggregate a cell by value, returning the new cell and its subtree
/// totals.
fn agg_val(s: Section) -> (r: (Section, i128, i128, i128))
    requires
        wf_tree(s),
        leaves_mass(s) <= MASS_CAP,
    ensures
        r.0 == agg_s(s),
        r.1 == leaves_mass(s),
        r.2 == leaves_wx(s),
        r.3 == leaves_wy(s),
    decreases s,
{
    if s.sub.is_none() {
        let m = s.total_mass;
        let x = s.wx;
        let y = s.wy;
        return (s, m, x, y);
    }
    proof {
        let q = s.sub.unwrap();
        lemma_opt_bounds(q.q0);
        lemma_opt_bounds(q.q1);
        lemma_opt_bounds(q.q2);
        lemma_opt_bounds(q.q3);
        lemma_leaves_bounds(s);
        fx::lemma_wsum_fits(leaves_mass(s), leaves_wx(s));
        fx::lemma_wsum_fits(leaves_mass(s), leaves_wy(s));
        if leaves_mass(s) > 0 {
            fx::lemma_tdiv_quotient_bound(leaves_wx(s), leaves_mass(s), MAXF as int);
            fx::lemma_tdiv_quotient_bound(leaves_wy(s), leaves_mass(s), MAXF as int);
        }
    }
    let Section { center, com: _, total_mass: _, width, wx: _, wy: _, sub } = s;
    let quad = sub.unwrap();
    let Quad { q0, q1, q2, q3 } = *quad;
    let (r0, m0, x0, y0) = agg_slot(q0);
    let (r1, m1, x1, y1) = agg_slot(q1);
    let (r2, m2, x2, y2) = agg_slot(q2);
    let (r3, m3, x3, y3) = agg_slot(q3);
    let m = m0 + m1 + m2 + m3;
    let wxs = x0 + x1 + x2 + x3;
    let wys = y0 + y1 + y2 + y3;
    let com = if m > 0 {
        Vec2(fx::tdiv_i(wxs, m), fx::tdiv_i(wys, m))
    } else {
        Vec2::zero()
    };
    let t = Section {
        center: center,
        com: com,
        total_mass: m,
        width: width,
        wx: wxs,
        wy: wys,
        sub: Some(Box::new(Quad { q0: r0, q1: r1, q2: r2, q3: r3 })),
    };
    (t, m, wxs, wys)
}

impl Section {
    /// Recompute every internal cell's cached mass, weighted sums and
    /// center of mass from its subtree.
    pub fn aggregate(&mut self)
        requires
            wf_tree(*old(self)),
            leaves_mass(*old(self)) <= MASS_CAP,
        ensures
            *final(self) == agg_s(*old(self)),
    {
        let mut tmp = Section {
            center: Vec2(0, 0),
            com: Vec2(0, 0),
            total_mass: 1,
            width: 0,
            wx: 0,
            wy: 0,
            sub: None,
        };
        core::mem::swap(self, &mut tmp);
        let (t, _m, _x, _y) = agg_val(tmp);
        *self = t;
    }
}

/// The accepted-cell kernel: `dx * (mass * inv * sqrt(inv))`, the softened
/// attraction of a mass at displacement `dx` with `inv = 1/(r^2 + eps^2)`.
pub open spec fn contrib_kernel(dx: Vec2, mass: i128, inv: int) -> Vec2 {
    v_mul(dx, fmul(fmul(mass as int, inv), fsqrt(inv)))
}

/// The contribution of one child slot to the acceleration of a body at
/// `x`, as an exact integer pair: empty cells and the body's own leaf
/// contribute nothing; a leaf or a cell accepted by the opening criterion
/// contributes the kernel; any other cell contributes the exact sum over
/// its children.
pub open spec fn opt_contrib(c: Option<Section>, x: Vec2, th_sq: int, soft_sq: int) -> (int, int)
    decreases c,
{
    match c {
        None => (0, 0),
        Some(s) => {
            if s.total_mass <= 0 {
                (0, 0)
            } else if s.sub is None && s.com == x {
                (0, 0)
            } else {
                let dx = v_sub(s.com, x);
                let denom = sat(v_dot(dx, dx) + soft_sq);
                let inv = fdiv(SCALE as int, denom);
                if s.sub is None || fmul(fmul(s.width as int, s.width as int), inv) < th_sq {
                    let k = contrib_kernel(dx, s.total_mass, inv);
                    (k.0 as int, k.1 as int)
                } else {
                    accel_of(s, x, th_sq, soft_sq)
                }
            }
        },
    }
}

/// The Barnes-Hut acceleration a body at `x` receives from the children of
/// the cell `s`, as an exact integer sum of the child contributions.
pub open spec fn accel_of(s: Section, x: Vec2, th_sq: int, soft_sq: int) -> (int, int)
    decreases s,
{
    match s.sub {
        None => (0, 0),
        Some(q) => {
            let c0 = opt_contrib(q.q0, x, th_sq, soft_sq);
            let c1 = opt_contrib(q.q1, x, th_sq, soft_sq);
            let c2 = opt_contrib(q.q2, x, th_sq, soft_sq);
            let c3 = opt_contrib(q.q3, x, th_sq, soft_sq);
            (c0.0 + c1.0 + c2.0 + c3.0, c0.1 + c1.1 + c2.1 + c3.1)
        },
    }
}

/// A body after the force pass: the tree's acceleration added onto its
/// acceleration field and clamped once, everything else unchanged.
pub open spec fn attracted_s(s: Section, b: Body, th_sq: int, soft_sq: int) -> Body {
    let acc = accel_of(s, b.x, th_sq, soft_sq);
    Body {
        a: Vec2((sat(b.a.0 + acc.0)) as i128, (sat(b.a.1 + acc.1)) as i128),
        ..b
    }
}

/// One slot's contribution is bounded by its subtree mass times the
/// saturation bound: every accepted cell holds at least one raw unit of
/// mass and contributes one clamped kernel.
pub proof fn lemma_contrib_bound(c: Option<Section>, x: Vec2, th_sq: int, soft_sq: int)
    requires
        opt_wf(c),
        opt_aggregated(c),
    ensures
        -(opt_mass(c) * MAXF) <= opt_contrib(c, x, th_sq, soft_sq).0 <= opt_mass(c) * MAXF,
        -(opt_mass(c) * MAXF) <= opt_contrib(c, x, th_sq, soft_sq).1 <= opt_mass(c) * MAXF,
    decreases c,
{
    match c {
        None => {},
        Some(s) => {
            lemma_leaves_bounds(s);
            if s.total_mass <= 0 {
            } else {
                assert(1 <= opt_mass(c)) by {
                    if s.sub is Some {
                        assert(s.total_mass == leaves_mass(s));
                    }
                };
                assert(MAXF <= opt_mass(c) * MAXF) by (nonlinear_arith)
                    requires
                        1 <= opt_mass(c),
                        MAXF > 0,
                ;
                let dx = v_sub(s.com, x);
                let denom = sat(v_dot(dx, dx) + soft_sq);
                let inv = fdiv(SCALE as int, denom);
                if s.sub is None || fmul(fmul(s.width as int, s.width as int), inv) < th_sq {
                } else {
                    lemma_accel_bound(s, x, th_sq, soft_sq);
                }
            }
        },
    }
}

/// A cell's accumulated acceleration is bounded by its subtree mass times
/// the saturation bound.
pub proof fn lemma_accel_bound(s: Section, x: Vec2, th_sq: int, soft_sq: int)
    requires
        wf_tree(s),
        aggregated(s),
    ensures
        -(leaves_mass(s) * MAXF) <= accel_of(s, x, th_sq, soft_sq).0 <= leaves_mass(s) * MAXF,
        -(leaves_mass(s) * MAXF) <= accel_of(s, x, th_sq, soft_sq).1 <= leaves_mass(s) * MAXF,
    decreases s,
{
    match s.sub {
        None => {
            lemma_leaves_bounds(s);
            assert(0 <= leaves_mass(s) * MAXF) by (nonlinear_arith)
                requires
                    0 <= leaves_mass(s),
                    MAXF > 0,
            ;
        },
        Some(q) => {
            lemma_opt_bounds(q.q0);
            lemma_opt_bounds(q.q1);
            lemma_opt_bounds(q.q2);
            lemma_opt_bounds(q.q3);
            lemma_contrib_bound(q.q0, x, th_sq, soft_sq);
            lemma_contrib_bound(q.q1, x, th_sq, soft_sq);
            lemma_contrib_bound(q.q2, x, th_sq, soft_sq);
            lemma_contrib_bound(q.q3, x, th_sq, soft_sq);
            assert((opt_mass(q.q0) + opt_mass(q.q1) + opt_mass(q.q2) + opt_mass(q.q3)) * MAXF
                == opt_mass(q.q0) * MAXF + opt_mass(q.q1) * MAXF + opt_mass(q.q2) * MAXF
                + opt_mass(q.q3) * MAXF) by (nonlinear_arith);
        },
    }
}

/// Exec mirror of `opt_contrib`.
fn opt_accel(c: &Option<Section>, x: Vec2, th_sq: i128, soft_sq: i128) -> (r: (i128, i128))
    requires
        opt_wf(*c),
        opt_aggregated(*c),
        opt_mass(*c) <= MASS_CAP,
        v_in_range(x),
        in_range(th_sq as int),
        in_range(soft_sq as int),
    ensures
        r.0 == opt_contrib(*c, x, th_sq as int, soft_sq as int).0,
        r.1 == opt_contrib(*c, x, th_sq as int, soft_sq as int).1,
    decreases *c,
{
    match c {
        None => (0, 0),
        Some(s) => {
            if s.total_mass <= 0 {
                return (0, 0);
            }
            if s.sub.is_none() && s.com == x {
                return (0, 0);
            }
            let dx = s.com.sub(x);
            let denom = fx::fx_add(dx.dot(dx), soft_sq);
            let inv = fx::fx_div(SCALE, denom);
            let mac = fx::fx_mul(fx::fx_mul(s.width, s.width), inv);
            if s.sub.is_none() || mac < th_sq {
                let coeff = fx::fx_mul(fx::fx_mul(s.total_mass, inv), fx::fx_sqrt(inv));
                let k = dx.mul(coeff);
                (k.0, k.1)
            } else {
                s.accel(x, th_sq, soft_sq)
            }
        },
    }
}

impl Section {
    /// The exact accumulated Barnes-Hut acceleration of a body at `x`
    /// under this cell.
    pub fn accel(&self, x: Vec2, th_sq: i128, soft_sq: i128) -> (r: (i128, i128))
        requires
            wf_tree(*self),
            aggregated(*self),
            leaves_mass(*self) <= MASS_CAP,
            v_in_range(x),
            in_range(th_sq as int),
            in_range(soft_sq as int),
        ensures
            r.0 == accel_of(*self, x, th_sq as int, soft_sq as int).0,
            r.1 == accel_of(*self, x, th_sq as int, soft_sq as int).1,
        decreases *self,
    {
        match &self.sub {
            None => (0, 0),
            Some(q) => {
                proof {
                    lemma_opt_bounds(q.q0);
                    lemma_opt_bounds(q.q1);
                    lemma_opt_bounds(q.q2);
                    lemma_opt_bounds(q.q3);
                    lemma_contrib_bound(q.q0, x, th_sq as int, soft_sq as int);
                    lemma_contrib_bound(q.q1, x, th_sq as int, soft_sq as int);
                    lemma_contrib_bound(q.q2, x, th_sq as int, soft_sq as int);
                    lemma_contrib_bound(q.q3, x, th_sq as int, soft_sq as int);
                    fx::lemma_wsum_fits(opt_mass(q.q0), opt_contrib(q.q0, x, th_sq as int, soft_sq as int).0);
                    fx::lemma_wsum_fits(opt_mass(q.q0), opt_contrib(q.q0, x, th_sq as int, soft_sq as int).1);
                    fx::lemma_wsum_fits(opt_mass(q.q1), opt_contrib(q.q1, x, th_sq as int, soft_sq as int).0);
                    fx::lemma_wsum_fits(opt_mass(q.q1), opt_contrib(q.q1, x, th_sq as int, soft_sq as int).1);
                    fx::lemma_wsum_fits(opt_mass(q.q2), opt_contrib(q.q2, x, th_sq as int, soft_sq as int).0);
                    fx::lemma_wsum_fits(opt_mass(q.q2), opt_contrib(q.q2, x, th_sq as int, soft_sq as int).1);
                    fx::lemma_wsum_fits(opt_mass(q.q3), opt_contrib(q.q3, x, th_sq as int, soft_sq as int).0);
                    fx::lemma_wsum_fits(opt_mass(q.q3), opt_contrib(q.q3, x, th_sq as int, soft_sq as int).1);
                }
                let c0 = opt_accel(&q.q0, x, th_sq, soft_sq);
                let c1 = opt_accel(&q.q1, x, th_sq, soft_sq);
                let c2 = opt_accel(&q.q2, x, th_sq, soft_sq);
                let c3 = opt_accel(&q.q3, x, th_sq, soft_sq);
                (c0.0 + c1.0 + c2.0 + c3.0, c0.1 + c1.1 + c2.1 + c3.1)
            },
        }
    }

    /// Add this tree's Barnes-Hut acceleration onto one body.
    pub fn attract(&self, body: &mut Body, th_sq: i128, soft_sq: i128)
        requires
            wf_tree(*self),
            aggregated(*self),
            leaves_mass(*self) <= MASS_CAP,
            wf_body(*old(body)),
            in_range(th_sq as int),
            in_range(soft_sq as int),
        ensures
            *final(body) == attracted_s(*self, *old(body), th_sq as int, soft_sq as int),
            wf_body(*final(body)),
    {
        proof {
            lemma_accel_bound(*self, body.x, th_sq as int, soft_sq as int);
            lemma_leaves_bounds(*self);
            fx::lemma_wsum_fits(
                leaves_mass(*self),
                accel_of(*self, body.x, th_sq as int, soft_sq as int).0,
            );
            fx::lemma_wsum_fits(
                leaves_mass(*self),
                accel_of(*self, body.x, th_sq as int, soft_sq as int).1,
            );
        }
        let (ax, ay) = self.accel(body.x, th_sq, soft_sq);
        body.a = Vec2(fx::sat_i(body.a.0 + ax), fx::sat_i(body.a.1 + ay));
    }
}

/// The softened pairwise attraction a body at `x` receives from one
/// sample `(p, m)`: zero for a sample at the body's own position, else
/// the kernel with `inv = 1/(|p - x|^2 + eps^2)`.
pub open spec fn pair_contrib(x: Vec2, p: Vec2, m: i128, soft_sq: int) -> (int, int) {
    if p == x {
        (0, 0)
    } else {
        let dx = v_sub(p, x);
        let denom = sat(v_dot(dx, dx) + soft_sq);
        let inv = fdiv(SCALE as int, denom);
        let k = contrib_kernel(dx, m, inv);
        (k.0 as int, k.1 as int)
    }
}

/// The exact direct sum of the pairwise attractions of a sample sequence
/// on a body at `x`.
pub open spec fn direct_sum(ss: Seq<(Vec2, i128)>, x: Vec2, soft_sq: int) -> (int, int)
    decreases ss.len(),
{
    if ss.len() == 0 {
        (0, 0)
    } else {
        let r = direct_sum(ss.drop_last(), x, soft_sq);
        let k = pair_contrib(x, ss.last().0, ss.last().1, soft_sq);
        (r.0 + k.0, r.1 + k.1)
    }
}

/// The direct sum splits over concatenation.
pub proof fn lemma_direct_sum_concat(a: Seq<(Vec2, i128)>, b: Seq<(Vec2, i128)>, x: Vec2, soft_sq: int)
    ensures
        direct_sum(a + b, x, soft_sq).0 == direct_sum(a, x, soft_sq).0 + direct_sum(
            b,
            x,
            soft_sq,
        ).0,
        direct_sum(a + b, x, soft_sq).1 == direct_sum(a, x, soft_sq).1 + direct_sum(
            b,
            x,
            soft_sq,
        ).1,
    decreases b.len(),
{
    if b.len() == 0 {
        assert(a + b =~= a);
    } else {
        lemma_direct_sum_concat(a, b.drop_last(), x, soft_sq);
        assert((a + b).drop_last() =~= a + b.drop_last());
        assert((a + b).last() == b.last());
    }
}

/// A well-formed subtree with no mass holds no samples.
pub proof fn lemma_no_mass_no_samples(s: Section)
    requires
        wf_tree(s),
        leaves_mass(s) <= 0,
    ensures
        samples(s) == Seq::<(Vec2, i128)>::empty(),
    decreases s,
{
    match s.sub {
        None => {},
        Some(q) => {
            lemma_opt_bounds(q.q0);
            lemma_opt_bounds(q.q1);
            lemma_opt_bounds(q.q2);
            lemma_opt_bounds(q.q3);
            lemma_opt_no_mass(q.q0);
            lemma_opt_no_mass(q.q1);
            lemma_opt_no_mass(q.q2);
            lemma_opt_no_mass(q.q3);
            assert(samples(s) =~= Seq::<(Vec2, i128)>::empty());
        },
    }
}

/// Slot form of `lemma_no_mass_no_samples`.
pub proof fn lemma_opt_no_mass(c: Option<Section>)
    requires
        opt_wf(c),
        opt_mass(c) <= 0,
    ensures
        opt_samples(c) == Seq::<(Vec2, i128)>::empty(),
    decreases c,
{
    match c {
        None => {
            assert(opt_samples(c) =~= Seq::<(Vec2, i128)>::empty());
        },
        Some(s) => {
            lemma_no_mass_no_samples(s);
        },
    }
}

/// Direct-sum equivalence with the opening criterion disabled: at
/// `theta = 0` no cell is ever accepted as an aggregate, so the evaluator
/// computes exactly the softened pairwise sum over the tree's samples.
pub proof fn lemma_theta_zero_direct(s: Section, x: Vec2, soft_sq: int)
    requires
        wf_tree(s),
        aggregated(s),
        is_node(s),
    ensures
        accel_of(s, x, 0, soft_sq) == direct_sum(samples(s), x, soft_sq),
    decreases s,
{
    let q = s.sub.unwrap();
    lemma_opt_theta_zero(q.q0, x, soft_sq);
    lemma_opt_theta_zero(q.q1, x, soft_sq);
    lemma_opt_theta_zero(q.q2, x, soft_sq);
    lemma_opt_theta_zero(q.q3, x, soft_sq);
    lemma_direct_sum_concat(opt_samples(q.q0), opt_samples(q.q1), x, soft_sq);
    lemma_direct_sum_concat(opt_samples(q.q0) + opt_samples(q.q1), opt_samples(q.q2), x, soft_sq);
    lemma_direct_sum_concat(
        opt_samples(q.q0) + opt_samples(q.q1) + opt_samples(q.q2),
        opt_samples(q.q3),
        x,
        soft_sq,
    );
}

/// Slot form of `lemma_theta_zero_direct`.
pub proof fn lemma_opt_theta_zero(c: Option<Section>, x: Vec2, soft_sq: int)
    requires
        opt_wf(c),
        opt_aggregated(c),
    ensures
        opt_contrib(c, x, 0, soft_sq).0 == direct_sum(opt_samples(c), x, soft_sq).0,
        opt_contrib(c, x, 0, soft_sq).1 == direct_sum(opt_samples(c), x, soft_sq).1,
    decreases c,
{
    match c {
        None => {
            assert(opt_samples(c) =~= Seq::<(Vec2, i128)>::empty());
            assert(direct_sum(opt_samples(c), x, soft_sq) == (0int, 0int));
        },
        Some(t) => {
            if t.sub is None {
                assert(samples(t) == seq![(t.com, t.total_mass)]);
                let e = samples(t).drop_last();
                assert(e.len() == 0);
                assert(direct_sum(e, x, soft_sq) == (0int, 0int));
                assert(samples(t).last() == (t.com, t.total_mass));
            } else {
                if t.total_mass <= 0 {
                    lemma_no_mass_no_samples(t);
                } else {
                    let dx = v_sub(t.com, x);
                    let denom = sat(v_dot(dx, dx) + soft_sq);
                    fx::lemma_fdiv_nonneg(SCALE as int, denom);
                    fx::lemma_fmul_nonneg(t.width as int, t.width as int);
                    fx::lemma_fmul_nonneg(
                        fmul(t.width as int, t.width as int),
                        fdiv(SCALE as int, denom),
                    );
                    lemma_theta_zero_direct(t, x, soft_sq);
                }
            }
        },
    }
}

/// Action equals reaction exactly: the pairwise kernel is odd under
/// exchanging the body and the sample point, because truncated division
/// and clamping are odd.
pub proof fn lemma_pair_antisym(x: Vec2, p: Vec2, m: i128, soft_sq: int)
    requires
        v_in_range(x),
        v_in_range(p),
    ensures
        pair_contrib(x, p, m, soft_sq).0 == -pair_contrib(p, x, m, soft_sq).0,
        pair_contrib(x, p, m, soft_sq).1 == -pair_contrib(p, x, m, soft_sq).1,
{
    if p != x {
        let dx = v_sub(p, x);
        let dy = v_sub(x, p);
        assert(dy == v_neg(dx));
        crate::vec::lemma_dot_neg(dx, dx);
        let denom = sat(v_dot(dx, dx) + soft_sq);
        let inv = fdiv(SCALE as int, denom);
        crate::vec::lemma_mul_neg(dx, fmul(fmul(m as int, inv), fsqrt(inv)));
    }
}

/// The direct acceleration of a body at `x` from the first `n` bodies
/// (a sample at `x` itself contributes nothing).
pub open spec fn direct_accel_upto(bs: Seq<Body>, n: int, x: Vec2, soft_sq: int) -> (int, int)
    decreases n,
{
    if n <= 0 {
        (0, 0)
    } else {
        let r = direct_accel_upto(bs, n - 1, x, soft_sq);
        let k = pair_contrib(x, bs[n - 1].x, bs[n - 1].m, soft_sq);
        (r.0 + k.0, r.1 + k.1)
    }
}

/// The summed reaction of the first `n` bodies to one sample `(p, pm)`.
pub open spec fn col_sum_upto(bs: Seq<Body>, n: int, p: Vec2, pm: i128, soft_sq: int) -> (
    int,
    int,
)
    decreases n,
{
    if n <= 0 {
        (0, 0)
    } else {
        let r = col_sum_upto(bs, n - 1, p, pm, soft_sq);
        let k = pair_contrib(bs[n - 1].x, p, pm, soft_sq);
        (r.0 + k.0, r.1 + k.1)
    }
}

/// For equal masses, a row of attractions cancels the matching column of
/// reactions exactly.
pub proof fn lemma_row_col_cancel(bs: Seq<Body>, n: int, p: Vec2, c: i128, soft_sq: int)
    requires
        wf_bodies(bs),
        v_in_range(p),
        0 <= n <= bs.len(),
        forall|j: int| 0 <= j < bs.len() ==> (#[trigger] bs[j].m) == c,
    ensures
        direct_accel_upto(bs, n, p, soft_sq).0 == -col_sum_upto(bs, n, p, c, soft_sq).0,
        direct_accel_upto(bs, n, p, soft_sq).1 == -col_sum_upto(bs, n, p, c, soft_sq).1,
    decreases n,
{
    if n > 0 {
        lemma_row_col_cancel(bs, n - 1, p, c, soft_sq);
        assert(wf_body(bs[n - 1]));
        lemma_pair_antisym(p, bs[n - 1].x, c, soft_sq);
    }
}

/// The sum of the direct accelerations of the first `k` bodies, each
/// evaluated against the first `m` bodies.
pub open spec fn accel_total(bs: Seq<Body>, m: int, k: int, soft_sq: int) -> (int, int)
    decreases k,
{
    if k <= 0 {
        (0, 0)
    } else {
        let r = accel_total(bs, m, k - 1, soft_sq);
        let a = direct_accel_upto(bs, m, bs[k - 1].x, soft_sq);
        (r.0 + a.0, r.1 + a.1)
    }
}

/// Extending every row by one more source adds that source's column of
/// reactions.
pub proof fn lemma_accel_total_extend(bs: Seq<Body>, m: int, k: int, soft_sq: int)
    requires
        0 < m,
        0 <= k <= bs.len(),
        m <= bs.len(),
    ensures
        accel_total(bs, m, k, soft_sq).0 == accel_total(bs, m - 1, k, soft_sq).0 + col_sum_upto(
            bs,
            k,
            bs[m - 1].x,
            bs[m - 1].m,
            soft_sq,
        ).0,
        accel_total(bs, m, k, soft_sq).1 == accel_total(bs, m - 1, k, soft_sq).1 + col_sum_upto(
            bs,
            k,
            bs[m - 1].x,
            bs[m - 1].m,
            soft_sq,
        ).1,
    decreases k,
{
    if k > 0 {
        lemma_accel_total_extend(bs, m, k - 1, soft_sq);
    }
}

/// Momentum conservation for the exact direct sum: with equal masses the
/// pairwise attractions cancel in pairs, so the accelerations of a system
/// sum to zero exactly, and the total momentum change of a step is only
/// the per-body truncation of the velocity update.
pub proof fn lemma_momentum_zero(bs: Seq<Body>, m: int, soft_sq: int)
    requires
        wf_bodies(bs),
        0 <= m <= bs.len(),
        forall|j: int| 0 <= j < bs.len() ==> (#[trigger] bs[j].m) == bs[0].m,
    ensures
        accel_total(bs, m, m, soft_sq).0 == 0,
        accel_total(bs, m, m, soft_sq).1 == 0,
    decreases m,
{
    if m > 0 {
        lemma_momentum_zero(bs, m - 1, soft_sq);
        lemma_accel_total_extend(bs, m, m - 1, soft_sq);
        assert(wf_body(bs[m - 1]));
        lemma_row_col_cancel(bs, m - 1, bs[m - 1].x, bs[0].m, soft_sq);
        assert(pair_contrib(bs[m - 1].x, bs[m - 1].x, bs[m - 1].m, soft_sq) == (0int, 0int));
    }
}

/// The x component of the total momentum `sum m * v` of the first `n`
/// bodies, as an exact integer.
pub open spec fn momentum_x(bs: Seq<Body>, n: int) -> int
    decreases n,
{
    if n <= 0 {
        0
    } else {
        momentum_x(bs, n - 1) + bs[n - 1].m * bs[n - 1].v.0
    }
}

/// The y component of the total momentum of the first `n` bodies.
pub open spec fn momentum_y(bs: Seq<Body>, n: int) -> int
    decreases n,
{
    if n <= 0 {
        0
    } else {
        momentum_y(bs, n - 1) + bs[n - 1].m * bs[n - 1].v.1
    }
}

/// The exact sums of the stored acceleration components of the first `n`
/// bodies.
pub open spec fn accel_sum_x(bs: Seq<Body>, n: int) -> int
    decreases n,
{
    if n <= 0 {
        0
    } else {
        accel_sum_x(bs, n - 1) + bs[n - 1].a.0
    }
}

/// The y companion of `accel_sum_x`.
pub open spec fn accel_sum_y(bs: Seq<Body>, n: int) -> int
    decreases n,
{
    if n <= 0 {
        0
    } else {
        accel_sum_y(bs, n - 1) + bs[n - 1].a.1
    }
}

/// A body whose velocity kick `a * dt` and kicked velocity stay strictly
/// inside the saturation bound, so its update clamps nothing.
pub open spec fn kick_unclamped(b: Body, dt: int) -> bool {
    let kx = tdiv(b.a.0 * dt, SCALE as int);
    let ky = tdiv(b.a.1 * dt, SCALE as int);
    &&& -MAXF <= kx <= MAXF
    &&& -MAXF <= ky <= MAXF
    &&& -MAXF <= b.v.0 + kx <= MAXF
    &&& -MAXF <= b.v.1 + ky <= MAXF
}

/// The whole body sequence after one advance pass.
pub open spec fn advanced_s(bs: Seq<Body>, dt: int) -> Seq<Body> {
    Seq::new(bs.len(), |i: int| advance_s(bs[i], dt))
}

/// The exact sums of the truncated velocity kicks of the first `n` bodies.
pub open spec fn kick_sum_x(bs: Seq<Body>, n: int, dt: int) -> int
    decreases n,
{
    if n <= 0 {
        0
    } else {
        kick_sum_x(bs, n - 1, dt) + tdiv(bs[n - 1].a.0 * dt, SCALE as int)
    }
}

/// The y companion of `kick_sum_x`.
pub open spec fn kick_sum_y(bs: Seq<Body>, n: int, dt: int) -> int
    decreases n,
{
    if n <= 0 {
        0
    } else {
        kick_sum_y(bs, n - 1, dt) + tdiv(bs[n - 1].a.1 * dt, SCALE as int)
    }
}

/// With a common mass and no clamping, the advance pass changes the total
/// momentum by exactly the common mass times the summed truncated kicks.
pub proof fn lemma_momentum_advance(bs: Seq<Body>, dt: int, c: i128, n: int)
    requires
        wf_bodies(bs),
        0 <= n <= bs.len(),
        forall|i: int| 0 <= i < bs.len() ==> (#[trigger] bs[i]).m == c,
        forall|i: int| 0 <= i < bs.len() ==> kick_unclamped(#[trigger] bs[i], dt),
    ensures
        momentum_x(advanced_s(bs, dt), n) == momentum_x(bs, n) + c * kick_sum_x(bs, n, dt),
        momentum_y(advanced_s(bs, dt), n) == momentum_y(bs, n) + c * kick_sum_y(bs, n, dt),
    decreases n,
{
    if n > 0 {
        lemma_momentum_advance(bs, dt, c, n - 1);
        let b = bs[n - 1];
        let kx = tdiv(b.a.0 * dt, SCALE as int);
        let ky = tdiv(b.a.1 * dt, SCALE as int);
        assert(advanced_s(bs, dt)[n - 1] == advance_s(b, dt));
        assert(advance_s(b, dt).v.0 == b.v.0 + kx);
        assert(advance_s(b, dt).v.1 == b.v.1 + ky);
        assert(c * (b.v.0 + kx) == c * b.v.0 + c * kx) by (nonlinear_arith);
        assert(c * (b.v.1 + ky) == c * b.v.1 + c * ky) by (nonlinear_arith);
        assert(c * (kick_sum_x(bs, n - 1, dt) + kx) == c * kick_sum_x(bs, n - 1, dt) + c * kx)
            by (nonlinear_arith);
        assert(c * (kick_sum_y(bs, n - 1, dt) + ky) == c * kick_sum_y(bs, n - 1, dt) + c * ky)
            by (nonlinear_arith);
    }
}

/// The summed truncated kicks differ from the exact `sum a * dt / SCALE`
/// by less than one raw unit per body.
pub proof fn lemma_kick_sum_bound(bs: Seq<Body>, dt: int, n: int)
    requires
        0 <= n <= bs.len(),
    ensures
        n > 0 ==> -(n * SCALE) < SCALE * kick_sum_x(bs, n, dt) - accel_sum_x(bs, n) * dt < n
            * SCALE,
        n > 0 ==> -(n * SCALE) < SCALE * kick_sum_y(bs, n, dt) - accel_sum_y(bs, n) * dt < n
            * SCALE,
        n == 0 ==> kick_sum_x(bs, n, dt) == 0 && kick_sum_y(bs, n, dt) == 0 && accel_sum_x(
            bs,
            n,
        ) == 0 && accel_sum_y(bs, n) == 0,
    decreases n,
{
    if n > 0 {
        lemma_kick_sum_bound(bs, dt, n - 1);
        let b = bs[n - 1];
        fx::lemma_tdiv_rem(b.a.0 * dt, SCALE as int);
        fx::lemma_tdiv_rem(b.a.1 * dt, SCALE as int);
        assert(SCALE * (kick_sum_x(bs, n - 1, dt) + tdiv(b.a.0 * dt, SCALE as int)) == SCALE
            * kick_sum_x(bs, n - 1, dt) + SCALE * tdiv(b.a.0 * dt, SCALE as int))
            by (nonlinear_arith);
        assert(SCALE * (kick_sum_y(bs, n - 1, dt) + tdiv(b.a.1 * dt, SCALE as int)) == SCALE
            * kick_sum_y(bs, n - 1, dt) + SCALE * tdiv(b.a.1 * dt, SCALE as int))
            by (nonlinear_arith);
        assert((accel_sum_x(bs, n - 1) + b.a.0) * dt == accel_sum_x(bs, n - 1) * dt + b.a.0 * dt)
            by (nonlinear_arith);
        assert((accel_sum_y(bs, n - 1) + b.a.1) * dt == accel_sum_y(bs, n - 1) * dt + b.a.1 * dt)
            by (nonlinear_arith);
        assert((n - 1) * SCALE + SCALE == n * SCALE) by (nonlinear_arith);
    }
}

/// Momentum near-conservation: when the stored accelerations sum to zero
/// exactly (as the pairwise attractions of `lemma_momentum_zero` do) and
/// no velocity update clamps, one advance pass moves each component of
/// the total momentum `sum m * v` by less than one raw velocity unit per
/// body, scaled by the common mass.
pub proof fn lemma_momentum_near_conservation(bs: Seq<Body>, dt: int, c: i128)
    requires
        wf_bodies(bs),
        bs.len() > 0,
        0 < c,
        forall|i: int| 0 <= i < bs.len() ==> (#[trigger] bs[i]).m == c,
        forall|i: int| 0 <= i < bs.len() ==> kick_unclamped(#[trigger] bs[i], dt),
        accel_sum_x(bs, bs.len() as int) == 0,
        accel_sum_y(bs, bs.len() as int) == 0,
    ensures
        -(c * bs.len()) < momentum_x(advanced_s(bs, dt), bs.len() as int) - momentum_x(
            bs,
            bs.len() as int,
        ) < c * bs.len(),
        -(c * bs.len()) < momentum_y(advanced_s(bs, dt), bs.len() as int) - momentum_y(
            bs,
            bs.len() as int,
        ) < c * bs.len(),
{
    let n = bs.len() as int;
    lemma_momentum_advance(bs, dt, c, n);
    lemma_kick_sum_bound(bs, dt, n);
    assert(-(n * SCALE) < SCALE * kick_sum_x(bs, n, dt) < n * SCALE);
    assert(-(n * SCALE) < SCALE * kick_sum_y(bs, n, dt) < n * SCALE);
    assert(-n < kick_sum_x(bs, n, dt) < n) by (nonlinear_arith)
        requires
            -(n * SCALE) < SCALE * kick_sum_x(bs, n, dt) < n * SCALE,
            SCALE > 0,
    ;
    assert(-n < kick_sum_y(bs, n, dt) < n) by (nonlinear_arith)
        requires
            -(n * SCALE) < SCALE * kick_sum_y(bs, n, dt) < n * SCALE,
            SCALE > 0,
    ;
    assert(-(c * n) < c * kick_sum_x(bs, n, dt) < c * n) by (nonlinear_arith)
        requires
            0 < c,
            -n < kick_sum_x(bs, n, dt) < n,
    ;
    assert(-(c * n) < c * kick_sum_y(bs, n, dt) < c * n) by (nonlinear_arith)
        requires
            0 < c,
            -n < kick_sum_y(bs, n, dt) < n,
    ;
}

/// Mass of the bodies among the first `n` whose position falls in quadrant
/// `idx` of a cell centered at `pc`.
pub open spec fn quad_mass_upto(bs: Seq<Body>, n: int, idx: int, pc: Vec2) -> int
    decreases n,
{
    if n <= 0 {
        0
    } else {
        quad_mass_upto(bs, n - 1, idx, pc) + if position_s(pc, bs[n - 1].x) == idx {
            bs[n - 1].m as int
        } else {
            0
        }
    }
}

/// Mass-weighted x sum of the bodies among the first `n` in quadrant `idx`.
pub open spec fn quad_wx_upto(bs: Seq<Body>, n: int, idx: int, pc: Vec2) -> int
    decreases n,
{
    if n <= 0 {
        0
    } else {
        quad_wx_upto(bs, n - 1, idx, pc) + if position_s(pc, bs[n - 1].x) == idx {
            bs[n - 1].m * bs[n - 1].x.0
        } else {
            0
        }
    }
}

/// Mass-weighted y sum of the bodies among the first `n` in quadrant `idx`.
pub open spec fn quad_wy_upto(bs: Seq<Body>, n: int, idx: int, pc: Vec2) -> int
    decreases n,
{
    if n <= 0 {
        0
    } else {
        quad_wy_upto(bs, n - 1, idx, pc) + if position_s(pc, bs[n - 1].x) == idx {
            bs[n - 1].m * bs[n - 1].x.1
        } else {
            0
        }
    }
}

/// The four quadrants partition the bodies: per-quadrant sums add up to
/// the whole-sequence sums.
pub proof fn lemma_partition(bs: Seq<Body>, n: int, pc: Vec2)
    requires
        0 <= n <= bs.len(),
    ensures
        quad_mass_upto(bs, n, 0, pc) + quad_mass_upto(bs, n, 1, pc) + quad_mass_upto(bs, n, 2, pc)
            + quad_mass_upto(bs, n, 3, pc) == sum_mass_upto(bs, n),
        quad_wx_upto(bs, n, 0, pc) + quad_wx_upto(bs, n, 1, pc) + quad_wx_upto(bs, n, 2, pc)
            + quad_wx_upto(bs, n, 3, pc) == wsum_x_upto(bs, n),
        quad_wy_upto(bs, n, 0, pc) + quad_wy_upto(bs, n, 1, pc) + quad_wy_upto(bs, n, 2, pc)
            + quad_wy_upto(bs, n, 3, pc) == wsum_y_upto(bs, n),
    decreases n,
{
    if n > 0 {
        lemma_partition(bs, n - 1, pc);
    }
}

/// Per-quadrant sums are bounded by the whole-sequence sums.
pub proof fn lemma_quad_bounds(bs: Seq<Body>, n: int, idx: int, pc: Vec2)
    requires
        wf_bodies(bs),
        0 <= n <= bs.len(),
    ensures
        0 <= quad_mass_upto(bs, n, idx, pc) <= sum_mass_upto(bs, n),
        -(quad_mass_upto(bs, n, idx, pc) * MAXF) <= quad_wx_upto(bs, n, idx, pc)
            <= quad_mass_upto(bs, n, idx, pc) * MAXF,
        -(quad_mass_upto(bs, n, idx, pc) * MAXF) <= quad_wy_upto(bs, n, idx, pc)
            <= quad_mass_upto(bs, n, idx, pc) * MAXF,
    decreases n,
{
    if n > 0 {
        lemma_quad_bounds(bs, n - 1, idx, pc);
        assert(wf_body(bs[n - 1]));
        let b = bs[n - 1];
        if position_s(pc, b.x) == idx {
            assert(-(b.m * MAXF) <= b.m * b.x.0 <= b.m * MAXF) by (nonlinear_arith)
                requires
                    0 < b.m,
                    -MAXF <= b.x.0 <= MAXF,
            ;
            assert(-(b.m * MAXF) <= b.m * b.x.1 <= b.m * MAXF) by (nonlinear_arith)
                requires
                    0 < b.m,
                    -MAXF <= b.x.1 <= MAXF,
            ;
            fx::lemma_wsum_add(
                quad_mass_upto(bs, n - 1, idx, pc),
                quad_wx_upto(bs, n - 1, idx, pc),
                b.m as int,
                b.m * b.x.0,
            );
            fx::lemma_wsum_add(
                quad_mass_upto(bs, n - 1, idx, pc),
                quad_wy_upto(bs, n - 1, idx, pc),
                b.m as int,
                b.m * b.x.1,
            );
        }
    }
}

/// Prefix mass sums grow with the prefix.
pub proof fn lemma_sum_mass_mono(bs: Seq<Body>, n: int, m: int)
    requires
        wf_bodies(bs),
        0 <= n <= m <= bs.len(),
    ensures
        sum_mass_upto(bs, n) <= sum_mass_upto(bs, m),
        0 <= sum_mass_upto(bs, n),
    decreases m,
{
    if n < m {
        lemma_sum_mass_mono(bs, n, m - 1);
        assert(wf_body(bs[m - 1]));
    } else if n > 0 {
        lemma_sum_mass_mono(bs, n - 1, n - 1);
        assert(wf_body(bs[n - 1]));
    }
}

/// The sequential insertion of the first `n` bodies that fall in quadrant
/// `idx` of a cell centered at `pc` into the fresh child cell `sec`.
pub open spec fn build_quad_upto(sec: Section, bs: Seq<Body>, n: int, idx: int, pc: Vec2) -> Section
    decreases n,
{
    if n <= 0 {
        sec
    } else {
        let prev = build_quad_upto(sec, bs, n - 1, idx, pc);
        let b = bs[n - 1];
        if position_s(pc, b.x) == idx {
            insert_s(
                prev,
                b.x,
                b.m,
                (b.m * b.x.0) as i128,
                (b.m * b.x.1) as i128,
                MAX_DEPTH as nat,
            )
        } else {
            prev
        }
    }
}

/// One finished quadrant subtree: all of its bodies inserted, then
/// aggregated bottom-up.
pub open spec fn built_quadrant_s(sec: Section, bs: Seq<Body>, idx: int, pc: Vec2) -> Section {
    agg_s(build_quad_upto(sec, bs, bs.len() as int, idx, pc))
}

/// What the quadrant build does to the subtree totals and shape.
pub proof fn lemma_build_quad(sec: Section, bs: Seq<Body>, n: int, idx: int, pc: Vec2)
    requires
        is_node(sec),
        wf_tree(sec),
        depth_ok(sec, MAX_DEPTH as nat),
        leaves_mass(sec) == 0,
        leaves_wx(sec) == 0,
        leaves_wy(sec) == 0,
        wf_bodies(bs),
        0 <= n <= bs.len(),
        sum_mass(bs) <= MASS_CAP,
    ensures
        is_node(build_quad_upto(sec, bs, n, idx, pc)),
        wf_tree(build_quad_upto(sec, bs, n, idx, pc)),
        depth_ok(build_quad_upto(sec, bs, n, idx, pc), MAX_DEPTH as nat),
        leaves_mass(build_quad_upto(sec, bs, n, idx, pc)) == quad_mass_upto(bs, n, idx, pc),
        leaves_wx(build_quad_upto(sec, bs, n, idx, pc)) == quad_wx_upto(bs, n, idx, pc),
        leaves_wy(build_quad_upto(sec, bs, n, idx, pc)) == quad_wy_upto(bs, n, idx, pc),
        build_quad_upto(sec, bs, n, idx, pc).center == sec.center,
        build_quad_upto(sec, bs, n, idx, pc).width == sec.width,
    decreases n,
{
    if n > 0 {
        lemma_build_quad(sec, bs, n - 1, idx, pc);
        let prev = build_quad_upto(sec, bs, n - 1, idx, pc);
        let b = bs[n - 1];
        assert(wf_body(b));
        if position_s(pc, b.x) == idx {
            lemma_quad_bounds(bs, n, idx, pc);
            lemma_sum_mass_mono(bs, n, bs.len() as int);
            assert(-(b.m * MAXF) <= b.m * b.x.0 <= b.m * MAXF) by (nonlinear_arith)
                requires
                    0 < b.m,
                    -MAXF <= b.x.0 <= MAXF,
            ;
            assert(-(b.m * MAXF) <= b.m * b.x.1 <= b.m * MAXF) by (nonlinear_arith)
                requires
                    0 < b.m,
                    -MAXF <= b.x.1 <= MAXF,
            ;
            fx::lemma_wsum_fits(b.m as int, b.m * b.x.0);
            fx::lemma_wsum_fits(b.m as int, b.m * b.x.1);
            lemma_insert(prev, b.x, b.m, (b.m * b.x.0) as i128, (b.m * b.x.1) as i128,
                MAX_DEPTH as nat);
        }
    }
}

/// A quadrant that receives no body of a one-body sequence ends up with
/// no mass and no samples.
pub proof fn lemma_built_quadrant_empty(c: Section, bs: Seq<Body>, idx: int, pc: Vec2)
    requires
        c.sub == Some(Box::new(Quad { q0: None, q1: None, q2: None, q3: None })),
        bs.len() == 1,
        position_s(pc, bs[0].x) != idx,
    ensures
        built_quadrant_s(c, bs, idx, pc).total_mass == 0,
        samples(built_quadrant_s(c, bs, idx, pc)) == Seq::<(Vec2, i128)>::empty(),
{
    assert(build_quad_upto(c, bs, 0, idx, pc) == c);
    assert(build_quad_upto(c, bs, 1, idx, pc) == c);
    let r = built_quadrant_s(c, bs, idx, pc);
    assert(leaves_mass(c) == 0);
    assert(r.total_mass == 0);
    assert(samples(r) =~= Seq::<(Vec2, i128)>::empty());
}

/// The quadrant that receives the single body of a one-body sequence ends
/// up holding exactly that body's sample, centered on it, and contributes
/// no acceleration back to it.
pub proof fn lemma_built_quadrant_single(
    c: Section,
    bs: Seq<Body>,
    idx: int,
    pc: Vec2,
    th_sq: int,
    soft_sq: int,
)
    requires
        c.sub == Some(Box::new(Quad { q0: None, q1: None, q2: None, q3: None })),
        bs.len() == 1,
        wf_body(bs[0]),
        position_s(pc, bs[0].x) == idx,
    ensures
        built_quadrant_s(c, bs, idx, pc).total_mass == bs[0].m,
        built_quadrant_s(c, bs, idx, pc).com == bs[0].x,
        samples(built_quadrant_s(c, bs, idx, pc)) == seq![(bs[0].x, bs[0].m)],
        opt_contrib(Some(built_quadrant_s(c, bs, idx, pc)), bs[0].x, th_sq, soft_sq) == (
            0int,
            0int,
        ),
{
    let b = bs[0];
    assert(build_quad_upto(c, bs, 0, idx, pc) == c);
    assert(build_quad_upto(c, bs, 1, idx, pc) == insert_s(
        c,
        b.x,
        b.m,
        (b.m * b.x.0) as i128,
        (b.m * b.x.1) as i128,
        MAX_DEPTH as nat,
    ));
    lemma_one_sample_cell(c, b, b.x, th_sq, soft_sq);
    assert(pair_contrib(b.x, b.x, b.m, soft_sq) == (0int, 0int));
}

/// The reflection of a body through the origin.
pub open spec fn mirrored(b: Body) -> Body {
    Body { x: v_neg(b.x), v: v_neg(b.v), a: v_neg(b.a), m: b.m }
}

/// The leapfrog update commutes with reflection through the origin,
/// because every fixed-point operation involved is odd.
pub proof fn lemma_advance_mirror(b: Body, dt: int)
    requires
        wf_body(b),
    ensures
        advance_s(mirrored(b), dt) == mirrored(advance_s(b, dt)),
{
    let h = tdiv(dt, 2);
    crate::vec::lemma_mul_neg(b.a, h);
    crate::vec::lemma_add_neg(b.v, v_mul(b.a, h));
    let kick = v_add(b.v, v_mul(b.a, h));
    crate::vec::lemma_mul_neg(kick, dt);
    crate::vec::lemma_add_neg(b.x, v_mul(kick, dt));
    crate::vec::lemma_mul_neg(b.a, dt);
    crate::vec::lemma_add_neg(b.v, v_mul(b.a, dt));
    assert(v_neg(Vec2(0, 0)) == (Vec2(0, 0)));
}

/// A fresh cell that receives one sample ends up holding exactly that
/// sample, displays it as its center of mass, and contributes to any body
/// exactly the pairwise kernel of that sample.
pub proof fn lemma_one_sample_cell(c: Section, b: Body, x: Vec2, th_sq: int, soft_sq: int)
    requires
        c.sub == Some(Box::new(Quad { q0: None, q1: None, q2: None, q3: None })),
        wf_body(b),
    ensures
        agg_s(
            insert_s(c, b.x, b.m, (b.m * b.x.0) as i128, (b.m * b.x.1) as i128, MAX_DEPTH as nat),
        ).total_mass == b.m,
        agg_s(
            insert_s(c, b.x, b.m, (b.m * b.x.0) as i128, (b.m * b.x.1) as i128, MAX_DEPTH as nat),
        ).com == b.x,
        opt_contrib(
            Some(
                agg_s(
                    insert_s(
                        c,
                        b.x,
                        b.m,
                        (b.m * b.x.0) as i128,
                        (b.m * b.x.1) as i128,
                        MAX_DEPTH as nat,
                    ),
                ),
            ),
            x,
            th_sq,
            soft_sq,
        ) == pair_contrib(x, b.x, b.m, soft_sq),
        samples(
            agg_s(
                insert_s(
                    c,
                    b.x,
                    b.m,
                    (b.m * b.x.0) as i128,
                    (b.m * b.x.1) as i128,
                    MAX_DEPTH as nat,
                ),
            ),
        ) == seq![(b.x, b.m)],
{
    assert(-(b.m * MAXF) <= b.m * b.x.0 <= b.m * MAXF) by (nonlinear_arith)
        requires
            0 < b.m,
            -MAXF <= b.x.0 <= MAXF,
    ;
    assert(-(b.m * MAXF) <= b.m * b.x.1 <= b.m * MAXF) by (nonlinear_arith)
        requires
            0 < b.m,
            -MAXF <= b.x.1 <= MAXF,
    ;
    fx::lemma_wsum_fits(b.m as int, b.m * b.x.0);
    fx::lemma_wsum_fits(b.m as int, b.m * b.x.1);
    let wx = (b.m * b.x.0) as i128;
    let wy = (b.m * b.x.1) as i128;
    let ins = insert_s(c, b.x, b.m, wx, wy, MAX_DEPTH as nat);
    let pos2 = position_s(c.center, b.x);
    let q0 = Quad { q0: None, q1: None, q2: None, q3: None };
    assert(slot(q0, pos2) is None);
    let lf = leaf_s(b.x, b.m, wx, wy);
    assert(insert_opt_s(
        None,
        c.center,
        (tdiv(c.width as int, 2)) as i128,
        b.x,
        b.m,
        wx,
        wy,
        MAX_DEPTH as nat,
    ) == lf);
    assert(ins == Section { sub: Some(Box::new(set_slot(q0, pos2, Some(lf)))), ..c });
    assert(leaves_mass(ins) == b.m as int);
    assert(leaves_wx(ins) == wx as int);
    assert(leaves_wy(ins) == wy as int);
    let r = agg_s(ins);
    fx::lemma_tdiv_mul_exact(b.x.0 as int, b.m as int);
    fx::lemma_tdiv_mul_exact(b.x.1 as int, b.m as int);
    assert(agg_com(wx as int, wy as int, b.m as int) == b.x);
    assert(r.total_mass == b.m);
    assert(r.com == b.x);
    assert(agg_s(lf) == lf);
    assert(samples(lf) == seq![(b.x, b.m)]);
    assert(samples(r) =~= seq![(b.x, b.m)]);
    if x == b.x {
        assert(fmul(0, 0) == 0) by {
            fx::lemma_tdiv_mag(0, SCALE as int);
        };
        let dx = v_sub(r.com, x);
        assert(dx == (Vec2(0, 0)));
        assert(v_dot(dx, dx) == 0);
        let denom = sat(v_dot(dx, dx) + soft_sq);
        let inv = fdiv(SCALE as int, denom);
        if r.sub is None || fmul(fmul(r.width as int, r.width as int), inv) < th_sq {
            let coeff = fmul(fmul(r.total_mass as int, inv), fsqrt(inv));
            assert(0 * coeff == 0) by (nonlinear_arith);
            assert(fmul(0, coeff) == 0) by {
                fx::lemma_tdiv_mag(0, SCALE as int);
            };
            assert(contrib_kernel(dx, r.total_mass, inv) == (Vec2(0, 0)));
        } else {
            let q2 = r.sub.unwrap();
            assert(opt_contrib(slot(*q2, pos2), x, th_sq, soft_sq) == (0int, 0int));
            assert(accel_of(r, x, th_sq, soft_sq) == (0int, 0int));
        }
        assert(pair_contrib(x, b.x, b.m, soft_sq) == (0int, 0int));
    } else {
        let dx = v_sub(b.x, x);
        let denom = sat(v_dot(dx, dx) + soft_sq);
        let inv = fdiv(SCALE as int, denom);
        let k = contrib_kernel(dx, b.m, inv);
        assert(pair_contrib(x, b.x, b.m, soft_sq) == (k.0 as int, k.1 as int));
        if r.sub is None || fmul(fmul(r.width as int, r.width as int), inv) < th_sq {
            assert(opt_contrib(Some(r), x, th_sq, soft_sq) == (k.0 as int, k.1 as int));
        } else {
            let q2 = r.sub.unwrap();
            assert(slot(*q2, pos2) == Some(lf));
            assert(opt_contrib(Some(lf), x, th_sq, soft_sq) == (k.0 as int, k.1 as int));
            assert(accel_of(r, x, th_sq, soft_sq) == (k.0 as int, k.1 as int));
        }
    }
}

/// A quadrant of a two-body sequence that receives neither body ends up
/// with no mass.
pub proof fn lemma_quadrant_empty_two(c: Section, bs: Seq<Body>, idx: int, pc: Vec2)
    requires
        c.sub == Some(Box::new(Quad { q0: None, q1: None, q2: None, q3: None })),
        bs.len() == 2,
        position_s(pc, bs[0].x) != idx,
        position_s(pc, bs[1].x) != idx,
    ensures
        built_quadrant_s(c, bs, idx, pc).total_mass == 0,
{
    assert(build_quad_upto(c, bs, 0, idx, pc) == c);
    assert(build_quad_upto(c, bs, 1, idx, pc) == c);
    assert(build_quad_upto(c, bs, 2, idx, pc) == c);
    assert(leaves_mass(c) == 0);
}

/// A quadrant of a two-body sequence that receives exactly the body with
/// index `k` contributes to any body exactly that body's pairwise kernel.
pub proof fn lemma_quadrant_one_of_two(
    c: Section,
    bs: Seq<Body>,
    idx: int,
    pc: Vec2,
    k: int,
    x: Vec2,
    th_sq: int,
    soft_sq: int,
)
    requires
        c.sub == Some(Box::new(Quad { q0: None, q1: None, q2: None, q3: None })),
        bs.len() == 2,
        0 <= k < 2,
        wf_body(bs[k]),
        position_s(pc, bs[k].x) == idx,
        position_s(pc, bs[1 - k].x) != idx,
    ensures
        opt_contrib(Some(built_quadrant_s(c, bs, idx, pc)), x, th_sq, soft_sq) == pair_contrib(
            x,
            bs[k].x,
            bs[k].m,
            soft_sq,
        ),
{
    let b = bs[k];
    assert(build_quad_upto(c, bs, 0, idx, pc) == c);
    let ins = insert_s(
        c,
        b.x,
        b.m,
        (b.m * b.x.0) as i128,
        (b.m * b.x.1) as i128,
        MAX_DEPTH as nat,
    );
    if k == 0 {
        assert(build_quad_upto(c, bs, 1, idx, pc) == ins);
        assert(build_quad_upto(c, bs, 2, idx, pc) == ins);
    } else {
        assert(build_quad_upto(c, bs, 1, idx, pc) == c);
        assert(build_quad_upto(c, bs, 2, idx, pc) == ins);
    }
    lemma_one_sample_cell(c, b, x, th_sq, soft_sq);
}

/// Build one quadrant subtree sequentially: insert every body whose
/// position falls in quadrant `idx` of the parent center `pc`, then
/// aggregate.
fn build_quadrant(sec: Section, bodies: &Vec<Body>, idx: usize, pc: Vec2) -> (r: Section)
    requires
        is_node(sec),
        wf_tree(sec),
        depth_ok(sec, MAX_DEPTH as nat),
        leaves_mass(sec) == 0,
        leaves_wx(sec) == 0,
        leaves_wy(sec) == 0,
        wf_bodies(bodies@),
        sum_mass(bodies@) <= MASS_CAP,
        idx < 4,
    ensures
        r == built_quadrant_s(sec, bodies@, idx as int, pc),
{
    let ghost bs = bodies@;
    let mut s = sec;
    let n = bodies.len();
    let mut i: usize = 0;
    while i < n
        invariant
            0 <= i <= n,
            n == bs.len(),
            bs == bodies@,
            wf_bodies(bs),
            sum_mass(bs) <= MASS_CAP,
            is_node(sec),
            wf_tree(sec),
            depth_ok(sec, MAX_DEPTH as nat),
            leaves_mass(sec) == 0,
            leaves_wx(sec) == 0,
            leaves_wy(sec) == 0,
            idx < 4,
            s == build_quad_upto(sec, bs, i as int, idx as int, pc),
        decreases n - i,
    {
        proof {
            lemma_build_quad(sec, bs, i as int, idx as int, pc);
        }
        let b = bodies[i];
        let pos = (if b.x.0 > pc.0 {
            1
        } else {
            0
        }) + (if b.x.1 > pc.1 {
            2
        } else {
            0
        });
        if pos == idx {
            proof {
                assert(wf_body(bs[i as int]));
                lemma_quad_bounds(bs, i + 1, idx as int, pc);
                lemma_quad_bounds(bs, i as int, idx as int, pc);
                lemma_sum_mass_mono(bs, i + 1, bs.len() as int);
                assert(-(b.m * MAXF) <= b.m * b.x.0 <= b.m * MAXF) by (nonlinear_arith)
                    requires
                        0 < b.m,
                        -MAXF <= b.x.0 <= MAXF,
                ;
                assert(-(b.m * MAXF) <= b.m * b.x.1 <= b.m * MAXF) by (nonlinear_arith)
                    requires
                        0 < b.m,
                        -MAXF <= b.x.1 <= MAXF,
                ;
                fx::lemma_wsum_fits(b.m as int, b.m * b.x.0);
                fx::lemma_wsum_fits(b.m as int, b.m * b.x.1);
            }
            let wx = b.m * b.x.0;
            let wy = b.m * b.x.1;
            s.insert(b.x, b.m, wx, wy, MAX_DEPTH);
        }
        i = i + 1;
    }
    proof {
        lemma_build_quad(sec, bs, n as int, idx as int, pc);
        lemma_quad_bounds(bs, n as int, idx as int, pc);
        lemma_sum_mass_mono(bs, n as int, n as int);
    }
    s.aggregate();
    s
}

/// Relies on `rayon::join`: each closure only runs the verified
/// `build_quadrant` on its own quadrant, and the results are returned in
/// quadrant order.
#[verifier::external_body]
fn par_build4(
    c0: Section,
    c1: Section,
    c2: Section,
    c3: Section,
    bodies: &Vec<Body>,
    pc: Vec2,
) -> (r: (Section, Section, Section, Section))
    requires
        is_node(c0) && wf_tree(c0) && depth_ok(c0, MAX_DEPTH as nat) && leaves_mass(c0) == 0
            && leaves_wx(c0) == 0 && leaves_wy(c0) == 0,
        is_node(c1) && wf_tree(c1) && depth_ok(c1, MAX_DEPTH as nat) && leaves_mass(c1) == 0
            && leaves_wx(c1) == 0 && leaves_wy(c1) == 0,
        is_node(c2) && wf_tree(c2) && depth_ok(c2, MAX_DEPTH as nat) && leaves_mass(c2) == 0
            && leaves_wx(c2) == 0 && leaves_wy(c2) == 0,
        is_node(c3) && wf_tree(c3) && depth_ok(c3, MAX_DEPTH as nat) && leaves_mass(c3) == 0
            && leaves_wx(c3) == 0 && leaves_wy(c3) == 0,
        wf_bodies(bodies@),
        sum_mass(bodies@) <= MASS_CAP,
    ensures
        r.0 == built_quadrant_s(c0, bodies@, 0, pc),
        r.1 == built_quadrant_s(c1, bodies@, 1, pc),
        r.2 == built_quadrant_s(c2, bodies@, 2, pc),
        r.3 == built_quadrant_s(c3, bodies@, 3, pc),
{
    let ((r0, r1), (r2, r3)) = rayon::join(
        || rayon::join(|| build_quadrant(c0, bodies, 0, pc), || build_quadrant(c1, bodies, 1, pc)),
        || rayon::join(|| build_quadrant(c2, bodies, 2, pc), || build_quadrant(c3, bodies, 3, pc)),
    );
    (r0, r1, r2, r3)
}

/// The tree that the parallel build produces under a root cell `s`: four
/// fresh child cells covering the quadrants, each filled with its bodies
/// and aggregated, and the root's aggregates set from the quadrant totals.
pub open spec fn par_add_s(s: Section, bs: Seq<Body>) -> Section {
    let half = (tdiv(s.width as int, 2)) as i128;
    let nh = (-half) as i128;
    let r0 = built_quadrant_s(new_s(s.center, half, Vec2(nh, nh)), bs, 0, s.center);
    let r1 = built_quadrant_s(new_s(s.center, half, Vec2(half, nh)), bs, 1, s.center);
    let r2 = built_quadrant_s(new_s(s.center, half, Vec2(nh, half)), bs, 2, s.center);
    let r3 = built_quadrant_s(new_s(s.center, half, Vec2(half, half)), bs, 3, s.center);
    let m = (r0.total_mass + r1.total_mass + r2.total_mass + r3.total_mass) as i128;
    let wxs = (r0.wx + r1.wx + r2.wx + r3.wx) as i128;
    let wys = (r0.wy + r1.wy + r2.wy + r3.wy) as i128;
    Section {
        com: agg_com(wxs as int, wys as int, m as int),
        total_mass: m,
        wx: wxs,
        wy: wys,
        sub: Some(Box::new(Quad { q0: Some(r0), q1: Some(r1), q2: Some(r2), q3: Some(r3) })),
        ..s
    }
}

/// Conservation through the parallel build: the root of the built tree
/// carries exactly the sum of the body masses and exactly the
/// mass-weighted position sums, and its center of mass is their single
/// truncated quotient. The whole tree is well formed and aggregated.
pub proof fn lemma_tree_conservation(s: Section, bs: Seq<Body>)
    requires
        v_in_range(s.center),
        0 <= s.width <= MAXF,
        wf_bodies(bs),
        sum_mass(bs) <= MASS_CAP,
    ensures
        par_add_s(s, bs).total_mass == sum_mass(bs),
        par_add_s(s, bs).wx == wsum_x_upto(bs, bs.len() as int),
        par_add_s(s, bs).wy == wsum_y_upto(bs, bs.len() as int),
        par_add_s(s, bs).com == agg_com(
            wsum_x_upto(bs, bs.len() as int),
            wsum_y_upto(bs, bs.len() as int),
            sum_mass(bs),
        ),
        is_node(par_add_s(s, bs)),
        wf_tree(par_add_s(s, bs)),
        aggregated(par_add_s(s, bs)),
        leaves_mass(par_add_s(s, bs)) == sum_mass(bs),
        par_add_s(s, bs).center == s.center,
        par_add_s(s, bs).width == s.width,
{
    let pc = s.center;
    let n = bs.len() as int;
    let half = (tdiv(s.width as int, 2)) as i128;
    let nh = (-half) as i128;
    fx::lemma_tdiv_mag(s.width as int, 2);
    let c0 = new_s(pc, half, Vec2(nh, nh));
    let c1 = new_s(pc, half, Vec2(half, nh));
    let c2 = new_s(pc, half, Vec2(nh, half));
    let c3 = new_s(pc, half, Vec2(half, half));
    lemma_build_quad(c0, bs, n, 0, pc);
    lemma_build_quad(c1, bs, n, 1, pc);
    lemma_build_quad(c2, bs, n, 2, pc);
    lemma_build_quad(c3, bs, n, 3, pc);
    lemma_quad_bounds(bs, n, 0, pc);
    lemma_quad_bounds(bs, n, 1, pc);
    lemma_quad_bounds(bs, n, 2, pc);
    lemma_quad_bounds(bs, n, 3, pc);
    lemma_agg(build_quad_upto(c0, bs, n, 0, pc));
    lemma_agg(build_quad_upto(c1, bs, n, 1, pc));
    lemma_agg(build_quad_upto(c2, bs, n, 2, pc));
    lemma_agg(build_quad_upto(c3, bs, n, 3, pc));
    lemma_partition(bs, n, pc);
    lemma_sum_mass_mono(bs, n, n);
    fx::lemma_wsum_add(
        quad_mass_upto(bs, n, 0, pc),
        quad_wx_upto(bs, n, 0, pc),
        quad_mass_upto(bs, n, 1, pc),
        quad_wx_upto(bs, n, 1, pc),
    );
    fx::lemma_wsum_add(
        quad_mass_upto(bs, n, 0, pc) + quad_mass_upto(bs, n, 1, pc),
        quad_wx_upto(bs, n, 0, pc) + quad_wx_upto(bs, n, 1, pc),
        quad_mass_upto(bs, n, 2, pc),
        quad_wx_upto(bs, n, 2, pc),
    );
    fx::lemma_wsum_add(
        quad_mass_upto(bs, n, 0, pc) + quad_mass_upto(bs, n, 1, pc) + quad_mass_upto(
            bs,
            n,
            2,
            pc,
        ),
        quad_wx_upto(bs, n, 0, pc) + quad_wx_upto(bs, n, 1, pc) + quad_wx_upto(bs, n, 2, pc),
        quad_mass_upto(bs, n, 3, pc),
        quad_wx_upto(bs, n, 3, pc),
    );
    fx::lemma_wsum_add(
        quad_mass_upto(bs, n, 0, pc),
        quad_wy_upto(bs, n, 0, pc),
        quad_mass_upto(bs, n, 1, pc),
        quad_wy_upto(bs, n, 1, pc),
    );
    fx::lemma_wsum_add(
        quad_mass_upto(bs, n, 0, pc) + quad_mass_upto(bs, n, 1, pc),
        quad_wy_upto(bs, n, 0, pc) + quad_wy_upto(bs, n, 1, pc),
        quad_mass_upto(bs, n, 2, pc),
        quad_wy_upto(bs, n, 2, pc),
    );
    fx::lemma_wsum_add(
        quad_mass_upto(bs, n, 0, pc) + quad_mass_upto(bs, n, 1, pc) + quad_mass_upto(
            bs,
            n,
            2,
            pc,
        ),
        quad_wy_upto(bs, n, 0, pc) + quad_wy_upto(bs, n, 1, pc) + quad_wy_upto(bs, n, 2, pc),
        quad_mass_upto(bs, n, 3, pc),
        quad_wy_upto(bs, n, 3, pc),
    );
    fx::lemma_wsum_fits(sum_mass(bs), wsum_x_upto(bs, n));
    fx::lemma_wsum_fits(sum_mass(bs), wsum_y_upto(bs, n));
    if sum_mass(bs) > 0 {
        fx::lemma_tdiv_quotient_bound(wsum_x_upto(bs, n), sum_mass(bs), MAXF as int);
        fx::lemma_tdiv_quotient_bound(wsum_y_upto(bs, n), sum_mass(bs), MAXF as int);
    }
        }

impl Section {
    /// Build the tree under this root cell from the whole body sequence.
    ///
    /// The subtrees of the four quadrants are built in parallel; each task
    /// scans the body sequence and inserts the bodies of its own quadrant.
    /// The root's total mass is exactly the sum of the body masses, and
    /// its weighted sums are exactly the mass-weighted position sums, so
    /// mass and center of mass are conserved by construction.
    pub fn parallel_add(&mut self, bodies: &Vec<Body>)
        requires
            v_in_range(old(self).center),
            0 <= old(self).width <= MAXF,
            wf_bodies(bodies@),
            sum_mass(bodies@) <= MASS_CAP,
        ensures
            *final(self) == par_add_s(*old(self), bodies@),
            is_node(*final(self)),
            wf_tree(*final(self)),
            aggregated(*final(self)),
            final(self).total_mass == sum_mass(bodies@),
            final(self).wx == wsum_x_upto(bodies@, bodies@.len() as int),
            final(self).wy == wsum_y_upto(bodies@, bodies@.len() as int),
            final(self).com == agg_com(
                wsum_x_upto(bodies@, bodies@.len() as int),
                wsum_y_upto(bodies@, bodies@.len() as int),
                sum_mass(bodies@),
            ),
            final(self).center == old(self).center,
            final(self).width == old(self).width,
            leaves_mass(*final(self)) == sum_mass(bodies@),
    {
        let ghost bs = bodies@;
        let half = fx::fx_half(self.width);
        let nh = -half;
        let c0 = Section::new(self.center, half, Vec2(nh, nh));
        let c1 = Section::new(self.center, half, Vec2(half, nh));
        let c2 = Section::new(self.center, half, Vec2(nh, half));
        let c3 = Section::new(self.center, half, Vec2(half, half));
        let (r0, r1, r2, r3) = par_build4(c0, c1, c2, c3, bodies, self.center);
        let ghost n = bs.len() as int;
        proof {
            let pc = self.center;
            lemma_tree_conservation(*old(self), bs);
            lemma_build_quad(c0, bs, n, 0, pc);
            lemma_build_quad(c1, bs, n, 1, pc);
            lemma_build_quad(c2, bs, n, 2, pc);
            lemma_build_quad(c3, bs, n, 3, pc);
            lemma_quad_bounds(bs, n, 0, pc);
            lemma_quad_bounds(bs, n, 1, pc);
            lemma_quad_bounds(bs, n, 2, pc);
            lemma_quad_bounds(bs, n, 3, pc);
            lemma_agg(build_quad_upto(c0, bs, n, 0, pc));
            lemma_agg(build_quad_upto(c1, bs, n, 1, pc));
            lemma_agg(build_quad_upto(c2, bs, n, 2, pc));
            lemma_agg(build_quad_upto(c3, bs, n, 3, pc));
            lemma_partition(bs, n, pc);
            lemma_sum_mass_mono(bs, n, n);
            fx::lemma_wsum_fits(sum_mass(bs), wsum_x_upto(bs, n));
            fx::lemma_wsum_fits(sum_mass(bs), wsum_y_upto(bs, n));
        }
        let m = r0.total_mass + r1.total_mass + r2.total_mass + r3.total_mass;
        let wxs = r0.wx + r1.wx + r2.wx + r3.wx;
        let wys = r0.wy + r1.wy + r2.wy + r3.wy;
        let com = if m > 0 {
            Vec2(fx::tdiv_i(wxs, m), fx::tdiv_i(wys, m))
        } else {
            Vec2::zero()
        };
        self.com = com;
        self.total_mass = m;
        self.wx = wxs;
        self.wy = wys;
        self.sub = Some(Box::new(Quad { q0: Some(r0), q1: Some(r1), q2: Some(r2), q3: Some(r3) }));
    }

    /// Relies on rayon's parallel mutable iteration: each closure only runs
    /// the verified `attract` on its own body, so every body receives the
    /// tree's acceleration.
    #[verifier::external_body]
    pub fn compute(&self, bodies: &mut Vec<Body>, th_sq: i128, soft_sq: i128)
        requires
            wf_tree(*self),
            aggregated(*self),
            leaves_mass(*self) <= MASS_CAP,
            wf_bodies(old(bodies)@),
            in_range(th_sq as int),
            in_range(soft_sq as int),
        ensures
            final(bodies)@.len() == old(bodies)@.len(),
            forall|i: int|
                0 <= i < old(bodies)@.len() ==> final(bodies)@[i] == attracted_s(
                    *self,
                    old(bodies)@[i],
                    th_sq as int,
                    soft_sq as int,
                ),
    {
        bodies.par_iter_mut().for_each(|b| self.attract(b, th_sq, soft_sq));
    }
}

/// Relies on rayon's parallel mutable iteration: each closure only runs
/// the verified `Body::advance` on its own body.
#[verifier::external_body]
pub fn advance_all(bodies: &mut Vec<Body>, dt: i128)
    requires
        wf_bodies(old(bodies)@),
        in_range(dt as int),
    ensures
        final(bodies)@.len() == old(bodies)@.len(),
        forall|i: int|
            0 <= i < old(bodies)@.len() ==> final(bodies)@[i] == advance_s(
                old(bodies)@[i],
                dt as int,
            ),
{
    bodies.par_iter_mut().for_each(|b| b.advance(dt));
}

/// Mass threshold below which a cell is drawn as one rectangle: the raw
/// value of 1e-4.
pub const RENDER_THRESHOLD: i128 = 429497;

/// The mass density of a cell: `total_mass / (2 * half_width)^2`, written
/// as three successive divisions.
pub open spec fn density_s(s: Section) -> int {
    fdiv(fdiv(fdiv(s.total_mass as int, s.width as int), s.width as int), 4 * SCALE)
}

/// The upper-left corner of a cell's square.
pub open spec fn upper_left_s(s: Section) -> Vec2 {
    v_sub(s.center, Vec2(s.width, s.width))
}

/// Whether any child of a cell is itself subdivided.
pub open spec fn has_node_children(s: Section) -> bool {
    match s.sub {
        None => false,
        Some(q) => {
            ||| (q.q0 is Some && q.q0.unwrap().sub is Some)
            ||| (q.q1 is Some && q.q1.unwrap().sub is Some)
            ||| (q.q2 is Some && q.q2.unwrap().sub is Some)
            ||| (q.q3 is Some && q.q3.unwrap().sub is Some)
        },
    }
}

/// The rectangle a cell is drawn as: upper-left corner, side length, and
/// intensity `ln(density / reference) / 5`.
pub open spec fn rect_s(s: Section, reference: i128) -> (Vec2, i128, i128) {
    (
        upper_left_s(s),
        (sat(2 * s.width)) as i128,
        (tdiv(crate::fx::ln_s(fdiv(density_s(s), reference as int)), 5)) as i128,
    )
}

/// The snapshot of a subtree: a cell whose relative mass is below the
/// threshold, or whose children are all undivided, becomes one rectangle;
/// any other cell is the concatenation of its children's snapshots.
pub open spec fn render_s(s: Section, reference: i128, total: i128) -> Seq<(Vec2, i128, i128)>
    decreases s,
{
    if fdiv(s.total_mass as int, total as int) < RENDER_THRESHOLD || !has_node_children(s) {
        seq![rect_s(s, reference)]
    } else {
        match s.sub {
            None => seq![rect_s(s, reference)],
            Some(q) => opt_render_s(q.q0, reference, total) + opt_render_s(q.q1, reference, total)
                + opt_render_s(q.q2, reference, total) + opt_render_s(q.q3, reference, total),
        }
    }
}

/// The snapshot of one child slot.
pub open spec fn opt_render_s(c: Option<Section>, reference: i128, total: i128) -> Seq<
    (Vec2, i128, i128),
>
    decreases c,
{
    match c {
        None => Seq::empty(),
        Some(s) => render_s(s, reference, total),
    }
}

/// Exec mirror of `opt_render_s`.
fn opt_render(c: &Option<Section>, reference: i128, total: i128) -> (r: Vec<(Vec2, i128, i128)>)
    requires
        opt_wf(*c),
    ensures
        r@ == opt_render_s(*c, reference, total),
    decreases *c,
{
    match c {
        None => Vec::new(),
        Some(s) => s.render(reference, total),
    }
}

impl Section {
    /// The mass density of this cell.
    pub fn density(&self) -> (r: i128)
        requires
            wf_tree(*self),
        ensures
            r == density_s(*self),
    {
        fx::fx_div(fx::fx_div(fx::fx_div(self.total_mass, self.width), self.width), 4 * SCALE)
    }

    /// The upper-left corner of this cell's square.
    pub fn upper_left(&self) -> (r: Vec2)
        requires
            wf_tree(*self),
        ensures
            r == upper_left_s(*self),
            v_in_range(r),
    {
        self.center.sub(Vec2(self.width, self.width))
    }

    /// The snapshot of this subtree: rectangles with corner, side length
    /// and log-scaled intensity, for cells heavy enough relative to
    /// `total` or with only undivided children.
    pub fn render(&self, reference: i128, total: i128) -> (r: Vec<(Vec2, i128, i128)>)
        requires
            wf_tree(*self),
        ensures
            r@ == render_s(*self, reference, total),
        decreases *self,
    {
        let rel = fx::fx_div(self.total_mass, total);
        let mut node_children = false;
        match &self.sub {
            None => {},
            Some(q) => {
                if let Some(t) = &q.q0 {
                    if t.sub.is_some() {
                        node_children = true;
                    }
                }
                if let Some(t) = &q.q1 {
                    if t.sub.is_some() {
                        node_children = true;
                    }
                }
                if let Some(t) = &q.q2 {
                    if t.sub.is_some() {
                        node_children = true;
                    }
                }
                if let Some(t) = &q.q3 {
                    if t.sub.is_some() {
                        node_children = true;
                    }
                }
            },
        }
        if rel < RENDER_THRESHOLD || !node_children {
            let corner = self.upper_left();
            let side = fx::fx_add(self.width, self.width);
            let intensity = {
                let d = self.density();
                let ratio = fx::fx_div(d, reference);
                proof {
                    fx::lemma_tdiv_mag(crate::fx::ln_s(ratio as int), 5);
                }
                fx::tdiv_i(fx::fx_ln(ratio), 5)
            };
            let mut out: Vec<(Vec2, i128, i128)> = Vec::new();
            out.push((corner, side, intensity));
            proof {
                assert(2 * self.width == self.width + self.width);
                assert(out@ =~= seq![rect_s(*self, reference)]);
            }
            out
        } else {
            match &self.sub {
                None => {
                    proof {
                        assert(false);
                    }
                    Vec::new()
                },
                Some(q) => {
                    let mut out = opt_render(&q.q0, reference, total);
                    let mut r1 = opt_render(&q.q1, reference, total);
                    let mut r2 = opt_render(&q.q2, reference, total);
                    let mut r3 = opt_render(&q.q3, reference, total);
                    out.append(&mut r1);
                    out.append(&mut r2);
                    out.append(&mut r3);
                    out
                },
            }
        }
    }
}

/// The bounding pass over a non-empty well-formed body sequence yields a
/// well-formed empty root cell.
pub proof fn lemma_bounding_wf(bs: Seq<Body>)
    requires
        wf_bodies(bs),
        bs.len() > 0,
    ensures
        v_in_range(bounding_s(bs).center),
        0 <= bounding_s(bs).width <= MAXF,
        is_node(bounding_s(bs)),
{
    let n = bs.len() as int;
    lemma_minmax_in_range(bs, n);
    let lo = min_x_upto(bs, n) + max_x_upto(bs, n);
    let hi = min_y_upto(bs, n) + max_y_upto(bs, n);
    fx::lemma_tdiv_mag(sat(lo), 2);
    fx::lemma_tdiv_mag(sat(hi), 2);
    let ext = v_sub(
        Vec2((max_x_upto(bs, n)) as i128, (max_y_upto(bs, n)) as i128),
        Vec2((min_x_upto(bs, n)) as i128, (min_y_upto(bs, n)) as i128),
    );
    let m0 = if ext.0 >= 0 {
        ext.0 as int
    } else {
        -(ext.0 as int)
    };
    let m1 = if ext.1 >= 0 {
        ext.1 as int
    } else {
        -(ext.1 as int)
    };
    fx::lemma_tdiv_mag(if m0 > m1 {
        m0
    } else {
        m1
    }, 2);
}

/// The running bounding-box extremes stay within the position range.
proof fn lemma_minmax_in_range(bs: Seq<Body>, n: int)
    requires
        wf_bodies(bs),
        1 <= n <= bs.len(),
    ensures
        in_range(min_x_upto(bs, n)),
        in_range(min_y_upto(bs, n)),
        in_range(max_x_upto(bs, n)),
        in_range(max_y_upto(bs, n)),
        min_x_upto(bs, n) <= max_x_upto(bs, n),
        min_y_upto(bs, n) <= max_y_upto(bs, n),
    decreases n,
{
    if n > 1 {
        lemma_minmax_in_range(bs, n - 1);
    } else {
        assert(wf_body(bs[0]));
    }
}

} // verus!
