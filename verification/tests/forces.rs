use nbody::fx::{fx_add, fx_div, fx_mul, fx_sqrt, SCALE};
use nbody::node::{Body, Section};
use nbody::sim::step;
use nbody::vec::Vec2;

fn fxf(x: f64) -> i128 {
    (x * 4294967296.0).round() as i128
}

fn unit_body(x: f64, y: f64) -> Body {
    Body { x: Vec2(fxf(x), fxf(y)), v: Vec2(0, 0), a: Vec2(0, 0), m: SCALE }
}

/// The softened pairwise kernel, written with the public fixed-point
/// operations exactly as the evaluator defines it.
fn pair_kernel(x: Vec2, p: Vec2, m: i128, soft_sq: i128) -> (i128, i128) {
    if p == x {
        return (0, 0);
    }
    let dx = p.sub(x);
    let denom = fx_add(dx.dot(dx), soft_sq);
    let inv = fx_div(SCALE, denom);
    let coeff = fx_mul(fx_mul(m, inv), fx_sqrt(inv));
    let k = dx.mul(coeff);
    (k.0, k.1)
}

fn build_tree(bodies: &Vec<Body>) -> Section {
    let mut root = Section::containing(bodies).unwrap();
    root.parallel_add(bodies);
    root
}

#[test]
fn theta_zero_equals_direct_sum() {
    let mut bodies = Vec::new();
    let mut s: u64 = 12345;
    for _ in 0..60 {
        s = s.wrapping_mul(6364136223846793005).wrapping_add(1442695040888963407);
        let x = (s >> 11) as f64 / (1u64 << 53) as f64;
        s = s.wrapping_mul(6364136223846793005).wrapping_add(1442695040888963407);
        let y = (s >> 11) as f64 / (1u64 << 53) as f64;
        bodies.push(unit_body(x, y));
    }
    let tree = build_tree(&bodies);
    let soft = fxf(1e-4);
    for b in &bodies {
        let (ax, ay) = tree.accel(b.x, 0, soft);
        let mut dx: i128 = 0;
        let mut dy: i128 = 0;
        for o in &bodies {
            let (kx, ky) = pair_kernel(b.x, o.x, o.m, soft);
            dx += kx;
            dy += ky;
        }
        assert_eq!((ax, ay), (dx, dy), "tree at theta 0 differs from the direct sum");
    }
}

#[test]
fn accelerations_sum_to_zero_for_equal_masses() {
    let bodies = vec![
        unit_body(0.11, 0.27),
        unit_body(0.83, 0.44),
        unit_body(0.52, 0.91),
        unit_body(0.35, 0.08),
        unit_body(0.67, 0.73),
    ];
    let tree = build_tree(&bodies);
    let mut sx: i128 = 0;
    let mut sy: i128 = 0;
    for b in &bodies {
        let (ax, ay) = tree.accel(b.x, 0, fxf(0.0025));
        sx += ax;
        sy += ay;
    }
    assert_eq!((sx, sy), (0, 0), "momentum input is not exactly zero");
}

#[test]
fn two_body_symmetry_is_exact() {
    let b = Body {
        x: Vec2(fxf(0.31), fxf(0.17)),
        v: Vec2(fxf(0.05), fxf(-0.02)),
        a: Vec2(0, 0),
        m: SCALE,
    };
    let mirror = Body { x: b.x.neg(), v: b.v.neg(), a: Vec2(0, 0), m: SCALE };
    let mut bodies = vec![b, mirror];
    for _ in 0..200 {
        step(&mut bodies, fxf(1e-3), fxf(0.09), fxf(1e-4)).unwrap();
        assert_eq!(bodies[1].x, bodies[0].x.neg());
        assert_eq!(bodies[1].v, bodies[0].v.neg());
    }
}

#[test]
fn opening_parameter_trades_accuracy() {
    let mut bodies = Vec::new();
    let mut s: u64 = 7;
    for _ in 0..300 {
        s = s.wrapping_mul(6364136223846793005).wrapping_add(1442695040888963407);
        let x = (s >> 11) as f64 / (1u64 << 53) as f64;
        s = s.wrapping_mul(6364136223846793005).wrapping_add(1442695040888963407);
        let y = (s >> 11) as f64 / (1u64 << 53) as f64;
        bodies.push(unit_body(x, y));
    }
    let tree = build_tree(&bodies);
    let soft = fxf(1e-4);
    // a uniform cloud leaves central bodies with accelerations near zero,
    // so errors are measured against the mean acceleration magnitude
    let mut mean_norm = 0.0f64;
    for b in &bodies {
        let (ex, ey) = tree.accel(b.x, 0, soft);
        mean_norm += ((ex as f64).powi(2) + (ey as f64).powi(2)).sqrt();
    }
    mean_norm /= bodies.len() as f64;
    let mut mean_03 = 0.0f64;
    let mut mean_06 = 0.0f64;
    for b in &bodies {
        let (ex, ey) = tree.accel(b.x, 0, soft);
        let (cx, cy) = tree.accel(b.x, fxf(0.09), soft);
        let (gx, gy) = tree.accel(b.x, fxf(0.36), soft);
        mean_03 += (((cx - ex) as f64).powi(2) + ((cy - ey) as f64).powi(2)).sqrt() / mean_norm;
        mean_06 += (((gx - ex) as f64).powi(2) + ((gy - ey) as f64).powi(2)).sqrt() / mean_norm;
    }
    mean_03 /= bodies.len() as f64;
    mean_06 /= bodies.len() as f64;
    assert!(mean_03 < 0.03, "theta 0.3 error too large: {mean_03}");
    assert!(mean_06 < 0.15, "theta 0.6 error too large: {mean_06}");
    assert!(mean_03 < mean_06, "a smaller opening parameter must be more accurate");
}

#[test]
fn head_on_collision_reverses_under_softening() {
    let speed = fxf(1.0);
    let mut bodies = vec![
        Body { x: Vec2(fxf(-0.5), 0), v: Vec2(speed, 0), a: Vec2(0, 0), m: SCALE },
        Body { x: Vec2(fxf(0.5), 0), v: Vec2(-speed, 0), a: Vec2(0, 0), m: SCALE },
    ];
    let soft_sq = fxf(0.0025);
    let mut was_close = false;
    let mut parted_speed: Option<f64> = None;
    for _ in 0..30000 {
        step(&mut bodies, fxf(1e-4), fxf(0.09), soft_sq).unwrap();
        let sep = (bodies[1].x.0 - bodies[0].x.0).abs() as f64 / SCALE as f64;
        if sep < 0.3 {
            was_close = true;
        }
        if was_close && sep >= 1.0 {
            parted_speed = Some(bodies[0].v.0 as f64 / speed as f64);
            break;
        }
    }
    // the softened pass is symmetric: back at the initial separation the
    // bodies have swapped sides and carry nearly the incoming speed
    let v0 = parted_speed.expect("the bodies never met and parted again");
    assert!(bodies[0].x.0 > bodies[1].x.0, "the bodies did not pass each other");
    assert!((v0.abs() - 1.0).abs() < 0.05, "speed changed by more than 5%: {v0}");
}
