use nbody::fx::SCALE;
use nbody::generator::{simple_square, square_collision};
use nbody::node::{Body, Section};
use nbody::sim::{build_scenario, step, Scenario};
use nbody::vec::Vec2;

fn fxv(x: f64) -> i128 {
    (x * 4294967296.0).round() as i128
}

#[test]
fn generators_are_deterministic_per_seed() {
    let a = simple_square(64, 99);
    let b = simple_square(64, 99);
    let c = simple_square(64, 100);
    assert_eq!(a, b, "the same seed must give the same bodies");
    assert_ne!(a, c, "different seeds gave identical bodies");
    for body in &a {
        assert_eq!(body.m, SCALE);
        assert_eq!(body.v, Vec2(0, 0));
        assert!(body.x.0 >= 0 && body.x.0 < SCALE);
        assert!(body.x.1 >= 0 && body.x.1 < SCALE);
    }
}

#[test]
fn collision_generator_splits_the_square() {
    let bodies = square_collision(40, 5);
    assert_eq!(bodies.len(), 40);
    for (i, b) in bodies.iter().enumerate() {
        if i < 20 {
            assert!(b.x.0 < SCALE / 2 && b.x.1 < SCALE / 2);
            assert_eq!(b.v, Vec2(0, 0));
        } else {
            assert!(b.x.0 >= SCALE / 4 && b.x.1 >= fxv(0.6));
            assert!(b.v.1 < 0, "the upper square must fall");
        }
    }
}

#[test]
fn scenario_builder_covers_the_in_core_scenarios() {
    assert!(build_scenario(Scenario::Uniform, 16, 1).is_some());
    assert!(build_scenario(Scenario::TwoSquare, 16, 1).is_some());
    assert!(build_scenario(Scenario::Disk, 16, 1).is_none());
    assert!(build_scenario(Scenario::GalaxyCollision, 16, 1).is_none());
    assert_eq!(build_scenario(Scenario::Uniform, 16, 7).unwrap(), simple_square(16, 7));
}

#[test]
fn trajectories_are_bitwise_deterministic() {
    let mut run1 = simple_square(200, 4242);
    let mut run2 = simple_square(200, 4242);
    for _ in 0..25 {
        step(&mut run1, fxv(1e-4), fxv(0.09), fxv(1e-4)).unwrap();
        step(&mut run2, fxv(1e-4), fxv(0.09), fxv(1e-4)).unwrap();
    }
    assert_eq!(run1, run2, "two identically seeded runs diverged");
}

#[test]
fn worker_count_does_not_change_the_result() {
    let pool1 = rayon::ThreadPoolBuilder::new().num_threads(1).build().unwrap();
    let pool4 = rayon::ThreadPoolBuilder::new().num_threads(4).build().unwrap();
    let mut run1 = simple_square(300, 31337);
    let mut run4 = simple_square(300, 31337);
    pool1.install(|| {
        for _ in 0..20 {
            step(&mut run1, fxv(1e-4), fxv(0.09), fxv(1e-4)).unwrap();
        }
    });
    pool4.install(|| {
        for _ in 0..20 {
            step(&mut run4, fxv(1e-4), fxv(0.09), fxv(1e-4)).unwrap();
        }
    });
    assert_eq!(run1, run4, "results depend on the worker count");
}

#[test]
fn two_body_orbit_returns_to_start() {
    // circular orbit: equal unit masses one length unit apart, each on a
    // circle of radius one half, so v^2 = a * r = 1 * 0.5
    let v = (0.5f64).sqrt();
    let mut bodies = vec![
        Body { x: Vec2(fxv(-0.5), 0), v: Vec2(0, fxv(-v)), a: Vec2(0, 0), m: SCALE },
        Body { x: Vec2(fxv(0.5), 0), v: Vec2(0, fxv(v)), a: Vec2(0, 0), m: SCALE },
    ];
    let start = (bodies[0].x, bodies[1].x);
    // one period lasts 2 * pi * 0.5 / v time units
    let period = std::f64::consts::PI / v;
    let steps = 10000usize;
    let dt = fxv(period / steps as f64);
    for _ in 0..steps {
        step(&mut bodies, dt, fxv(0.01), 0).unwrap();
    }
    let err0 = ((bodies[0].x.0 - start.0.0).abs()).max((bodies[0].x.1 - start.0.1).abs());
    let err1 = ((bodies[1].x.0 - start.1.0).abs()).max((bodies[1].x.1 - start.1.1).abs());
    // both bodies return to their starting points to within one percent of
    // the orbit diameter
    assert!(err0 < fxv(0.01), "first body drifted: {err0}");
    assert!(err1 < fxv(0.01), "second body drifted: {err1}");
}

#[test]
fn falling_squares_conserve_mass_through_a_run() {
    let mut bodies = square_collision(400, 11);
    let total: i128 = bodies.iter().map(|b| b.m).sum();
    for _ in 0..10 {
        step(&mut bodies, fxv(1e-5), fxv(0.09), fxv(1e-4)).unwrap();
        let mut root = Section::containing(&bodies).unwrap();
        root.parallel_add(&bodies);
        assert_eq!(root.total_mass, total, "tree mass drifted from the body mass");
        assert!(root.width < fxv(1000.0), "bounding box exploded");
    }
}
