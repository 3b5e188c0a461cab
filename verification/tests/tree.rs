use nbody::node::{advance_all, Body, Section};
use nbody::sim::{step, validate, Config, Scenario, SimError};
use nbody::vec::Vec2;

fn fxr(x: f64) -> i128 {
    (x * 4294967296.0).round() as i128
}

fn body_at(x: f64, y: f64, m: f64) -> Body {
    Body { x: Vec2(fxr(x), fxr(y)), v: Vec2(0, 0), a: Vec2(0, 0), m: fxr(m) }
}

#[test]
fn empty_input_is_rejected() {
    let bodies: Vec<Body> = Vec::new();
    match Section::containing(&bodies) {
        Err(SimError::EmptyInput) => {},
        _ => panic!("bounding over no bodies must fail with EmptyInput"),
    }
    let mut none: Vec<Body> = Vec::new();
    assert_eq!(step(&mut none, fxr(1e-3), 0, 0), Err(SimError::EmptyInput));
}

#[test]
fn bounding_box_of_known_cloud() {
    let bodies = vec![body_at(0.0, 0.0, 1.0), body_at(1.0, 0.5, 1.0), body_at(0.25, -0.5, 1.0)];
    let root = Section::containing(&bodies).unwrap();
    // center is the box midpoint, half-width is half the larger extent
    assert_eq!(root.center, Vec2(fxr(0.5), fxr(0.0)));
    assert_eq!(root.width, fxr(0.5));
}

#[test]
fn flat_axis_has_zero_extent() {
    // all bodies on the horizontal line y = 0.25: the box is flat in y
    let bodies = vec![body_at(0.0, 0.25, 1.0), body_at(0.5, 0.25, 1.0), body_at(0.8, 0.25, 1.0)];
    let root = Section::containing(&bodies).unwrap();
    assert_eq!(root.center, Vec2(fxr(0.4), fxr(0.25)));
    assert_eq!(root.width, fxr(0.4));
}

#[test]
fn mass_is_conserved_exactly() {
    let bodies = vec![
        body_at(0.1, 0.2, 1.0),
        body_at(0.9, 0.8, 2.5),
        body_at(0.4, 0.6, 0.125),
        body_at(0.7, 0.1, 3.0),
    ];
    let total: i128 = bodies.iter().map(|b| b.m).sum();
    let mut root = Section::containing(&bodies).unwrap();
    root.parallel_add(&bodies);
    assert_eq!(root.total_mass, total);
}

#[test]
fn center_of_mass_is_the_weighted_average() {
    let bodies = vec![body_at(0.0, 0.0, 1.0), body_at(1.0, 1.0, 3.0)];
    let mut root = Section::containing(&bodies).unwrap();
    root.parallel_add(&bodies);
    assert_eq!(root.total_mass, fxr(4.0));
    // com = (1*0 + 3*1) / 4 = 0.75 on both axes, exact in fixed point
    assert_eq!(root.com, Vec2(fxr(0.75), fxr(0.75)));
}

#[test]
fn coincident_bodies_merge_and_stay_finite() {
    // two bodies at the same point cannot be separated: they merge at the
    // depth limit into one sample of summed mass
    let bodies = vec![body_at(0.5, 0.5, 1.0), body_at(0.5, 0.5, 2.0), body_at(0.1, 0.1, 1.0)];
    let mut root = Section::containing(&bodies).unwrap();
    root.parallel_add(&bodies);
    assert_eq!(root.total_mass, fxr(4.0));
    // a few steps with softening stay finite
    let mut sim = bodies;
    for _ in 0..5 {
        step(&mut sim, fxr(1e-3), fxr(0.09), fxr(1e-4)).unwrap();
    }
    for b in &sim {
        assert!(b.x.0.abs() < fxr(1000.0) && b.x.1.abs() < fxr(1000.0));
    }
}

#[test]
fn single_body_stays_at_rest() {
    let mut bodies = vec![body_at(0.3, 0.7, 1.0)];
    let before = bodies[0];
    for _ in 0..10 {
        step(&mut bodies, fxr(1e-2), fxr(0.09), 0).unwrap();
    }
    assert_eq!(bodies[0].x, before.x);
    assert_eq!(bodies[0].v, Vec2(0, 0));
    assert_eq!(bodies[0].a, Vec2(0, 0));
}

#[test]
fn advance_matches_kick_drift() {
    let mut bodies = vec![Body {
        x: Vec2(fxr(1.0), fxr(2.0)),
        v: Vec2(fxr(0.5), fxr(-0.5)),
        a: Vec2(fxr(2.0), fxr(4.0)),
        m: fxr(1.0),
    }];
    let dt = fxr(0.5);
    advance_all(&mut bodies, dt);
    // x += (v + (dt/2) a) dt ; v += a dt ; a = 0
    assert_eq!(bodies[0].x, Vec2(fxr(1.5), fxr(2.25)));
    assert_eq!(bodies[0].v, Vec2(fxr(1.5), fxr(1.5)));
    assert_eq!(bodies[0].a, Vec2(0, 0));
}

#[test]
fn momentum_moves_less_than_one_unit_per_body() {
    // accelerations that cancel exactly: the advance pass may move the
    // total momentum only by per-body truncation, under one raw unit each
    let m = fxr(2.0);
    let mut bodies = vec![
        Body { x: Vec2(0, 0), v: Vec2(fxr(0.25), 0), a: Vec2(5, 7), m },
        Body { x: Vec2(fxr(0.5), 0), v: Vec2(0, fxr(0.5)), a: Vec2(-2, -3), m },
        Body { x: Vec2(0, fxr(0.5)), v: Vec2(fxr(-0.125), 0), a: Vec2(-3, -4), m },
    ];
    let before: (i128, i128) =
        bodies.iter().fold((0, 0), |acc, b| (acc.0 + b.m * b.v.0, acc.1 + b.m * b.v.1));
    advance_all(&mut bodies, fxr(0.125));
    let after: (i128, i128) =
        bodies.iter().fold((0, 0), |acc, b| (acc.0 + b.m * b.v.0, acc.1 + b.m * b.v.1));
    let n = bodies.len() as i128;
    assert!((after.0 - before.0).abs() < m * n);
    assert!((after.1 - before.1).abs() < m * n);
}

#[test]
fn config_validation() {
    let good = Config {
        n: 100,
        dt: fxr(1e-3),
        theta: fxr(0.3),
        softening: fxr(1e-2),
        dim: 2,
        seed: 42,
        scenario: Scenario::Uniform,
        workers: 4,
    };
    assert_eq!(validate(&good), Ok(()));
    assert_eq!(validate(&Config { theta: 0, ..good }), Err(SimError::ConfigInvalid));
    assert_eq!(validate(&Config { dt: 0, ..good }), Err(SimError::ConfigInvalid));
    assert_eq!(validate(&Config { n: 0, ..good }), Err(SimError::ConfigInvalid));
    assert_eq!(validate(&Config { dim: 4, ..good }), Err(SimError::ConfigInvalid));
    assert_eq!(validate(&Config { workers: 0, ..good }), Err(SimError::ConfigInvalid));
    assert_eq!(validate(&Config { softening: -1, ..good }), Err(SimError::ConfigInvalid));
}

#[test]
fn nonfinite_state_is_reported() {
    // an absurd time step blows a close pair past the saturation bound
    let mut bodies = vec![body_at(0.0, 0.0, 100000.0), body_at(1e-4, 0.0, 100000.0)];
    let dt = fxr(1000000.0);
    let mut saw_nonfinite = false;
    for _ in 0..50 {
        match step(&mut bodies, dt, 0, 0) {
            Ok(()) => {},
            Err(SimError::NonFiniteState) => {
                saw_nonfinite = true;
                break;
            },
            Err(e) => panic!("unexpected error {e:?}"),
        }
    }
    assert!(saw_nonfinite, "divergence was never reported");
}

#[test]
fn density_and_upper_left_formulas() {
    let bodies = vec![body_at(0.0, 0.0, 1.0), body_at(1.0, 1.0, 1.0)];
    let mut root = Section::containing(&bodies).unwrap();
    root.parallel_add(&bodies);
    assert_eq!(root.center, Vec2(fxr(0.5), fxr(0.5)));
    assert_eq!(root.width, fxr(0.5));
    // density = total_mass / (2 * half_width)^2 = 2 / 1 = 2, exactly
    assert_eq!(root.density(), fxr(2.0));
    assert_eq!(root.upper_left(), Vec2(0, 0));
}

#[test]
fn render_produces_rectangles() {
    let bodies = vec![
        body_at(0.1, 0.1, 1.0),
        body_at(0.2, 0.15, 1.0),
        body_at(0.8, 0.85, 1.0),
        body_at(0.9, 0.9, 1.0),
    ];
    let mut root = Section::containing(&bodies).unwrap();
    root.parallel_add(&bodies);
    let reference = root.density();
    let rects = root.render(reference, root.total_mass);
    assert!(!rects.is_empty());
    for (corner, side, _intensity) in &rects {
        assert!(*side >= 0);
        assert!(corner.0.abs() <= nbody::fx::MAXF);
    }
}
