use bezier_easing::bezier::{
    PARAMETER_LIMIT, SAMPLE_STEP, SUBDIVISION_MAX_ITERATIONS, SUBDIVISION_PRECISION,
};
use bezier_easing::{BezierCurve, Vector2, ONE};

fn fx(v: f64) -> i64 {
    (v * ONE as f64).round() as i64
}

fn as_real(v: i64) -> f64 {
    v as f64 / ONE as f64
}

fn point(x: f64, y: f64) -> Vector2 {
    Vector2 { x: fx(x), y: fx(y) }
}

fn curve(x1: f64, y1: f64, x2: f64, y2: f64) -> BezierCurve {
    BezierCurve::from(point(x1, y1), point(x2, y2))
}

/// Independent reference: bisection in f64 on the Bernstein form, then y at that t.
fn reference(x: f64, x1: f64, y1: f64, x2: f64, y2: f64) -> f64 {
    let bx = |t: f64| 3.0 * (1.0 - t) * (1.0 - t) * t * x1 + 3.0 * (1.0 - t) * t * t * x2 + t * t * t;
    let by = |t: f64| 3.0 * (1.0 - t) * (1.0 - t) * t * y1 + 3.0 * (1.0 - t) * t * t * y2 + t * t * t;
    let mut lo = 0.0;
    let mut hi = 1.0;
    for _ in 0..200 {
        let mid = (lo + hi) / 2.0;
        if bx(mid) < x {
            lo = mid;
        } else {
            hi = mid;
        }
    }
    by((lo + hi) / 2.0)
}

#[test]
fn boundary_values_are_exact() {
    let curves = [
        curve(0.25, 0.1, 0.25, 1.0),
        curve(0.42, 0.0, 0.58, 1.0),
        curve(0.0, 0.0, 0.0, 0.0),
        curve(1.0, 1.0, 1.0, 1.0),
        curve(0.68, -0.55, 0.265, 1.55),
        curve(-3.0, 7.0, 4.0, -2.0),
    ];
    for c in curves.iter() {
        assert_eq!(c.y(0), 0);
        assert_eq!(c.y(ONE), ONE);
    }
}

#[test]
fn monotonic_curve_round_trip() {
    let c = curve(0.25, 0.1, 0.25, 1.0);
    let x1 = fx(0.25);
    let x2 = fx(0.25);
    for k in 1..100i64 {
        let x = k * ONE / 100;
        let t = c.t_for_x(x);
        let back = BezierCurve::at(t, x1, x2);
        assert!(((back - x) as f64 / ONE as f64).abs() < 1e-4, "x = {}", x);
    }
}

#[test]
fn out_of_range_control_points_are_clamped() {
    let p2 = point(0.58, 1.0);
    let clamped = BezierCurve::from(point(-0.5, 2.0), p2);
    let plain = BezierCurve::from(point(0.0, 1.0), p2);
    assert_eq!(clamped, plain);
    for k in 0..=20i64 {
        let x = k * ONE / 20;
        assert_eq!(clamped.y(x), plain.y(x));
    }
}

#[test]
fn limit_vector_clamps_each_coordinate() {
    assert_eq!(BezierCurve::limit_vector(point(-0.5, 2.0)), point(0.0, 1.0));
    assert_eq!(BezierCurve::limit_vector(point(0.3, 0.7)), point(0.3, 0.7));
    assert_eq!(BezierCurve::limit_vector(point(1.5, -1.0)), point(1.0, 0.0));
    assert_eq!(
        BezierCurve::limit_vector(Vector2 { x: i64::MIN, y: i64::MAX }),
        Vector2 { x: 0, y: ONE }
    );
}

#[test]
fn linear_curve_is_identity() {
    let c = curve(1.0 / 3.0, 1.0 / 3.0, 2.0 / 3.0, 2.0 / 3.0);
    for k in 0..=100i64 {
        let x = k * ONE / 100;
        assert!((as_real(c.y(x)) - as_real(x)).abs() < 1e-6, "x = {}", x);
    }
}

#[test]
fn ease_in_out_known_values() {
    let c = curve(0.42, 0.0, 0.58, 1.0);
    assert!((as_real(c.y(fx(0.5))) - 0.5).abs() < 1e-3);
    assert!((as_real(c.y(fx(0.25))) - 0.129162).abs() < 1e-3);
    assert!((as_real(c.y(fx(0.75))) - 0.870838).abs() < 1e-3);
    for k in 1..20i64 {
        let x = k as f64 / 20.0;
        let want = reference(x, 0.42, 0.0, 0.58, 1.0);
        assert!((as_real(c.y(fx(x))) - want).abs() < 1e-3, "x = {}", x);
    }
}

#[test]
fn ease_curve_matches_reference() {
    let c = curve(0.25, 0.1, 0.25, 1.0);
    for k in 1..20i64 {
        let x = k as f64 / 20.0;
        let want = reference(x, 0.25, 0.1, 0.25, 1.0);
        assert!((as_real(c.y(fx(x))) - want).abs() < 1e-3, "x = {}", x);
    }
}

#[test]
fn overshooting_y_values_are_clamped() {
    let c = curve(0.68, -0.55, 0.265, 1.55);
    let same = curve(0.68, 0.0, 0.265, 1.0);
    assert_eq!(c, same);
    for k in 0..=20i64 {
        let x = k * ONE / 20;
        let v = c.y(x);
        assert_eq!(v, same.y(x));
        assert!(v >= 0 && v <= ONE);
    }
    assert!((as_real(c.y(fx(0.1))) - reference(0.1, 0.68, 0.0, 0.265, 1.0)).abs() < 1e-3);
}

#[test]
fn repeated_queries_agree() {
    let c = curve(0.25, 0.1, 0.25, 1.0);
    for k in 0..=50i64 {
        let x = k * ONE / 50;
        let first = c.y(x);
        assert_eq!(c.y(x), first);
        assert_eq!(c.y(x), first);
    }
}

#[test]
fn coefficients_exact() {
    let x1 = fx(0.25);
    let x2 = fx(0.75);
    assert_eq!(BezierCurve::a(x1, x2), -500_000_000);
    assert_eq!(BezierCurve::b(x1, x2), 750_000_000);
    assert_eq!(BezierCurve::c(x1), 750_000_000);
    assert_eq!(BezierCurve::a(0, 0), ONE);
    assert_eq!(BezierCurve::b(0, ONE), 3 * ONE);
}

#[test]
fn polynomial_and_slope_exact() {
    let x1 = fx(0.25);
    let x2 = fx(0.75);
    assert_eq!(BezierCurve::at(fx(0.5), x1, x2), 500_000_000);
    assert_eq!(BezierCurve::slope(fx(0.5), x1, x2), 1_125_000_000);
    assert_eq!(BezierCurve::at(fx(0.3), fx(0.42), fx(0.58)), 321_840_000);
    assert_eq!(BezierCurve::slope(fx(0.3), fx(0.42), fx(0.58)), 932_400_000);
    assert_eq!(BezierCurve::at(0, x1, x2), 0);
    assert_eq!(BezierCurve::at(ONE, x1, x2), ONE);
    assert_eq!(BezierCurve::slope(0, x1, x2), 3 * x1);
}

#[test]
fn sample_table_positions() {
    assert_eq!(SAMPLE_STEP * 10, ONE);
    let c = curve(0.42, 0.0, 0.58, 1.0);
    let x1 = fx(0.42);
    let x2 = fx(0.58);
    let table = [
        0, 118_720_000, 224_960_000, 321_840_000, 412_480_000, 500_000_000, 587_520_000,
        678_160_000, 775_040_000, 881_280_000, 1_000_000_000,
    ];
    for (k, want) in table.iter().enumerate() {
        assert_eq!(BezierCurve::at(k as i64 * SAMPLE_STEP, x1, x2), *want);
    }
    // Where x is a sample exactly, the guess is that sample's t and Newton keeps it.
    assert_eq!(c.t_for_x(321_840_000), fx(0.3));
}

#[test]
fn newton_refines_guess() {
    let x1 = fx(0.42);
    let x2 = fx(0.58);
    let t = BezierCurve::newton_raphson(fx(0.25), fx(0.3), x1, x2);
    assert_eq!(t, 225_065_161);
    assert_eq!(BezierCurve::at(t, x1, x2), fx(0.25));
    // A guess that is already the root stays put.
    assert_eq!(BezierCurve::newton_raphson(fx(0.5), fx(0.5), x1, x2), fx(0.5));
}

#[test]
fn newton_stops_on_zero_slope() {
    // x(t) = 3t - 6t^2 + 4t^3 has slope 0 at t = 0.5.
    assert_eq!(BezierCurve::slope(fx(0.5), ONE, 0), 0);
    assert_eq!(BezierCurve::newton_raphson(fx(0.7), fx(0.5), ONE, 0), fx(0.5));
}

#[test]
fn binary_subdivide_halves_interval() {
    let x1 = fx(0.42);
    let x2 = fx(0.58);
    let t = BezierCurve::binary_subdivide(fx(0.25), 0, ONE, x1, x2);
    assert_eq!(t, 225_585_937);
    assert_eq!(SUBDIVISION_MAX_ITERATIONS, 10);
    // The first midpoint is returned at once when it is within the precision.
    let exact = BezierCurve::binary_subdivide(fx(0.5), 0, ONE, x1, x2);
    assert_eq!(exact, fx(0.5));
    let near = BezierCurve::at(exact, x1, x2) - fx(0.5);
    assert!(near.abs() <= SUBDIVISION_PRECISION);
}

#[test]
fn flat_point_takes_guess_as_is() {
    // p1.x = 1, p2.x = 0: x(t) is flat at t = 0.5, where x = 0.5.
    let c = curve(1.0, 0.2, 0.0, 0.8);
    assert_eq!(c.t_for_x(fx(0.5)), fx(0.5));
    assert_eq!(c.y(fx(0.5)), BezierCurve::at(fx(0.5), fx(0.2), fx(0.8)));
}

#[test]
fn shallow_slope_falls_back_to_bisection() {
    // Near the flat point the slope at the first guess is positive but under 0.001.
    let c = curve(1.0, 0.2, 0.0, 0.8);
    let x = 500_001_000;
    let t = c.t_for_x(x);
    assert_eq!(t, 506_835_937);
    assert!((BezierCurve::at(t, ONE, 0) - x).abs() < 10_000);
}

#[test]
fn degenerate_curves() {
    let zero = curve(0.0, 0.0, 0.0, 0.0);
    let one = curve(1.0, 1.0, 1.0, 1.0);
    for k in 1..20i64 {
        let x = k as f64 / 20.0;
        assert!((as_real(zero.y(fx(x))) - reference(x, 0.0, 0.0, 0.0, 0.0)).abs() < 1e-3);
        assert!((as_real(one.y(fx(x))) - reference(x, 1.0, 1.0, 1.0, 1.0)).abs() < 1e-3);
    }
}

#[test]
fn sample_tables_never_decrease() {
    let corners = [(0.0, 0.0), (1.0, 1.0), (1.0, 0.0), (0.0, 1.0), (0.25, 0.25), (0.42, 0.58)];
    for (x1, x2) in corners.iter() {
        let (x1, x2) = (fx(*x1), fx(*x2));
        for k in 0..10i64 {
            let here = BezierCurve::at(k * SAMPLE_STEP, x1, x2);
            let next = BezierCurve::at((k + 1) * SAMPLE_STEP, x1, x2);
            assert!(here <= next, "k = {}", k);
        }
    }
}

#[test]
fn newton_steps_are_not_clamped_to_unit() {
    // Slope 0.0012 at 0.51: the first plain step lands near t = 333.84.
    let t = BezierCurve::newton_raphson(fx(0.9), fx(0.51), ONE, 0);
    assert_eq!(t, 99_267_409_511);
    assert!(t > ONE);
}

#[test]
fn newton_saturates_at_parameter_limit() {
    // Slope of one unit: the first step would go far past t = 1000 and stops there.
    assert_eq!(BezierCurve::slope(500_010_000, ONE, 0), 1);
    let t = BezierCurve::newton_raphson(fx(0.9), 500_010_000, ONE, 0);
    assert_eq!(t, 296_648_148_383);
    assert!(t < PARAMETER_LIMIT);
}

#[test]
fn polynomial_fits_at_parameter_limit() {
    for (x1, x2) in [(0, 0), (ONE, ONE), (ONE, 0), (0, ONE)].iter() {
        let hi = BezierCurve::at(PARAMETER_LIMIT, *x1, *x2);
        let lo = BezierCurve::at(-PARAMETER_LIMIT, *x1, *x2);
        let s = BezierCurve::slope(PARAMETER_LIMIT, *x1, *x2);
        assert!(hi.abs() <= 4_006_003_000 * ONE);
        assert!(lo.abs() <= 4_006_003_000 * ONE);
        assert!(s.abs() <= 12_012_003 * ONE);
    }
    // x(t) = t^3 for x1 = x2 = 0.
    assert_eq!(BezierCurve::at(PARAMETER_LIMIT, 0, 0), 1_000_000_000 * ONE);
}

#[test]
fn third_curve_within_rounding_of_identity() {
    let c = BezierCurve::from(
        Vector2 { x: 333_333_333, y: 333_333_333 },
        Vector2 { x: 666_666_667, y: 666_666_667 },
    );
    for x in [0, 1, 7, 99_999_999, 100_000_000, 314_159_265, 500_000_000, 999_999_999, ONE] {
        assert!((c.y(x) - x).abs() <= 18, "x = {}", x);
    }
    for k in 0..=1000i64 {
        let x = k * ONE / 1000;
        assert!((c.y(x) - x).abs() <= 18, "x = {}", x);
    }
}
