//! The library driven by a numeric front end: the curve is solved, located and
//! sampled in floating point here, and rasterized by the library.

use catenary_gen::grid::bounds_of;
use catenary_gen::placement::{bottom_height, check_height, check_residual, lower_of};
use catenary_gen::strategy::{
    check_request, next_step, raise_slack, Method, Step, BRACKET_HIGH, BRACKET_LOW,
    DERIVATIVE_START, MAX_ITERATIONS, SOLVER_TOLERANCE,
};
use catenary_gen::texture::paint;
use catenary_gen::{Catenary, CatenaryError, CenteredCatenary, Scalar};

fn classify(x: f64) -> Scalar {
    Scalar::from_bits(x.to_bits())
}

fn solve(dist_h: f64, dist_v: f64, slack: f64) -> Result<f64, CatenaryError> {
    check_request(dist_h.to_bits(), dist_v.to_bits(), slack.to_bits())?;
    let chord = (dist_h * dist_h + dist_v * dist_v).sqrt();
    let arc_length = chord + f64::from_bits(raise_slack(slack.to_bits()));
    let target = (arc_length * arc_length - dist_v * dist_v).sqrt();
    let residual = |a: f64| 2.0 * a * f64::sinh(dist_h / (2.0 * a)) - target;
    let slope = |a: f64| {
        2.0 * f64::sinh(dist_h / (2.0 * a)) - dist_h / a * f64::cosh(dist_h / (2.0 * a))
    };
    let mut method = Method::Derivative;
    loop {
        let mut convergency = roots::SimpleConvergency {
            eps: f64::from_bits(SOLVER_TOLERANCE),
            max_iter: MAX_ITERATIONS,
        };
        let attempt = match method {
            Method::Derivative => roots::find_root_newton_raphson(
                f64::from_bits(DERIVATIVE_START),
                residual,
                slope,
                &mut convergency,
            ),
            Method::Bracketing => roots::find_root_brent(
                f64::from_bits(BRACKET_LOW),
                f64::from_bits(BRACKET_HIGH),
                residual,
                &mut convergency,
            ),
        };
        let class = attempt.as_ref().ok().map(|a| classify(*a));
        match (next_step(method, class), attempt) {
            (Step::Accept, Ok(a)) => return Ok(a),
            (Step::Retry(next), _) => method = next,
            (Step::Fail(e), _) => return Err(e),
            (Step::Accept, Err(_)) => unreachable!(),
        }
    }
}

struct Placed {
    a: f64,
    x0: f64,
    disp_y: f64,
    cat: Catenary,
}

fn place(dist_h: f64, dist_v: f64, slack: f64) -> Result<Placed, CatenaryError> {
    let a = solve(dist_h, dist_v, slack)?;
    let at_x = |x: f64| a * f64::cosh(x / a);
    let x0 = a * f64::asinh(dist_v / (2.0 * a * f64::sinh(dist_h / 2.0 / a))) - dist_h / 2.0;
    let x1 = x0 + dist_h;
    check_residual((at_x(x1) - at_x(x0) - dist_v).to_bits())?;
    let (y0, y1) = (at_x(x0).to_bits(), at_x(x1).to_bits());
    let disp_y = f64::from_bits(bottom_height(x0.to_bits(), x1.to_bits(), a.to_bits(), y0, y1));
    let sag = f64::from_bits(lower_of(y0, y1)) - disp_y;
    let bounds = bounds_of(dist_h.to_bits(), dist_v.to_bits(), (dist_v.abs() + sag).to_bits())?;
    let heights: Vec<u64> =
        (0..bounds.0).map(|col| (at_x(col as f64 + x0) - disp_y).to_bits()).collect();
    let crossings: Vec<Option<(u64, u64)>> = (0..bounds.1)
        .map(|level| {
            let y = level as f64 + disp_y;
            check_height(y.to_bits(), a.to_bits()).ok()?;
            let x = a * f64::acosh(y / a);
            Some(((x - x0).to_bits(), (-x - x0).to_bits()))
        })
        .collect();
    let cat = Catenary::from_doubles(bounds, &heights, &crossings)?;
    Ok(Placed { a, x0, disp_y, cat })
}

fn to_pixel(v: f64) -> i64 {
    catenary_gen::rounding::to_pixel(v.to_bits())
}

fn rows_with_a_pixel(pixels: &[(usize, usize)], height: usize) -> Vec<bool> {
    let mut seen = vec![false; height];
    for (_, row) in pixels {
        seen[*row] = true;
    }
    seen
}

#[test]
fn lib_test() {
    let dist_v = 100.0;
    let dist_h = 100.0;
    let arc_len = 250.0;
    let placed = place(dist_h, dist_v, arc_len).unwrap();
    let cat = placed.cat;
    let (w, h) = cat.bounds();
    assert_eq!((w, h), (102, 231));

    let mut buf = vec![0u8; w * h * 4];
    paint(&mut buf, (w, h), &cat.render_catenary()).unwrap();
    assert_eq!(buf, cat.render_new_tex(false));
    assert!(buf.chunks(4).any(|pixel| pixel == [255, 255, 255, 255]));
    assert!(buf.chunks(4).all(|pixel| pixel == [255, 255, 255, 255] || pixel == [0, 0, 0, 0]));

    let mut buf_x = vec![0u8; w * h * 4];
    paint(&mut buf_x, (w, h), &cat.render_catenary_x()).unwrap();
    let mut buf_y = vec![0u8; w * h * 4];
    paint(&mut buf_y, (w, h), &cat.render_catenary_y()).unwrap();
    for ((both, by_columns), by_rows) in buf.iter().zip(&buf_x).zip(&buf_y) {
        assert_eq!(*both, *by_columns | *by_rows);
    }
}

#[test]
fn long_cable_between_distant_points() {
    let dist_v = 1000.0;
    let dist_h = 1500.0;
    let arc_len = 2500.0;
    let chord = f64::sqrt(dist_h * dist_h + dist_v * dist_v);
    let placed = place(dist_h, dist_v, arc_len - chord).unwrap();
    let (w, h) = placed.cat.bounds();
    assert_eq!((w, h), (1502, 1393));
    let pixels = placed.cat.render_catenary();
    assert!(!pixels.is_empty());
    assert!(pixels.iter().all(|(col, row)| *col < w && *row < h));
}

#[test]
fn hanging_cable_scenario() {
    let placed = place(100.0, 100.0, 150.0).unwrap();
    assert!(placed.a > 1.0 && placed.a < 50.0);
    assert_eq!(placed.cat.bounds(), (102, 179));
    assert!(!placed.cat.render_catenary().is_empty());
}

#[test]
fn solved_parameter_meets_its_equation() {
    for (dist_h, dist_v, slack) in [(100.0, 100.0, 150.0), (100.0, -40.0, 10.0), (30.0, 0.0, 5.0)] {
        let a: f64 = solve(dist_h, dist_v, slack).unwrap();
        assert!(a > 0.0);
        let chord = f64::sqrt(dist_h * dist_h + dist_v * dist_v);
        let want = f64::sqrt((chord + slack) * (chord + slack) - dist_v * dist_v);
        let got = 2.0 * a * f64::sinh(dist_h / (2.0 * a));
        assert!((got - want).abs() <= 1e-6 * want);
    }
}

#[test]
fn located_endpoints_reproduce_the_rise() {
    for (dist_h, dist_v, slack) in [(100.0, 100.0, 150.0), (100.0, -40.0, 10.0), (30.0, 0.0, 5.0)] {
        let placed = place(dist_h, dist_v, slack).unwrap();
        let at_x = |x: f64| placed.a * f64::cosh(x / placed.a);
        let rise: f64 = at_x(placed.x0 + dist_h) - at_x(placed.x0);
        assert!((rise - dist_v).abs() <= 1e-5);
    }
}

#[test]
fn more_slack_gives_a_smaller_parameter() {
    let tight = solve(100.0, 100.0, 50.0).unwrap();
    let loose = solve(100.0, 100.0, 150.0).unwrap();
    assert!(loose < tight);
}

#[test]
fn vertical_cable_with_slack_is_rejected() {
    assert_eq!(solve(0.0, 100.0, 10.0).err(), Some(CatenaryError::DomainError));
    assert_eq!(place(0.0, 0.0, 1.0).err(), Some(CatenaryError::DomainError));
}

#[test]
fn malformed_requests_are_rejected() {
    assert_eq!(solve(-1.0, 100.0, 10.0).err(), Some(CatenaryError::InvalidInput));
    assert_eq!(solve(f64::NAN, 100.0, 10.0).err(), Some(CatenaryError::InvalidInput));
    assert_eq!(solve(100.0, f64::INFINITY, 10.0).err(), Some(CatenaryError::InvalidInput));
    assert_eq!(solve(100.0, 100.0, f64::NEG_INFINITY).err(), Some(CatenaryError::InvalidInput));
}

#[test]
fn vertical_cable_without_slack_diverges() {
    assert_eq!(solve(0.0, 100.0, 0.0).err(), Some(CatenaryError::SolverDivergence));
}

#[test]
fn every_row_holds_a_pixel() {
    for (dist_h, dist_v, slack) in [
        (100.0, 100.0, 150.0),
        (100.0, -100.0, 250.0),
        (60.0, 0.0, 40.0),
        (99.2, 37.5, 12.0),
    ] {
        let placed = place(dist_h, dist_v, slack).unwrap();
        let (_, h) = placed.cat.bounds();
        let seen = rows_with_a_pixel(&placed.cat.render_catenary(), h);
        assert!(seen.iter().all(|row| *row), "{dist_h} {dist_v} {slack}");
    }
}

#[test]
fn column_scan_alone_leaves_rows_open() {
    let placed = place(100.0, 100.0, 150.0).unwrap();
    let (_, h) = placed.cat.bounds();
    let seen = rows_with_a_pixel(&placed.cat.render_catenary_x(), h);
    assert!(seen.iter().any(|row| !*row));
}

#[test]
fn endpoints_are_on_the_picture() {
    let placed = place(100.0, 100.0, 150.0).unwrap();
    let (_, h) = placed.cat.bounds();
    let at_x = |x: f64| placed.a * f64::cosh(x / placed.a);
    // the left endpoint is the lower one
    let left = h - 1 - to_pixel(at_x(placed.x0) - placed.disp_y) as usize;
    assert!(placed.cat.marks(0, left));
    // the right endpoint lies in the column of the horizontal distance, half a
    // pixel above the top row, which the curve leaves in that column
    assert_eq!(to_pixel(at_x(placed.x0 + 100.0) - placed.disp_y), h as i64);
    assert!(placed.cat.marks(100, 0));
}

#[test]
fn height_at_a_point_leads_back_to_the_point() {
    let a: f64 = 18.5;
    let cat = CenteredCatenary::new(a.to_bits()).unwrap();
    for x in [0.0, 0.001, 0.5, 1.0, 18.5, 56.6, 100.0, 400.0] {
        let y: f64 = a * f64::cosh(x / a);
        assert_eq!(cat.admits(y.to_bits()), Ok(()));
        let back: f64 = a * f64::acosh(y / a);
        assert!((back - x).abs() <= 1e-6 * x.max(1.0), "{x}");
    }
}

#[test]
fn slack_below_the_floor_gives_the_same_parameter() {
    let floor = solve(100.0, 100.0, 1e-3).unwrap();
    assert_eq!(solve(100.0, 100.0, 1e-4).unwrap().to_bits(), floor.to_bits());
    assert_eq!(solve(100.0, 100.0, 0.0).unwrap().to_bits(), floor.to_bits());
    assert_eq!(solve(100.0, 100.0, -7.0).unwrap().to_bits(), floor.to_bits());
}

#[test]
fn lowest_point_touches_the_bottom_row() {
    let placed = place(100.0, 20.0, 150.0).unwrap();
    assert!(placed.x0 < 0.0 && placed.x0 + 100.0 > 0.0);
    let (w, h) = placed.cat.bounds();
    assert!((0..w).any(|col| placed.cat.marks(col, h - 1)));
}

#[test]
fn placing_twice_gives_the_same_picture() {
    let first = place(100.0, 100.0, 150.0).unwrap();
    let second = place(100.0, 100.0, 150.0).unwrap();
    assert_eq!(first.a.to_bits(), second.a.to_bits());
    assert_eq!(first.x0.to_bits(), second.x0.to_bits());
    assert_eq!(first.cat.bounds(), second.cat.bounds());
    assert_eq!(first.cat.render_catenary(), second.cat.render_catenary());
    assert_eq!(first.cat.render_new_tex(true), second.cat.render_new_tex(true));
}
