//! What holds of the library as a whole, stated and proved.

use crate::catenary::Catenary;
use crate::catenary::crossing_of;
use crate::catenary::crossings_of;
use crate::catenary::made_of;
use crate::catenary::pixels_of;
use crate::catenary::samples_of;
use crate::error::CatenaryError;
use crate::grid::lemma_cell_on_grid;
use crate::ieee::at_most;
use crate::ieee::finite;
use crate::ieee::lemma_order_by_encoding;
use crate::ieee::lemma_weight_of_zero;
use crate::ieee::scaled;
use crate::ieee::sign_of;
use crate::ieee::weight_of;
use crate::placement::bottom_of;
use crate::rounding::lemma_nearest_is_nearest;
use crate::rounding::lemma_unit_positive;
use crate::rounding::nearest_of;
use crate::rounding::pixel_of;
use crate::rounding::unit;
use crate::samples::Samples;
use crate::samples::lemma_contains_in_sum;
use crate::samples::lemma_raster_members;
use crate::samples::lemma_sides_fit;
use crate::scalar::Scalar;
use crate::scalar::class_of;
use crate::scalar::lemma_class_by_encoding;
use crate::strategy::BRACKET_HIGH;
use crate::strategy::BRACKET_LOW;
use crate::strategy::DERIVATIVE_START;
use crate::strategy::MIN_SLACK;
use crate::strategy::Method;
use crate::strategy::SOLVER_TOLERANCE;
use crate::strategy::Step;
use crate::strategy::step_after;
use crate::strategy::verdict_on;
use crate::texture::cells_of;
use crate::texture::painted;
use vstd::prelude::*;

verus! {

/// The solver stops after two attempts: what follows the derivative method is
/// the bracketing method or the end, and what follows the bracketing method
/// is the end.
pub proof fn lemma_two_attempts_at_most(first: Option<Scalar>, second: Option<Scalar>)
    ensures
        step_after(Method::Derivative, first) is Retry ==> step_after(Method::Derivative, first)
            == Step::Retry(Method::Bracketing),
        !(step_after(Method::Bracketing, second) is Retry),
{
}

/// Only a finite shape parameter above zero is ever accepted, and every
/// failure of the solver is a `SolverDivergence`.
pub proof fn lemma_accepted_parameter_is_positive(method: Method, attempt: u64)
    ensures
        step_after(method, Some(class_of(attempt))) is Accept <==> finite(attempt) && scaled(
            attempt,
        ) > 0,
        step_after(method, Some(class_of(attempt))) is Fail ==> step_after(
            method,
            Some(class_of(attempt)),
        ) == Step::Fail(CatenaryError::SolverDivergence),
{
}

/// A cable hanging straight down with slack to spare is never handed to the
/// solver, and neither is a request with a number that is not finite.
pub proof fn lemma_degenerate_requests_are_rejected(dist_h: u64, dist_v: u64, slack: u64)
    ensures
        finite(dist_h) && finite(dist_v) && finite(slack) && scaled(dist_h) == 0 && scaled(slack)
            > 0 ==> verdict_on(class_of(dist_h), class_of(dist_v), class_of(slack)) == Err::<
            (),
            CatenaryError,
        >(CatenaryError::DomainError),
        !finite(dist_h) || !finite(dist_v) || !finite(slack) || scaled(dist_h) < 0 ==> verdict_on(
            class_of(dist_h),
            class_of(dist_v),
            class_of(slack),
        ) == Err::<(), CatenaryError>(CatenaryError::InvalidInput),
        verdict_on(class_of(dist_h), class_of(dist_v), class_of(slack)) is Ok ==> finite(dist_h)
            && finite(dist_v) && finite(slack) && scaled(dist_h) >= 0,
{
}

/// A column above which the curve lies inside the grid holds a marked pixel,
/// on the screen row that shows the curve's level there.
pub proof fn lemma_sampled_columns_are_marked(curve: Samples, col: int)
    requires
        curve.well_formed(),
        0 <= col < curve.width,
        0 <= curve.heights[col] < curve.height,
    ensures
        curve.raster().contains(
            (col as usize, (curve.height - 1 - curve.heights[col]) as usize),
        ),
{
    lemma_raster_members(curve);
    lemma_sides_fit(curve);
    let row = curve.height - 1 - curve.heights[col];
    assert(curve.on_column_scan(col, row));
    assert(curve.on_curve(col as usize as int, row as usize as int));
}

/// No gap between the scans: a screen row on whose level a branch of the curve
/// crosses a column of the grid holds a marked pixel, however many levels the
/// curve climbs from one column to the next.
pub proof fn lemma_crossed_rows_are_marked(curve: Samples, row: int)
    requires
        curve.well_formed(),
        0 <= row < curve.height,
        curve.crossings[curve.level(row)] matches Some(pair) && (0 <= pair.0 < curve.width || 0
            <= pair.1 < curve.width),
    ensures
        exists|col: usize|
            col < curve.width && #[trigger] curve.raster().contains((col, row as usize)),
{
    lemma_raster_members(curve);
    lemma_sides_fit(curve);
    let pair = curve.crossings[curve.level(row)]->0;
    let col: usize = if 0 <= pair.0 < curve.width {
        pair.0 as usize
    } else {
        pair.1 as usize
    };
    assert(curve.on_row_scan(col as int, row));
    assert(curve.on_curve(col as int, row as usize as int));
    assert(curve.raster().contains((col, row as usize)));
}

/// Rounding keeps a sample on the grid: a number that lies less than half a
/// pixel outside the pixels `0` to `count - 1` falls on one of them.
pub proof fn lemma_pixel_on_grid(bits: u64, count: int)
    requires
        finite(bits),
        -unit() < 2 * scaled(bits) < (2 * count - 1) * unit(),
    ensures
        0 <= nearest_of(bits) < count,
{
    lemma_nearest_is_nearest(bits);
    lemma_unit_positive();
    lemma_weight_of_zero(bits);
    let n = nearest_of(bits);
    let s = scaled(bits);
    vstd::arithmetic::div_mod::lemma_div_pos_is_pos(2 * weight_of(bits) + unit(), 2 * unit());
    if sign_of(bits) {
        assert(0 <= n) by (nonlinear_arith)
            requires
                -unit() <= 2 * (n * unit() - s),
                -unit() < 2 * s,
                unit() > 0,
        ;
        assert(0 < count) by (nonlinear_arith)
            requires
                -unit() < (2 * count - 1) * unit(),
                unit() > 0,
        ;
    } else {
        assert(n < count) by (nonlinear_arith)
            requires
                2 * (n * unit() - s) <= unit(),
                2 * s < (2 * count - 1) * unit(),
                unit() > 0,
        ;
    }
}

/// The number that `bits` encodes lies less than half a pixel outside the
/// pixels `0` to `count - 1`.
pub open spec fn within_pixels(bits: u64, count: int) -> bool {
    finite(bits) && -unit() < 2 * scaled(bits) < (2 * count - 1) * unit()
}

/// No gap, in terms of the samples as they were computed: a screen row on
/// whose level a branch of the curve lies within the picture's columns holds
/// a marked pixel.
pub proof fn lemma_reached_rows_are_marked(
    bounds: (usize, usize),
    heights: Seq<u64>,
    crossings: Seq<Option<(u64, u64)>>,
    row: int,
)
    requires
        samples_of(bounds, pixels_of(heights), crossings_of(crossings)).well_formed(),
        0 <= row < bounds.1,
        crossings[bounds.1 - 1 - row] matches Some(pair) && (within_pixels(
            pair.0,
            bounds.0 as int,
        ) || within_pixels(pair.1, bounds.0 as int)),
    ensures
        exists|col: usize|
            col < bounds.0 && #[trigger] samples_of(
                bounds,
                pixels_of(heights),
                crossings_of(crossings),
            ).raster().contains((col, row as usize)),
{
    let curve = samples_of(bounds, pixels_of(heights), crossings_of(crossings));
    let pair = crossings[bounds.1 - 1 - row]->0;
    assert(curve.crossings[curve.level(row)] == crossing_of(crossings[bounds.1 - 1 - row]));
    assert(4 * bounds.0 <= 4 * bounds.0 * bounds.1) by (nonlinear_arith)
        requires
            1 <= bounds.1,
    ;
    if within_pixels(pair.0, bounds.0 as int) {
        lemma_pixel_on_grid(pair.0, bounds.0 as int);
        assert(pixel_of(pair.0) == nearest_of(pair.0));
    } else {
        lemma_pixel_on_grid(pair.1, bounds.0 as int);
        assert(pixel_of(pair.1) == nearest_of(pair.1));
    }
    lemma_crossed_rows_are_marked(curve, row);
}

/// The rasterized curve is the union of the two scans: it holds every pixel
/// of each of them, and no pixel that neither of them holds.
pub proof fn lemma_raster_is_union(curve: Samples, mark: (usize, usize))
    ensures
        curve.raster().contains(mark) <==> curve.column_scan().contains(mark)
            || curve.row_scan().contains(mark),
{
    lemma_contains_in_sum(curve.column_scan(), curve.row_scan(), mark);
}

/// Drawing is a union of marks: drawing `first` and then `second` gives what
/// drawing both lists at once gives, in either order.
pub proof fn lemma_painting_in_turn(
    before: Seq<u8>,
    width: int,
    first: Seq<(usize, usize)>,
    second: Seq<(usize, usize)>,
)
    ensures
        painted(painted(before, width, first), width, second) == painted(
            before,
            width,
            first + second,
        ),
        painted(before, width, first + second) == painted(before, width, second + first),
{
    let a = cells_of(width, first);
    let b = cells_of(width, second);
    assert(cells_of(width, first + second) =~= a + b);
    assert(cells_of(width, second + first) =~= b + a);
    let in_turn = painted(painted(before, width, first), width, second);
    let at_once = painted(before, width, first + second);
    let swapped = painted(before, width, second + first);
    assert forall|j: int| 0 <= j < before.len() implies #[trigger] in_turn[j] == at_once[j]
        && at_once[j] == swapped[j] by {
        lemma_contains_in_sum(a, b, j / 4);
        lemma_contains_in_sum(b, a, j / 4);
    }
    assert(in_turn =~= at_once);
    assert(at_once =~= swapped);
}

/// Drawing is idempotent: drawing the same marks a second time changes
/// nothing.
pub proof fn lemma_painting_twice(before: Seq<u8>, width: int, marks: Seq<(usize, usize)>)
    ensures
        painted(painted(before, width, marks), width, marks) == painted(before, width, marks),
{
    assert(painted(painted(before, width, marks), width, marks) =~= painted(
        before,
        width,
        marks,
    ));
}

/// Drawing the picture onto a texture that already shows it changes nothing.
pub proof fn lemma_texture_twice(curve: Samples, before: Seq<u8>, flipped: bool)
    ensures
        curve.texture(curve.texture(before, flipped), flipped) == curve.texture(before, flipped),
{
    assert(curve.texture(curve.texture(before, flipped), flipped) =~= curve.texture(
        before,
        flipped,
    ));
}

/// The flipped picture is the mirror image of the plain one: on a blank
/// texture, channel `channel` of the pixel in column `col` of row `row` of
/// the flipped picture equals that channel of the pixel in column
/// `width - 1 - col` of the same row of the plain picture.
pub proof fn lemma_flipped_is_mirror_image(curve: Samples, col: int, row: int, channel: int)
    requires
        curve.well_formed(),
        0 <= col < curve.width,
        0 <= row < curve.height,
        0 <= channel < 4,
    ensures
        curve.texture(curve.blank(), true)[4 * (row * curve.width + col) + channel]
            == curve.texture(curve.blank(), false)[4 * (row * curve.width + (curve.width - 1
            - col)) + channel],
{
    let w = curve.width as int;
    let h = curve.height as int;
    let there = w - 1 - col;
    lemma_cell_on_grid(w, h, col, row);
    lemma_cell_on_grid(w, h, there, row);
    let j = 4 * (row * w + col) + channel;
    let k = 4 * (row * w + there) + channel;
    assert(j / 4 == row * w + col);
    assert(k / 4 == row * w + there);
    assert(curve.lit(col, row, true) == curve.lit(there, row, false));
}

/// Placing is repeatable: whatever [`bottom_height`] returns for the same
/// five heights and abscissas is the same number, and whatever a constructor of
/// [`Catenary`] returns for the same samples is the same curve, with the same
/// pixels and the same texture, or the same error.
///
/// [`bottom_height`]: crate::placement::bottom_height
pub proof fn lemma_placing_is_repeatable(
    x0: u64,
    x1: u64,
    a: u64,
    y0: u64,
    y1: u64,
    first_bottom: u64,
    second_bottom: u64,
    samples: Samples,
    first: Result<Catenary, CatenaryError>,
    second: Result<Catenary, CatenaryError>,
    before: Seq<u8>,
    flipped: bool,
)
    requires
        first_bottom == bottom_of(x0, x1, a, y0, y1),
        second_bottom == bottom_of(x0, x1, a, y0, y1),
        made_of(samples, first),
        made_of(samples, second),
    ensures
        first_bottom == second_bottom,
        first is Ok <==> second is Ok,
        first matches Ok(one) ==> second matches Ok(other) && one@ == other@ && one@.pixels(
            flipped,
        ) == other@.pixels(flipped) && one@.texture(before, flipped) == other@.texture(
            before,
            flipped,
        ),
        first matches Err(e) ==> second == Err::<Catenary, CatenaryError>(e),
{
}

/// A request with a horizontal distance above zero and three finite numbers
/// is handed to the solver, whatever its vertical distance and its slack.
pub proof fn lemma_valid_requests_are_taken(dist_h: u64, dist_v: u64, slack: u64)
    requires
        finite(dist_h),
        finite(dist_v),
        finite(slack),
        scaled(dist_h) > 0,
    ensures
        verdict_on(class_of(dist_h), class_of(dist_v), class_of(slack)) is Ok,
{
}

/// The search of the solver is well set: the derivative method starts inside
/// the interval of the bracketing method, the interval lies above zero, and
/// the tolerance is above zero and below the smallest slack.
pub proof fn lemma_search_is_well_set()
    ensures
        at_most(BRACKET_LOW, DERIVATIVE_START),
        at_most(DERIVATIVE_START, BRACKET_HIGH),
        class_of(BRACKET_LOW) is Positive,
        class_of(SOLVER_TOLERANCE) is Positive,
        at_most(SOLVER_TOLERANCE, MIN_SLACK),
{
    lemma_order_by_encoding(BRACKET_LOW, DERIVATIVE_START);
    lemma_order_by_encoding(DERIVATIVE_START, BRACKET_HIGH);
    lemma_order_by_encoding(SOLVER_TOLERANCE, MIN_SLACK);
    lemma_class_by_encoding(BRACKET_LOW);
    lemma_class_by_encoding(SOLVER_TOLERANCE);
}

} // verus!
