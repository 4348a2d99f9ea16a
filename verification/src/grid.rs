//! The size of the picture and the numbering of its cells.

use crate::error::CatenaryError;
use crate::ieee::finite;
use crate::ieee::lemma_weight_of_zero;
use crate::ieee::magnitude;
use crate::ieee::magnitude_of;
use crate::ieee::scaled;
use crate::ieee::weight_of;
use crate::rounding::ceiling;
use crate::rounding::ceiling_of;
use crate::rounding::lemma_ceiling_is_least;
use crate::rounding::lemma_unit_positive;
use crate::rounding::unit;
use vstd::prelude::*;

verus! {

/// Columns of the picture beyond the horizontal distance rounded up to whole
/// pixels: the column of the right endpoint and one column past it. The
/// picture has no row beyond the vertical extent rounded up.
pub const PADDING: usize = 2;

/// The grid that holds a curve spanning `span` whole pixels horizontally and
/// `rise` whole pixels vertically: (`span + PADDING`, `rise`).
pub open spec fn grid_for(span: int, rise: int) -> (int, int) {
    (span + PADDING, rise)
}

/// Both sides of the grid for `span` and `rise`, and the length of its RGBA
/// texture, can be held in a `usize`.
pub open spec fn grid_fits(span: int, rise: int) -> bool {
    &&& grid_for(span, rise).0 <= usize::MAX
    &&& grid_for(span, rise).1 <= usize::MAX
    &&& 4 * grid_for(span, rise).0 * grid_for(span, rise).1 <= usize::MAX
}

/// The whole pixels that the picture holds vertically: the ceiling of the
/// vertical extent, and no less than the ceiling of the absolute value of the
/// vertical distance between the endpoints.
pub open spec fn rise_of(dist_v: u64, extent: u64) -> int {
    if ceiling_of(extent) >= ceiling_of(magnitude_of(dist_v) as u64) {
        ceiling_of(extent)
    } else {
        ceiling_of(magnitude_of(dist_v) as u64)
    }
}

/// All three distances are numbers, the ceilings of the horizontal distance
/// and of the extent are not negative, and the grid for the ceilings fits.
pub open spec fn measurable(dist_h: u64, dist_v: u64, extent: u64) -> bool {
    &&& finite(dist_h)
    &&& finite(dist_v)
    &&& finite(extent)
    &&& 0 <= ceiling_of(dist_h)
    &&& 0 <= ceiling_of(extent)
    &&& grid_fits(ceiling_of(dist_h), rise_of(dist_v, extent))
}

/// What [`bounds_for`] owes for `span` and `rise`: the grid where it fits,
/// else `InvalidInput`.
pub open spec fn sized_for(span: int, rise: int, bounds: Result<(usize, usize), CatenaryError>)
    -> bool {
    match bounds {
        Ok(grid) => grid_fits(span, rise) && (grid.0 as int, grid.1 as int) == grid_for(
            span,
            rise,
        ),
        Err(e) => e == CatenaryError::InvalidInput && !grid_fits(span, rise),
    }
}

/// What [`bounds_of`] owes for the three distances: the grid for the
/// horizontal distance rounded up and for [`rise_of`] where the distances are
/// measurable, else `InvalidInput`.
pub open spec fn sized_of(
    dist_h: u64,
    dist_v: u64,
    extent: u64,
    bounds: Result<(usize, usize), CatenaryError>,
) -> bool {
    match bounds {
        Ok(grid) => measurable(dist_h, dist_v, extent) && (grid.0 as int, grid.1 as int)
            == grid_for(ceiling_of(dist_h), rise_of(dist_v, extent)),
        Err(e) => e == CatenaryError::InvalidInput && !measurable(dist_h, dist_v, extent),
    }
}

/// The (width, height) of the picture of a curve whose endpoints are `span`
/// whole pixels apart horizontally and whose highest point lies `rise` whole
/// pixels above its lowest visible point: `PADDING` columns more than `span`,
/// and `rise` rows.
///
/// A grid that does not fit, see [`grid_fits`], is `InvalidInput`.
pub fn bounds_for(span: usize, rise: usize) -> (bounds: Result<(usize, usize), CatenaryError>)
    ensures
        sized_for(span as int, rise as int, bounds),
{
    let width = match span.checked_add(PADDING) {
        Some(width) => width,
        None => {
            return Err(CatenaryError::InvalidInput);
        },
    };
    if texture_len(width, rise).is_some() {
        Ok((width, rise))
    } else {
        Err(CatenaryError::InvalidInput)
    }
}

/// The (width, height) of the picture of a curve whose endpoints are `dist_h`
/// apart horizontally and `dist_v` vertically and whose highest point lies
/// `extent` above its lowest visible point, all three doubles given by their
/// encodings: the grid of [`bounds_for`] for the horizontal distance and the
/// vertical extent rounded up to whole pixels. The extent is the vertical
/// distance plus the sag of the curve below its lower endpoint; should it come
/// out smaller than the vertical distance, the vertical distance counts.
///
/// A distance that is no number, a horizontal distance or an extent of minus
/// one pixel or less, or a grid that does not fit, is `InvalidInput`.
pub fn bounds_of(dist_h: u64, dist_v: u64, extent: u64) -> (bounds: Result<
    (usize, usize),
    CatenaryError,
>)
    ensures
        sized_of(dist_h, dist_v, extent, bounds),
{
    let apart = magnitude(dist_v);
    proof {
        assert(finite(apart) == finite(dist_v));
        if finite(apart) {
            lemma_ceiling_is_least(apart);
            lemma_weight_of_zero(apart);
            lemma_unit_positive();
            assert(0 <= ceiling_of(apart)) by (nonlinear_arith)
                requires
                    0 <= scaled(apart) <= ceiling_of(apart) * unit(),
                    unit() > 0,
            ;
        }
    }
    match (ceiling(dist_h), ceiling(apart), ceiling(extent)) {
        (Some(span), Some(least), Some(rise)) => bounds_for(
            span,
            if rise >= least {
                rise
            } else {
                least
            },
        ),
        _ => Err(CatenaryError::InvalidInput),
    }
}

/// The number of bytes of the RGBA texture of a grid of `width` columns and
/// `height` rows, or `None` when a `usize` cannot hold it.
pub fn texture_len(width: usize, height: usize) -> (len: Option<usize>)
    ensures
        match len {
            Some(bytes) => bytes == 4 * width * height,
            None => 4 * width * height > usize::MAX,
        },
{
    proof {
        assert(0 <= width * height <= 4 * width * height && (width * height) * 4 == 4 * width
            * height) by (nonlinear_arith);
    }
    match width.checked_mul(height) {
        Some(cells) => cells.checked_mul(4),
        None => None,
    }
}

/// The picture shows every column from `0` to the one past `span`, and every
/// level below `rise`.
pub proof fn lemma_grid_holds_extent(span: int, rise: int, col: int, level: int)
    requires
        0 <= col <= span + 1,
        0 <= level < rise,
    ensures
        0 <= col < grid_for(span, rise).0,
        0 <= grid_for(span, rise).1 - 1 - level < grid_for(span, rise).1,
{
}

/// The picture is as large as the distances it was made for: its width
/// exceeds the horizontal distance, and its height is not below the vertical
/// extent nor below the absolute value of the vertical distance.
pub proof fn lemma_grid_exceeds_distances(dist_h: u64, dist_v: u64, extent: u64)
    requires
        finite(dist_h),
        finite(dist_v),
        finite(extent),
    ensures
        grid_for(ceiling_of(dist_h), rise_of(dist_v, extent)).0 * unit() > scaled(dist_h),
        grid_for(ceiling_of(dist_h), rise_of(dist_v, extent)).1 * unit() >= scaled(extent),
        grid_for(ceiling_of(dist_h), rise_of(dist_v, extent)).1 * unit() >= weight_of(dist_v),
{
    let apart = magnitude_of(dist_v) as u64;
    assert(weight_of(apart) == weight_of(dist_v));
    lemma_ceiling_is_least(dist_h);
    lemma_ceiling_is_least(extent);
    lemma_ceiling_is_least(apart);
    lemma_unit_positive();
    let w = ceiling_of(dist_h);
    let h = rise_of(dist_v, extent);
    assert((w + 2) * unit() == w * unit() + 2 * unit()) by (nonlinear_arith);
    assert(h * unit() >= ceiling_of(extent) * unit() && h * unit() >= ceiling_of(apart) * unit())
        by (nonlinear_arith)
        requires
            h >= ceiling_of(extent),
            h >= ceiling_of(apart),
            unit() > 0,
    ;
}

/// Sizing is repeatable: whatever [`bounds_of`] returns for the same three
/// distances is the same, and so is whatever [`bounds_for`] returns for the
/// same extents.
pub proof fn lemma_sizing_is_repeatable(
    dist_h: u64,
    dist_v: u64,
    extent: u64,
    first: Result<(usize, usize), CatenaryError>,
    second: Result<(usize, usize), CatenaryError>,
)
    requires
        sized_of(dist_h, dist_v, extent, first),
        sized_of(dist_h, dist_v, extent, second),
    ensures
        first == second,
{
}

/// In a grid of `width` columns and `height` rows, the row-major number of
/// the cell in column `col` of row `row` is a number of the grid, its four
/// bytes lie in the grid's texture, and column and row are recovered from it
/// by remainder and quotient.
pub proof fn lemma_cell_on_grid(width: int, height: int, col: int, row: int)
    requires
        0 <= col < width,
        0 <= row < height,
    ensures
        0 <= row * width + col < width * height,
        0 <= row * width,
        4 * (row * width + col) + 4 <= 4 * width * height,
        (row * width + col) / width == row,
        (row * width + col) % width == col,
{
    assert(0 <= row * width && (row + 1) * width <= height * width && (row + 1) * width == row
        * width + width && height * width == width * height && 4 * width * height == 4 * (width
        * height)) by (nonlinear_arith)
        requires
            0 <= row < height,
            0 < width,
    ;
    vstd::arithmetic::div_mod::lemma_fundamental_div_mod_converse(
        row * width + col,
        width,
        row,
        col,
    );
}

/// Every cell number of a grid names a column and a row of the grid.
pub proof fn lemma_cell_has_place(width: int, height: int, cell: int)
    requires
        0 <= width,
        0 <= height,
        0 <= cell < width * height,
    ensures
        0 <= cell % width < width,
        0 <= cell / width < height,
        (cell / width) * width + cell % width == cell,
{
    assert(0 < width) by (nonlinear_arith)
        requires
            0 <= width,
            0 <= cell < width * height,
    ;
    vstd::arithmetic::div_mod::lemma_fundamental_div_mod(cell, width);
    vstd::arithmetic::div_mod::lemma_mod_pos_bound(cell, width);
    let col = cell % width;
    let row = cell / width;
    assert(0 <= row < height && row * width == width * row) by (nonlinear_arith)
        requires
            0 <= cell < width * height,
            cell == width * row + col,
            0 <= col < width,
    ;
}

} // verus!
