//! The sampled curve and its rasterization by columns and by rows.

use crate::error::CatenaryError;
use crate::grid::texture_len;
use crate::rounding::pixel_of;
use crate::rounding::to_pixel;
use crate::samples::lemma_column_scan_members;
use crate::samples::lemma_pixels_members;
use crate::samples::lemma_raster_fits;
use crate::samples::lemma_raster_members;
use crate::samples::lemma_row_scan_members;
use crate::samples::marks_fit;
use crate::samples::mirror_mark;
use crate::samples::mirrored;
use crate::samples::Samples;
use vstd::prelude::*;

verus! {

/// A catenary placed on a pixel grid and sampled at whole pixels, ready to be
/// rasterized.
pub struct Catenary {
    bounds: (usize, usize),
    heights: Vec<i64>,
    crossings: Vec<Option<(i64, i64)>>,
}

impl View for Catenary {
    type V = Samples;

    closed spec fn view(&self) -> Samples {
        Samples {
            width: self.bounds.0 as nat,
            height: self.bounds.1 as nat,
            heights: self.heights@,
            crossings: self.crossings@,
        }
    }
}

/// The samples that [`Catenary::new`] is handed.
pub open spec fn samples_of(
    bounds: (usize, usize),
    heights: Seq<i64>,
    crossings: Seq<Option<(i64, i64)>>,
) -> Samples {
    Samples { width: bounds.0 as nat, height: bounds.1 as nat, heights, crossings }
}

/// The whole pixels that a list of samples, given by their encodings, fall on.
pub open spec fn pixels_of(samples: Seq<u64>) -> Seq<i64> {
    samples.map_values(|bits: u64| pixel_of(bits))
}

/// The whole columns that the two branches of one crossing fall on.
pub open spec fn crossing_of(sample: Option<(u64, u64)>) -> Option<(i64, i64)> {
    match sample {
        Some(pair) => Some((pixel_of(pair.0), pixel_of(pair.1))),
        None => None,
    }
}

/// The whole columns that a list of crossings fall on.
pub open spec fn crossings_of(samples: Seq<Option<(u64, u64)>>) -> Seq<Option<(i64, i64)>> {
    samples.map_values(|sample: Option<(u64, u64)>| crossing_of(sample))
}

/// What a constructor owes for `samples`: a curve with exactly these samples
/// where they are well formed, else `InvalidInput`.
pub open spec fn made_of(samples: Samples, made: Result<Catenary, CatenaryError>) -> bool {
    match made {
        Ok(cat) => cat@ == samples && samples.well_formed(),
        Err(e) => e == CatenaryError::InvalidInput && !samples.well_formed(),
    }
}

impl Catenary {
    #[verifier::type_invariant]
    spec fn inv(&self) -> bool {
        self@.well_formed()
    }

    /// Takes over the samples of a placed curve.
    ///
    /// `bounds` is the grid's (width, height). `heights[c]` is the curve's level
    /// above column `c`; `crossings[k]` holds the columns at which the curve
    /// reaches level `k`, or `None` where it does not reach it. The samples are
    /// accepted exactly when they fit the grid, see [`Samples::well_formed`];
    /// otherwise they are `InvalidInput`.
    pub fn new(
        bounds: (usize, usize),
        heights: Vec<i64>,
        crossings: Vec<Option<(i64, i64)>>,
    ) -> (made: Result<Catenary, CatenaryError>)
        ensures
            made_of(samples_of(bounds, heights@, crossings@), made),
    {
        if heights.len() != bounds.0 || crossings.len() != bounds.1 {
            return Err(CatenaryError::InvalidInput);
        }
        if texture_len(bounds.0, bounds.1).is_none() {
            return Err(CatenaryError::InvalidInput);
        }
        Ok(Catenary { bounds, heights, crossings })
    }

    /// Rounds the samples of a placed curve to whole pixels and takes them
    /// over as [`Catenary::new`] does.
    ///
    /// The samples are doubles given by their encodings: `heights[c]` is the
    /// height of the curve above the bottom of the picture at column `c`, and
    /// `crossings[k]` holds the abscissas, counted from the left edge, at which
    /// the two branches reach level `k`. Each goes to the nearest whole pixel;
    /// one that is no number falls off the grid.
    pub fn from_doubles(
        bounds: (usize, usize),
        heights: &Vec<u64>,
        crossings: &Vec<Option<(u64, u64)>>,
    ) -> (made: Result<Catenary, CatenaryError>)
        ensures
            made_of(samples_of(bounds, pixels_of(heights@), crossings_of(crossings@)), made),
    {
        let mut levels: Vec<i64> = Vec::new();
        let mut i: usize = 0;
        while i < heights.len()
            invariant
                i <= heights.len(),
                levels@ == pixels_of(heights@.take(i as int)),
            decreases heights.len() - i,
        {
            proof {
                assert(heights@.take(i + 1) =~= heights@.take(i as int).push(heights@[i as int]));
                assert(pixels_of(heights@.take(i + 1)) =~= pixels_of(heights@.take(i as int)).push(
                    pixel_of(heights@[i as int]),
                ));
            }
            levels.push(to_pixel(heights[i]));
            i += 1;
        }
        let mut columns: Vec<Option<(i64, i64)>> = Vec::new();
        let mut k: usize = 0;
        while k < crossings.len()
            invariant
                k <= crossings.len(),
                columns@ == crossings_of(crossings@.take(k as int)),
            decreases crossings.len() - k,
        {
            proof {
                assert(crossings@.take(k + 1) =~= crossings@.take(k as int).push(
                    crossings@[k as int],
                ));
                assert(crossings_of(crossings@.take(k + 1)) =~= crossings_of(
                    crossings@.take(k as int),
                ).push(crossing_of(crossings@[k as int])));
            }
            let rounded = match crossings[k] {
                Some(pair) => Some((to_pixel(pair.0), to_pixel(pair.1))),
                None => None,
            };
            columns.push(rounded);
            k += 1;
        }
        proof {
            assert(heights@.take(i as int) =~= heights@);
            assert(crossings@.take(k as int) =~= crossings@);
        }
        Catenary::new(bounds, levels, columns)
    }

    /// The grid's (width, height).
    pub fn bounds(&self) -> (bounds: (usize, usize))
        ensures
            bounds.0 == self@.width,
            bounds.1 == self@.height,
            self@.well_formed(),
    {
        proof {
            use_type_invariant(self);
        }
        self.bounds
    }

    /// Whether pixel (`col`, `row`) belongs to the rasterized curve.
    pub fn marks(&self, col: usize, row: usize) -> (hit: bool)
        ensures
            hit == self@.on_curve(col as int, row as int),
    {
        proof {
            use_type_invariant(self);
        }
        let (w, h) = self.bounds;
        if col >= w || row >= h {
            return false;
        }
        let level = h - 1 - row;
        let above = self.heights[col];
        if 0 <= above && (above as u64) == (level as u64) {
            return true;
        }
        match self.crossings[level] {
            Some(pair) => (0 <= pair.0 && (pair.0 as u64) == (col as u64)) || (0 <= pair.1 && (
            pair.1 as u64) == (col as u64)),
            None => false,
        }
    }

    /// Column-driven scan: one pixel for every column above which the curve
    /// lies inside the grid, from left to right.
    pub fn render_catenary_x(&self) -> (pixels: Vec<(usize, usize)>)
        ensures
            pixels@ == self@.column_scan(),
            forall|col: usize, row: usize| #[trigger]
                pixels@.contains((col, row)) <==> self@.on_column_scan(col as int, row as int),
    {
        proof {
            use_type_invariant(self);
        }
        let (w, h) = self.bounds;
        let mut pixels: Vec<(usize, usize)> = Vec::new();
        let mut col: usize = 0;
        while col < w
            invariant
                self@.well_formed(),
                w == self@.width,
                h == self@.height,
                self.heights@ == self@.heights,
                col <= w,
                pixels@ == self@.column_marks_upto(col as nat).flatten(),
            decreases w - col,
        {
            let level = self.heights[col];
            proof {
                let before = self@.column_marks_upto(col as nat);
                let after = self@.column_marks_upto((col + 1) as nat);
                assert(after =~= before.push(self@.column_marks(col as int)));
                before.lemma_flatten_push(self@.column_marks(col as int));
            }
            if 0 <= level && (level as u64) < (h as u64) {
                let row = h - 1 - (level as usize);
                pixels.push((col, row));
            }
            col += 1;
        }
        proof {
            lemma_column_scan_members(self@);
        }
        pixels
    }

    /// Row-driven scan: for every screen row, from the top, the crossings of
    /// its level that fall on a column of the grid.
    pub fn render_catenary_y(&self) -> (pixels: Vec<(usize, usize)>)
        ensures
            pixels@ == self@.row_scan(),
            forall|col: usize, row: usize| #[trigger]
                pixels@.contains((col, row)) <==> self@.on_row_scan(col as int, row as int),
    {
        proof {
            use_type_invariant(self);
        }
        let (w, h) = self.bounds;
        let mut pixels: Vec<(usize, usize)> = Vec::new();
        let mut row: usize = 0;
        while row < h
            invariant
                self@.well_formed(),
                w == self@.width,
                h == self@.height,
                self.crossings@ == self@.crossings,
                row <= h,
                pixels@ == self@.row_marks_upto(row as nat).flatten(),
            decreases h - row,
        {
            let ghost so_far = pixels@;
            match self.crossings[h - 1 - row] {
                Some(pair) => {
                    if 0 <= pair.0 && (pair.0 as u64) < (w as u64) {
                        pixels.push((pair.0 as usize, row));
                    }
                    if 0 <= pair.1 && (pair.1 as u64) < (w as u64) {
                        pixels.push((pair.1 as usize, row));
                    }
                },
                None => {},
            }
            proof {
                let marks = self@.row_marks(row as int);
                let before = self@.row_marks_upto(row as nat);
                let after = self@.row_marks_upto((row + 1) as nat);
                assert(pixels@ =~= so_far + marks);
                assert(after =~= before.push(marks));
                before.lemma_flatten_push(marks);
            }
            row += 1;
        }
        proof {
            lemma_row_scan_members(self@);
        }
        pixels
    }

    /// The rasterized curve: the pixels of the column-driven scan, then those
    /// of the row-driven scan. A pixel that both scans mark occurs twice.
    pub fn render_catenary(&self) -> (pixels: Vec<(usize, usize)>)
        ensures
            pixels@ == self@.raster(),
            marks_fit(self@.width as int, self@.height as int, pixels@),
            forall|col: usize, row: usize| #[trigger]
                pixels@.contains((col, row)) <==> self@.on_curve(col as int, row as int),
    {
        proof {
            use_type_invariant(self);
        }
        let mut pixels = self.render_catenary_x();
        let mut by_rows = self.render_catenary_y();
        pixels.append(&mut by_rows);
        proof {
            assert(pixels@ == self@.raster());
            lemma_raster_members(self@);
            lemma_raster_fits(self@);
        }
        pixels
    }

    /// The pixels of the picture, as (column, row) from the top left: those of
    /// [`Catenary::render_catenary`], each moved to the mirror image of its
    /// column when `mirror_horizontal` is set.
    pub fn rasterize(&self, mirror_horizontal: bool) -> (pixels: Vec<(usize, usize)>)
        ensures
            pixels@ == self@.pixels(mirror_horizontal),
            marks_fit(self@.width as int, self@.height as int, pixels@),
            forall|col: usize, row: usize| #[trigger]
                pixels@.contains((col, row)) <==> self@.lit(
                    col as int,
                    row as int,
                    mirror_horizontal,
                ),
    {
        proof {
            use_type_invariant(self);
            lemma_pixels_members(self@, mirror_horizontal);
        }
        let plain = self.render_catenary();
        if !mirror_horizontal {
            return plain;
        }
        let w = self.bounds.0;
        let mut pixels: Vec<(usize, usize)> = Vec::new();
        let mut k: usize = 0;
        while k < plain.len()
            invariant
                k <= plain.len(),
                marks_fit(w as int, self@.height as int, plain@),
                pixels@ == mirrored(w as int, plain@.take(k as int)),
            decreases plain.len() - k,
        {
            let mark = plain[k];
            proof {
                assert(mark == plain@[k as int]);
                assert(plain@.take(k + 1) =~= plain@.take(k as int).push(mark));
                assert(mirrored(w as int, plain@.take(k + 1)) =~= mirrored(
                    w as int,
                    plain@.take(k as int),
                ).push(mirror_mark(w as int, mark)));
            }
            pixels.push((w - 1 - mark.0, mark.1));
            k += 1;
        }
        proof {
            assert(plain@.take(k as int) =~= plain@);
        }
        pixels
    }
}

} // verus!
