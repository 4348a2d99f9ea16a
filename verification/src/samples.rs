//! The mathematical model of a sampled curve and of its rasterization.

use vstd::prelude::*;

verus! {

/// A catenary sampled on a pixel grid: the mathematical model of
/// [`Catenary`](crate::catenary::Catenary).
///
/// Columns count from the left and screen rows from the top. Levels count
/// whole pixels upwards from the bottom row, so level `k` is shown on screen
/// row `height - 1 - k`.
pub struct Samples {
    /// Number of pixel columns.
    pub width: nat,
    /// Number of pixel rows.
    pub height: nat,
    /// For each column, the level of the curve above that column.
    pub heights: Seq<i64>,
    /// For each level, the two columns at which the curve reaches that level
    /// (right branch, then left branch), or `None` where the level lies below
    /// the curve's lowest point.
    pub crossings: Seq<Option<(i64, i64)>>,
}

/// Every mark lies on a grid of `width` columns and `height` rows.
pub open spec fn marks_fit(width: int, height: int, marks: Seq<(usize, usize)>) -> bool {
    forall|k: int| 0 <= k < marks.len() ==> (#[trigger] marks[k]).0 < width && marks[k].1 < height
}

/// The mark in the same row whose column is the mirror image of `mark`'s in a
/// grid of `width` columns.
pub open spec fn mirror_mark(width: int, mark: (usize, usize)) -> (usize, usize) {
    ((width - 1 - mark.0) as usize, mark.1)
}

/// The marks with every column replaced by its mirror image, in the same order.
pub open spec fn mirrored(width: int, marks: Seq<(usize, usize)>) -> Seq<(usize, usize)> {
    marks.map_values(|mark: (usize, usize)| mirror_mark(width, mark))
}

impl Samples {
    /// There is one height per column and one crossing per level, and the
    /// grid's RGBA texture can be addressed with a `usize`.
    pub open spec fn well_formed(self) -> bool {
        &&& self.heights.len() == self.width
        &&& self.crossings.len() == self.height
        &&& 4 * self.width * self.height <= usize::MAX
    }

    /// The level that screen row `row` shows.
    pub open spec fn level(self, row: int) -> int {
        self.height - 1 - row
    }

    /// The column-driven scan marks pixel (`col`, `row`): the curve's level
    /// above the column is the level of the row.
    pub open spec fn on_column_scan(self, col: int, row: int) -> bool {
        &&& 0 <= col < self.width
        &&& 0 <= row < self.height
        &&& self.heights[col] == self.level(row)
    }

    /// The row-driven scan marks pixel (`col`, `row`): one of the two
    /// branches reaches the row's level in that column.
    pub open spec fn on_row_scan(self, col: int, row: int) -> bool {
        &&& 0 <= col < self.width
        &&& 0 <= row < self.height
        &&& self.crossings[self.level(row)] matches Some(pair)
        &&& (col == pair.0 || col == pair.1)
    }

    /// Pixel (`col`, `row`) belongs to the rasterized curve: one of the two
    /// scans marks it.
    pub open spec fn on_curve(self, col: int, row: int) -> bool {
        self.on_column_scan(col, row) || self.on_row_scan(col, row)
    }

    /// Pixel (`col`, `row`) of the picture is lit: it shows a pixel of the
    /// curve, seen in the mirror when the picture is flipped.
    pub open spec fn lit(self, col: int, row: int, flipped: bool) -> bool {
        self.on_curve(
            if flipped {
                self.width - 1 - col
            } else {
                col
            },
            row,
        )
    }

    /// What the column-driven scan marks in column `col`: the pixel at the
    /// curve's level there, unless that level lies outside the grid.
    pub open spec fn column_marks(self, col: int) -> Seq<(usize, usize)> {
        if 0 <= self.heights[col] < self.height {
            seq![(col as usize, (self.height - 1 - self.heights[col]) as usize)]
        } else {
            seq![]
        }
    }

    /// The marks of the first `n` columns, column by column.
    pub open spec fn column_marks_upto(self, n: nat) -> Seq<Seq<(usize, usize)>> {
        Seq::new(n, |col: int| self.column_marks(col))
    }

    /// The pixels of the column-driven scan, from the leftmost column on.
    pub open spec fn column_scan(self) -> Seq<(usize, usize)> {
        self.column_marks_upto(self.width).flatten()
    }

    /// The pixel (`col`, `row`) if `col` is a column of the grid, else nothing.
    pub open spec fn cell_if_inside(self, col: int, row: int) -> Seq<(usize, usize)> {
        if 0 <= col < self.width {
            seq![(col as usize, row as usize)]
        } else {
            seq![]
        }
    }

    /// What the row-driven scan marks in screen row `row`: the two crossings
    /// of the level shown there, each only if it falls on a column of the grid.
    pub open spec fn row_marks(self, row: int) -> Seq<(usize, usize)> {
        match self.crossings[self.level(row)] {
            Some(pair) => self.cell_if_inside(pair.0 as int, row) + self.cell_if_inside(
                pair.1 as int,
                row,
            ),
            None => seq![],
        }
    }

    /// The marks of the first `n` screen rows, row by row.
    pub open spec fn row_marks_upto(self, n: nat) -> Seq<Seq<(usize, usize)>> {
        Seq::new(n, |row: int| self.row_marks(row))
    }

    /// The pixels of the row-driven scan, from the top row on.
    pub open spec fn row_scan(self) -> Seq<(usize, usize)> {
        self.row_marks_upto(self.height).flatten()
    }

    /// The pixels of the curve: those of the column-driven scan followed by
    /// those of the row-driven scan.
    pub open spec fn raster(self) -> Seq<(usize, usize)> {
        self.column_scan() + self.row_scan()
    }

    /// The pixels of the picture: those of the curve, mirrored left to right
    /// when the picture is flipped.
    pub open spec fn pixels(self, flipped: bool) -> Seq<(usize, usize)> {
        if flipped {
            mirrored(self.width as int, self.raster())
        } else {
            self.raster()
        }
    }
}

/// An element lies in a concatenation exactly when it lies in one of the parts.
pub proof fn lemma_contains_in_sum<A>(left: Seq<A>, right: Seq<A>, x: A)
    ensures
        (left + right).contains(x) <==> left.contains(x) || right.contains(x),
{
    let both = left + right;
    if both.contains(x) {
        let i = choose|i: int| 0 <= i < both.len() && both[i] == x;
        if i < left.len() {
            assert(left[i] == x);
        } else {
            assert(right[i - left.len()] == x);
        }
    }
    if left.contains(x) {
        let i = choose|i: int| 0 <= i < left.len() && left[i] == x;
        assert(both[i] == x);
    }
    if right.contains(x) {
        let i = choose|i: int| 0 <= i < right.len() && right[i] == x;
        assert(both[left.len() + i] == x);
    }
}

/// In a well-formed grid with at least one cell, both sides fit a `usize`.
pub proof fn lemma_sides_fit(curve: Samples)
    requires
        curve.well_formed(),
        curve.width > 0,
        curve.height > 0,
    ensures
        curve.width <= usize::MAX,
        curve.height <= usize::MAX,
{
    assert(curve.width <= 4 * curve.width * curve.height && curve.height <= 4 * curve.width
        * curve.height) by (nonlinear_arith)
        requires
            curve.width > 0,
            curve.height > 0,
    ;
}

/// Membership in the column-driven scan: it holds exactly the pixels that
/// [`Samples::on_column_scan`] describes.
pub proof fn lemma_column_scan_members(curve: Samples)
    requires
        curve.well_formed(),
    ensures
        forall|col: usize, row: usize|
            #[trigger] curve.column_scan().contains((col, row)) <==> curve.on_column_scan(
                col as int,
                row as int,
            ),
{
    lemma_column_prefix_members(curve, curve.width);
}

proof fn lemma_column_prefix_members(curve: Samples, n: nat)
    requires
        curve.well_formed(),
        n <= curve.width,
    ensures
        forall|col: usize, row: usize|
            #[trigger] curve.column_marks_upto(n).flatten().contains((col, row)) <==> (col < n
                && curve.on_column_scan(col as int, row as int)),
    decreases n,
{
    let whole = curve.column_marks_upto(n).flatten();
    if n == 0 {
        assert(curve.column_marks_upto(n) =~= Seq::empty());
        assert(whole =~= Seq::empty());
    } else {
        let last = (n - 1) as nat;
        let before = curve.column_marks_upto(last);
        let marks = curve.column_marks(last as int);
        lemma_column_prefix_members(curve, last);
        assert(curve.column_marks_upto(n) =~= before.push(marks));
        before.lemma_flatten_push(marks);
        if curve.height > 0 {
            lemma_sides_fit(curve);
        }
        assert forall|col: usize, row: usize|
            #[trigger] whole.contains((col, row)) <==> (col < n && curve.on_column_scan(
                col as int,
                row as int,
            )) by {
            let p = (col, row);
            lemma_contains_in_sum(before.flatten(), marks, p);
            if marks.contains(p) {
                let i = choose|i: int| 0 <= i < marks.len() && marks[i] == p;
                assert(marks[0] == p);
            }
            if col == last && curve.on_column_scan(col as int, row as int) {
                assert(marks[0] == p);
            }
        }
    }
}

/// Membership in the row-driven scan: it holds exactly the pixels that
/// [`Samples::on_row_scan`] describes.
pub proof fn lemma_row_scan_members(curve: Samples)
    requires
        curve.well_formed(),
    ensures
        forall|col: usize, row: usize|
            #[trigger] curve.row_scan().contains((col, row)) <==> curve.on_row_scan(
                col as int,
                row as int,
            ),
{
    lemma_row_prefix_members(curve, curve.height);
}

proof fn lemma_row_prefix_members(curve: Samples, n: nat)
    requires
        curve.well_formed(),
        n <= curve.height,
    ensures
        forall|col: usize, row: usize|
            #[trigger] curve.row_marks_upto(n).flatten().contains((col, row)) <==> (row < n
                && curve.on_row_scan(col as int, row as int)),
    decreases n,
{
    let whole = curve.row_marks_upto(n).flatten();
    if n == 0 {
        assert(curve.row_marks_upto(n) =~= Seq::empty());
        assert(whole =~= Seq::empty());
    } else {
        let last = (n - 1) as nat;
        let before = curve.row_marks_upto(last);
        let marks = curve.row_marks(last as int);
        lemma_row_prefix_members(curve, last);
        assert(curve.row_marks_upto(n) =~= before.push(marks));
        before.lemma_flatten_push(marks);
        if curve.width > 0 {
            lemma_sides_fit(curve);
        }
        assert forall|col: usize, row: usize|
            #[trigger] whole.contains((col, row)) <==> (row < n && curve.on_row_scan(
                col as int,
                row as int,
            )) by {
            let p = (col, row);
            lemma_contains_in_sum(before.flatten(), marks, p);
            match curve.crossings[curve.level(last as int)] {
                Some(pair) => {
                    let first = curve.cell_if_inside(pair.0 as int, last as int);
                    let second = curve.cell_if_inside(pair.1 as int, last as int);
                    lemma_contains_in_sum(first, second, p);
                    if first.contains(p) {
                        let i = choose|i: int| 0 <= i < first.len() && first[i] == p;
                        assert(first[0] == p);
                    }
                    if second.contains(p) {
                        let i = choose|i: int| 0 <= i < second.len() && second[i] == p;
                        assert(second[0] == p);
                    }
                    if row == last && curve.on_row_scan(col as int, row as int) {
                        if col == pair.0 {
                            assert(first[0] == p);
                        } else {
                            assert(second[0] == p);
                        }
                    }
                },
                None => {
                    if marks.contains(p) {
                        let i = choose|i: int| 0 <= i < marks.len() && marks[i] == p;
                    }
                },
            }
        }
    }
}

/// Membership in the rasterized curve: it holds exactly the pixels that one
/// of the two scans marks.
pub proof fn lemma_raster_members(curve: Samples)
    requires
        curve.well_formed(),
    ensures
        forall|col: usize, row: usize|
            #[trigger] curve.raster().contains((col, row)) <==> curve.on_curve(
                col as int,
                row as int,
            ),
{
    lemma_column_scan_members(curve);
    lemma_row_scan_members(curve);
    assert forall|col: usize, row: usize|
        #[trigger] curve.raster().contains((col, row)) <==> curve.on_curve(
            col as int,
            row as int,
        ) by {
        lemma_contains_in_sum(curve.column_scan(), curve.row_scan(), (col, row));
    }
}

/// Every pixel of the rasterized curve lies on the grid.
pub proof fn lemma_raster_fits(curve: Samples)
    requires
        curve.well_formed(),
    ensures
        marks_fit(curve.width as int, curve.height as int, curve.raster()),
{
    lemma_raster_members(curve);
    let marks = curve.raster();
    assert forall|k: int| 0 <= k < marks.len() implies (#[trigger] marks[k]).0 < curve.width
        && marks[k].1 < curve.height by {
        assert(marks.contains((marks[k].0, marks[k].1)));
    }
}

/// Membership in the picture: it holds exactly the lit pixels, and all of
/// them lie on the grid.
pub proof fn lemma_pixels_members(curve: Samples, flipped: bool)
    requires
        curve.well_formed(),
    ensures
        marks_fit(curve.width as int, curve.height as int, curve.pixels(flipped)),
        forall|col: usize, row: usize|
            #[trigger] curve.pixels(flipped).contains((col, row)) <==> curve.lit(
                col as int,
                row as int,
                flipped,
            ),
{
    lemma_raster_members(curve);
    lemma_raster_fits(curve);
    if flipped {
        let w = curve.width as int;
        let plain = curve.raster();
        let turned = mirrored(w, plain);
        if curve.width > 0 && curve.height > 0 {
            lemma_sides_fit(curve);
        }
        assert forall|k: int| 0 <= k < turned.len() implies (#[trigger] turned[k]).0 < curve.width
            && turned[k].1 < curve.height by {
            assert(turned[k] == mirror_mark(w, plain[k]));
        }
        assert forall|col: usize, row: usize| #[trigger]
            turned.contains((col, row)) <==> curve.lit(col as int, row as int, true) by {
            if turned.contains((col, row)) {
                let k = choose|k: int| 0 <= k < turned.len() && turned[k] == (col, row);
                assert(turned[k] == mirror_mark(w, plain[k]));
                assert(plain.contains((plain[k].0, plain[k].1)));
            }
            if curve.lit(col as int, row as int, true) {
                let there = ((w - 1 - col) as usize, row);
                assert(plain.contains(there));
                let k = choose|k: int| 0 <= k < plain.len() && plain[k] == there;
                assert(turned[k] == mirror_mark(w, plain[k]));
                assert(turned[k] == (col, row));
            }
        }
    }
}

} // verus!
