//! Drawing pixels into an RGBA byte buffer.

use crate::catenary::Catenary;
use crate::error::CatenaryError;
use crate::grid::lemma_cell_has_place;
use crate::grid::lemma_cell_on_grid;
use crate::grid::texture_len;
use crate::samples::lemma_pixels_members;
use crate::samples::marks_fit;
use crate::samples::Samples;
use vstd::prelude::*;

verus! {

/// Value of every channel of an opaque white pixel.
pub const FULL: u8 = 255;

/// `bytes` with the four channels of pixel number `cell` replaced.
pub open spec fn with_pixel(bytes: Seq<u8>, cell: int, r: u8, g: u8, b: u8, a: u8) -> Seq<u8> {
    bytes.update(4 * cell, r).update(4 * cell + 1, g).update(4 * cell + 2, b).update(
        4 * cell + 3,
        a,
    )
}

/// Number, in row-major order from the top left, of the pixel that `mark`
/// names in a grid of `width` columns.
pub open spec fn cell_of(width: int, mark: (usize, usize)) -> int {
    mark.1 * width + mark.0
}

/// The pixel numbers of a list of marks.
pub open spec fn cells_of(width: int, marks: Seq<(usize, usize)>) -> Seq<int> {
    marks.map_values(|mark: (usize, usize)| cell_of(width, mark))
}

/// The buffer holds one RGBA pixel per cell of the grid and every mark lies
/// on the grid.
pub open spec fn paintable(len: nat, width: int, height: int, marks: Seq<(usize, usize)>) -> bool {
    len == 4 * width * height && marks_fit(width, height, marks)
}

/// The texture `before` after `marks` were drawn on it: all four channels of
/// a marked pixel are [`FULL`], every other byte is as it was. Neither the
/// order of the marks nor a repeated mark matters.
pub open spec fn painted(before: Seq<u8>, width: int, marks: Seq<(usize, usize)>) -> Seq<u8> {
    Seq::new(
        before.len(),
        |j: int|
            if cells_of(width, marks).contains(j / 4) {
                FULL
            } else {
                before[j]
            },
    )
}

impl Samples {
    /// The texture `before` after the picture was drawn on it. Byte `j`
    /// belongs to the pixel in column `(j / 4) % width` of row
    /// `(j / 4) / width`; the bytes of a lit pixel are [`FULL`], every other
    /// byte is as it was.
    pub open spec fn texture(self, before: Seq<u8>, flipped: bool) -> Seq<u8> {
        Seq::new(
            before.len(),
            |j: int|
                if self.lit((j / 4) % (self.width as int), (j / 4) / (self.width as int), flipped) {
                    FULL
                } else {
                    before[j]
                },
        )
    }

    /// A texture of the grid's size in which every byte is zero.
    pub open spec fn blank(self) -> Seq<u8> {
        Seq::new(4 * self.width * self.height, |j: int| 0u8)
    }
}

/// Writes one pixel into a byte buffer through `rgb`'s view of the buffer as
/// RGBA pixels, `AsPixels::as_pixels_mut`.
///
/// Trusted, not proved: the view groups the bytes four by four, in the order
/// red, green, blue, alpha, and leaves out what remains after the last whole
/// group. Storing the pixel number `cell` therefore replaces bytes `4 * cell`
/// to `4 * cell + 3` by the four channels and changes nothing else; the
/// precondition keeps `cell` within the view.
#[verifier::external_body]
fn put_pixel(buf: &mut Vec<u8>, cell: usize, r: u8, g: u8, b: u8, a: u8)
    requires
        4 * cell + 4 <= old(buf).len(),
    ensures
        final(buf)@ == with_pixel(old(buf)@, cell as int, r, g, b, a),
{
    let pixels: &mut [rgb::RGBA8] = rgb::AsPixels::as_pixels_mut(buf.as_mut_slice());
    pixels[cell] = rgb::RGBA8 { r, g, b, a };
}

/// Whether every mark lies on a grid of `bounds.0` columns and `bounds.1` rows.
fn all_marks_fit(bounds: (usize, usize), pixels: &Vec<(usize, usize)>) -> (fit: bool)
    ensures
        fit == marks_fit(bounds.0 as int, bounds.1 as int, pixels@),
{
    let mut k: usize = 0;
    while k < pixels.len()
        invariant
            k <= pixels.len(),
            marks_fit(bounds.0 as int, bounds.1 as int, pixels@.take(k as int)),
        decreases pixels.len() - k,
    {
        let mark = pixels[k];
        if mark.0 >= bounds.0 || mark.1 >= bounds.1 {
            return false;
        }
        proof {
            let next = pixels@.take(k + 1);
            assert forall|i: int| 0 <= i < next.len() implies (#[trigger] next[i]).0 < bounds.0
                && next[i].1 < bounds.1 by {
                if i < k {
                    assert(next[i] == pixels@.take(k as int)[i]);
                }
            }
        }
        k += 1;
    }
    proof {
        assert(pixels@.take(k as int) =~= pixels@);
    }
    true
}

/// Draws `pixels` as opaque white on the RGBA texture `buf` of a grid of
/// `bounds.0` columns and `bounds.1` rows, rows from the top. Bytes of
/// unmarked pixels keep their values.
///
/// Nothing is drawn, and `InvalidInput` returned, when the buffer does not
/// have four bytes for each cell of the grid or a pixel lies off the grid.
pub fn paint(buf: &mut Vec<u8>, bounds: (usize, usize), pixels: &Vec<(usize, usize)>) -> (done:
    Result<(), CatenaryError>)
    ensures
        match done {
            Ok(()) => paintable(old(buf)@.len(), bounds.0 as int, bounds.1 as int, pixels@)
                && final(buf)@ == painted(old(buf)@, bounds.0 as int, pixels@),
            Err(e) => e == CatenaryError::InvalidInput && !paintable(
                old(buf)@.len(),
                bounds.0 as int,
                bounds.1 as int,
                pixels@,
            ) && final(buf)@ == old(buf)@,
        },
{
    let (w, h) = bounds;
    let len = buf.len();
    let same_len = match texture_len(w, h) {
        Some(bytes) => bytes == len,
        None => false,
    };
    if !same_len {
        return Err(CatenaryError::InvalidInput);
    }
    if !all_marks_fit(bounds, pixels) {
        return Err(CatenaryError::InvalidInput);
    }
    let ghost before = buf@;
    proof {
        assert(cells_of(w as int, pixels@.take(0)) =~= Seq::empty());
        assert(buf@ =~= painted(before, w as int, pixels@.take(0)));
    }
    let mut k: usize = 0;
    while k < pixels.len()
        invariant
            k <= pixels.len(),
            before.len() == 4 * w * h,
            before.len() <= usize::MAX,
            marks_fit(w as int, h as int, pixels@),
            buf@.len() == before.len(),
            buf@ == painted(before, w as int, pixels@.take(k as int)),
        decreases pixels.len() - k,
    {
        let mark = pixels[k];
        proof {
            assert(mark == pixels@[k as int]);
            lemma_cell_on_grid(w as int, h as int, mark.0 as int, mark.1 as int);
        }
        let cell = mark.1 * w + mark.0;
        put_pixel(buf, cell, FULL, FULL, FULL, FULL);
        proof {
            let sooner = cells_of(w as int, pixels@.take(k as int));
            let later = cells_of(w as int, pixels@.take(k + 1));
            assert(pixels@.take(k + 1) =~= pixels@.take(k as int).push(mark));
            assert(later =~= sooner.push(cell as int));
            assert forall|j: int| 0 <= j < before.len() implies #[trigger] buf@[j] == painted(
                before,
                w as int,
                pixels@.take(k + 1),
            )[j] by {
                vstd::seq_lib::lemma_seq_contains_after_push(sooner, cell as int, j / 4);
            }
            assert(buf@ =~= painted(before, w as int, pixels@.take(k + 1)));
        }
        k += 1;
    }
    proof {
        assert(pixels@.take(k as int) =~= pixels@);
    }
    Ok(())
}

impl Catenary {
    /// Draws the picture as opaque white on the caller's RGBA texture, rows
    /// from the top, mirrored left to right when `mirror_horizontal` is set.
    /// Bytes of pixels off the curve keep their values.
    ///
    /// Nothing is drawn, and `InvalidInput` returned, when the buffer does not
    /// have four bytes for each cell of the grid.
    pub fn rasterize_into(&self, buf: &mut Vec<u8>, mirror_horizontal: bool) -> (done: Result<
        (),
        CatenaryError,
    >)
        ensures
            match done {
                Ok(()) => old(buf)@.len() == 4 * self@.width * self@.height && final(buf)@
                    == self@.texture(old(buf)@, mirror_horizontal),
                Err(e) => e == CatenaryError::InvalidInput && old(buf)@.len() != 4 * self@.width
                    * self@.height && final(buf)@ == old(buf)@,
            },
    {
        let bounds = self.bounds();
        let pixels = self.rasterize(mirror_horizontal);
        proof {
            if buf@.len() == 4 * self@.width * self@.height {
                lemma_painted_pixels_are_texture(self@, buf@, mirror_horizontal);
            }
        }
        paint(buf, bounds, &pixels)
    }

    /// A fresh RGBA texture of the grid's size, rows from the top: opaque white
    /// on the curve and zero everywhere else, mirrored left to right when
    /// `flipped_x` is set.
    pub fn render_new_tex(&self, flipped_x: bool) -> (tex: Vec<u8>)
        ensures
            tex@ == self@.texture(self@.blank(), flipped_x),
    {
        let (w, h) = self.bounds();
        proof {
            assert(w * h * 4 == 4 * w * h && 0 <= w * h <= 4 * w * h) by (nonlinear_arith);
        }
        let mut tex: Vec<u8> = vec![0u8; w * h * 4];
        proof {
            assert(tex@ =~= self@.blank());
        }
        let _ = self.rasterize_into(&mut tex, flipped_x);
        tex
    }
}

/// Drawing the pixels of the picture one by one gives the texture that
/// [`Samples::texture`] describes byte by byte.
pub proof fn lemma_painted_pixels_are_texture(curve: Samples, before: Seq<u8>, flipped: bool)
    requires
        curve.well_formed(),
        before.len() == 4 * curve.width * curve.height,
    ensures
        painted(before, curve.width as int, curve.pixels(flipped)) == curve.texture(
            before,
            flipped,
        ),
{
    let w = curve.width as int;
    let h = curve.height as int;
    let marks = curve.pixels(flipped);
    let cells = cells_of(w, marks);
    lemma_pixels_members(curve, flipped);
    let drawn_one_by_one = painted(before, w, marks);
    let described = curve.texture(before, flipped);
    assert forall|j: int| 0 <= j < before.len() implies #[trigger] drawn_one_by_one[j]
        == described[j] by {
        let cell = j / 4;
        assert(0 <= cell < w * h) by (nonlinear_arith)
            requires
                0 <= j < 4 * w * h,
                cell == j / 4,
        ;
        lemma_cell_has_place(w, h, cell);
        let col = cell % w;
        let row = cell / w;
        if cells.contains(cell) {
            let k = choose|k: int| 0 <= k < cells.len() && cells[k] == cell;
            let mark = marks[k];
            assert(marks.contains((mark.0, mark.1)));
            lemma_cell_on_grid(w, h, mark.0 as int, mark.1 as int);
            assert(curve.lit(col, row, flipped));
        }
        if curve.lit(col, row, flipped) {
            let mark = (col as usize, row as usize);
            assert(marks.contains(mark));
            let k = choose|k: int| 0 <= k < marks.len() && marks[k] == mark;
            assert(cells[k] == cell_of(w, mark));
        }
    }
    assert(drawn_one_by_one =~= described);
}

} // verus!
