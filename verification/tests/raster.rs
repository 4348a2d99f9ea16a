use catenary_gen::grid::{bounds_for, texture_len};
use catenary_gen::{Catenary, CatenaryError};

/// A shallow valley on a 5 x 3 grid: the curve touches the bottom row in the
/// middle and leaves the grid at both ends.
fn valley() -> Catenary {
    let heights = vec![3, 1, 0, 1, 3];
    let crossings = vec![Some((2, 2)), Some((3, 1)), Some((4, 0))];
    Catenary::new((5, 3), heights, crossings).unwrap()
}

#[test]
fn new_keeps_the_bounds() {
    assert_eq!(valley().bounds(), (5, 3));
}

#[test]
fn new_rejects_a_height_too_few() {
    let made = Catenary::new((3, 1), vec![0, 0], vec![None]);
    assert_eq!(made.err(), Some(CatenaryError::InvalidInput));
}

#[test]
fn new_rejects_a_height_too_many() {
    let made = Catenary::new((1, 1), vec![0, 0], vec![None]);
    assert_eq!(made.err(), Some(CatenaryError::InvalidInput));
}

#[test]
fn new_rejects_a_missing_crossing() {
    let made = Catenary::new((2, 2), vec![0, 0], vec![None]);
    assert_eq!(made.err(), Some(CatenaryError::InvalidInput));
}

#[test]
fn new_rejects_bounds_without_samples() {
    let made = Catenary::new((usize::MAX, usize::MAX), vec![], vec![]);
    assert_eq!(made.err(), Some(CatenaryError::InvalidInput));
}

#[test]
fn empty_grid_has_no_pixels() {
    let cat = Catenary::new((0, 0), vec![], vec![]).unwrap();
    assert_eq!(cat.bounds(), (0, 0));
    assert!(cat.render_catenary_x().is_empty());
    assert!(cat.render_catenary_y().is_empty());
    assert!(cat.render_catenary().is_empty());
    assert!(cat.render_new_tex(false).is_empty());
    assert!(!cat.marks(0, 0));
}

#[test]
fn grid_without_rows_has_no_pixels() {
    let cat = Catenary::new((2, 0), vec![0, 0], vec![]).unwrap();
    assert!(cat.render_catenary().is_empty());
    assert!(cat.render_new_tex(true).is_empty());
}

#[test]
fn column_scan_marks_one_row_per_column() {
    // level 0 is the bottom row, which is screen row 2
    assert_eq!(valley().render_catenary_x(), vec![(1, 1), (2, 2), (3, 1)]);
}

#[test]
fn column_scan_skips_levels_off_the_grid() {
    let cat = Catenary::new((4, 2), vec![-1, 0, 1, 2], vec![None, None]).unwrap();
    assert_eq!(cat.render_catenary_x(), vec![(1, 1), (2, 0)]);
}

#[test]
fn column_scan_skips_extreme_levels() {
    let cat = Catenary::new((2, 2), vec![i64::MIN, i64::MAX], vec![None, None]).unwrap();
    assert!(cat.render_catenary_x().is_empty());
}

#[test]
fn row_scan_goes_from_the_top_row_down() {
    assert_eq!(
        valley().render_catenary_y(),
        vec![(4, 0), (0, 0), (3, 1), (1, 1), (2, 2), (2, 2)]
    );
}

#[test]
fn row_scan_skips_columns_off_the_grid() {
    let crossings = vec![Some((1, -1)), Some((2, 0)), Some((-3, 7))];
    let cat = Catenary::new((2, 3), vec![9, 9], crossings).unwrap();
    assert_eq!(cat.render_catenary_y(), vec![(0, 1), (1, 2)]);
}

#[test]
fn row_scan_skips_levels_below_the_curve() {
    let crossings = vec![None, Some((0, 0))];
    let cat = Catenary::new((1, 2), vec![9], crossings).unwrap();
    assert_eq!(cat.render_catenary_y(), vec![(0, 0), (0, 0)]);
}

#[test]
fn row_scan_skips_extreme_columns() {
    let crossings = vec![Some((i64::MAX, i64::MIN))];
    let cat = Catenary::new((3, 1), vec![9, 9, 9], crossings).unwrap();
    assert!(cat.render_catenary_y().is_empty());
}

#[test]
fn raster_is_column_scan_then_row_scan() {
    let cat = valley();
    let mut both = cat.render_catenary_x();
    both.extend(cat.render_catenary_y());
    assert_eq!(cat.render_catenary(), both);
}

#[test]
fn rasterize_plain_is_the_raster() {
    let cat = valley();
    assert_eq!(cat.rasterize(false), cat.render_catenary());
}

#[test]
fn rasterize_mirrored_moves_every_pixel_to_the_mirror_column() {
    let cat = Catenary::new((4, 2), vec![0, 1, 7, 7], vec![Some((0, -2)), Some((1, -3))]).unwrap();
    assert_eq!(cat.rasterize(false), vec![(0, 1), (1, 0), (1, 0), (0, 1)]);
    assert_eq!(cat.rasterize(true), vec![(3, 1), (2, 0), (2, 0), (3, 1)]);
}

#[test]
fn rasterize_mirrored_keeps_rows_and_order() {
    let cat = valley();
    let (w, _) = cat.bounds();
    let plain = cat.rasterize(false);
    let mirrored = cat.rasterize(true);
    assert_eq!(plain.len(), mirrored.len());
    for (p, m) in plain.iter().zip(&mirrored) {
        assert_eq!((w - 1 - p.0, p.1), *m);
    }
}

#[test]
fn texture_len_is_four_bytes_per_cell() {
    assert_eq!(texture_len(3, 2), Some(24));
    assert_eq!(texture_len(0, 9), Some(0));
    assert_eq!(texture_len(usize::MAX / 4, 1), Some(usize::MAX / 4 * 4));
}

#[test]
fn texture_len_beyond_the_address_space() {
    assert_eq!(texture_len(usize::MAX / 4 + 1, 1), None);
    assert_eq!(texture_len(usize::MAX, 2), None);
    assert_eq!(texture_len(usize::MAX, usize::MAX), None);
}

#[test]
fn marks_agrees_with_the_raster() {
    let cat = valley();
    let pixels = cat.render_catenary();
    for row in 0..4 {
        for col in 0..6 {
            assert_eq!(cat.marks(col, row), pixels.contains(&(col, row)), "({col}, {row})");
        }
    }
}

#[test]
fn marks_is_false_off_the_grid() {
    let cat = valley();
    assert!(!cat.marks(5, 0));
    assert!(!cat.marks(0, 3));
    assert!(!cat.marks(usize::MAX, usize::MAX));
}

#[test]
fn every_pixel_lies_on_the_grid() {
    let cat = valley();
    let (w, h) = cat.bounds();
    for (col, row) in cat.render_catenary() {
        assert!(col < w && row < h);
    }
}

#[test]
fn row_scan_fills_what_a_steep_curve_leaves_open() {
    // the curve climbs four levels between columns 0 and 1
    let heights = vec![0, 4];
    let crossings = vec![Some((0, -9)), Some((0, -9)), Some((1, -9)), Some((1, -9)), Some((1, -9))];
    let cat = Catenary::new((2, 5), heights, crossings).unwrap();
    let by_columns = cat.render_catenary_x();
    let all = cat.render_catenary();
    let rows_of = |pixels: &Vec<(usize, usize)>| {
        (0..5).filter(|row| pixels.iter().any(|p| p.1 == *row)).count()
    };
    assert_eq!(rows_of(&by_columns), 2);
    assert_eq!(rows_of(&all), 5);
}

#[test]
fn rendering_twice_gives_the_same_pixels() {
    let cat = valley();
    assert_eq!(cat.render_catenary(), cat.render_catenary());
    assert_eq!(cat.render_new_tex(true), cat.render_new_tex(true));
}

#[test]
fn same_samples_give_the_same_picture() {
    let first = valley();
    let second = valley();
    assert_eq!(first.bounds(), second.bounds());
    assert_eq!(first.render_catenary(), second.render_catenary());
    assert_eq!(first.render_new_tex(false), second.render_new_tex(false));
}

#[test]
fn bounds_add_two_columns_and_no_row() {
    assert_eq!(bounds_for(100, 179), Ok((102, 179)));
    assert_eq!(bounds_for(0, 0), Ok((2, 0)));
    assert_eq!(bounds_for(0, 1), Ok((2, 1)));
}

#[test]
fn bounds_hold_the_extent() {
    let (w, h) = bounds_for(7, 3).unwrap();
    assert!(w > 7 + 1 && h >= 3);
}

#[test]
fn bounds_beyond_the_address_space_are_invalid() {
    assert_eq!(bounds_for(usize::MAX, 0), Err(CatenaryError::InvalidInput));
    assert_eq!(bounds_for(usize::MAX - 1, 0), Err(CatenaryError::InvalidInput));
    assert_eq!(bounds_for(0, usize::MAX), Err(CatenaryError::InvalidInput));
    assert_eq!(bounds_for(usize::MAX / 2, 3), Err(CatenaryError::InvalidInput));
    assert_eq!(bounds_for(usize::MAX / 8, 2), Err(CatenaryError::InvalidInput));
}

#[test]
fn widest_picture_without_rows_is_accepted() {
    assert_eq!(bounds_for(usize::MAX - 2, 0), Ok((usize::MAX, 0)));
}

#[test]
fn largest_one_row_grid_is_accepted() {
    // 4 * (span + 2) * 1 must not exceed usize::MAX
    let span = usize::MAX / 4 - 2;
    assert_eq!(bounds_for(span, 1), Ok((span + 2, 1)));
    assert_eq!(bounds_for(span + 1, 1), Err(CatenaryError::InvalidInput));
}
