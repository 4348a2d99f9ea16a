use catenary_gen::texture::{paint, FULL};
use catenary_gen::{Catenary, CatenaryError};

const W: [u8; 4] = [255, 255, 255, 255];
const O: [u8; 4] = [0, 0, 0, 0];

fn bytes(pixels: &[[u8; 4]]) -> Vec<u8> {
    pixels.iter().flatten().copied().collect()
}

/// A curve that falls from the top left to the bottom of column 1 on a 3 x 2
/// grid; column 2 is above the grid.
fn slope() -> Catenary {
    let heights = vec![1, 0, 5];
    let crossings = vec![Some((1, -4)), Some((0, -3))];
    Catenary::new((3, 2), heights, crossings).unwrap()
}

#[test]
fn full_is_the_largest_byte() {
    assert_eq!(FULL, u8::MAX);
}

#[test]
fn new_texture_is_white_on_the_curve_and_zero_elsewhere() {
    assert_eq!(slope().render_new_tex(false), bytes(&[W, O, O, O, W, O]));
}

#[test]
fn flipped_texture_is_the_mirror_image() {
    assert_eq!(slope().render_new_tex(true), bytes(&[O, O, W, O, W, O]));
}

#[test]
fn flipping_mirrors_every_row() {
    let cat = slope();
    let (w, h) = cat.bounds();
    let plain = cat.render_new_tex(false);
    let flipped = cat.render_new_tex(true);
    for row in 0..h {
        for col in 0..w {
            for channel in 0..4 {
                assert_eq!(
                    flipped[4 * (row * w + col) + channel],
                    plain[4 * (row * w + (w - 1 - col)) + channel]
                );
            }
        }
    }
}

#[test]
fn new_texture_has_four_bytes_per_pixel() {
    assert_eq!(slope().render_new_tex(false).len(), 3 * 2 * 4);
}

#[test]
fn rasterize_into_keeps_the_bytes_off_the_curve() {
    let mut buf: Vec<u8> = (1..=24).collect();
    assert_eq!(slope().rasterize_into(&mut buf, false), Ok(()));
    let mut expected: Vec<u8> = (1..=24).collect();
    expected[0..4].copy_from_slice(&W);
    expected[16..20].copy_from_slice(&W);
    assert_eq!(buf, expected);
}

#[test]
fn rasterize_into_rejects_a_short_buffer() {
    let mut buf = vec![7u8; 23];
    assert_eq!(slope().rasterize_into(&mut buf, false), Err(CatenaryError::InvalidInput));
    assert_eq!(buf, vec![7u8; 23]);
}

#[test]
fn rasterize_into_rejects_a_long_buffer() {
    let mut buf = vec![7u8; 28];
    assert_eq!(slope().rasterize_into(&mut buf, true), Err(CatenaryError::InvalidInput));
    assert_eq!(buf, vec![7u8; 28]);
}

#[test]
fn rasterize_into_twice_changes_nothing_more() {
    let cat = slope();
    let mut once: Vec<u8> = (1..=24).collect();
    cat.rasterize_into(&mut once, false).unwrap();
    let mut twice = once.clone();
    cat.rasterize_into(&mut twice, false).unwrap();
    assert_eq!(once, twice);
}

#[test]
fn paint_writes_all_four_channels_of_a_pixel() {
    let mut buf = vec![9u8; 16];
    assert_eq!(paint(&mut buf, (2, 2), &vec![(1, 0)]), Ok(()));
    assert_eq!(buf, vec![9, 9, 9, 9, 255, 255, 255, 255, 9, 9, 9, 9, 9, 9, 9, 9]);
}

#[test]
fn paint_addresses_rows_from_the_top() {
    let mut buf = vec![0u8; 24];
    paint(&mut buf, (3, 2), &vec![(2, 1)]).unwrap();
    assert_eq!(buf, bytes(&[O, O, O, O, O, W]));
}

#[test]
fn painting_the_mirrored_pixels_gives_the_flipped_texture() {
    let cat = slope();
    let mut buf = vec![0u8; 24];
    paint(&mut buf, cat.bounds(), &cat.rasterize(true)).unwrap();
    assert_eq!(buf, bytes(&[O, O, W, O, W, O]));
    assert_eq!(buf, cat.render_new_tex(true));
}

#[test]
fn paint_without_pixels_changes_nothing() {
    let mut buf: Vec<u8> = (0..16).collect();
    paint(&mut buf, (2, 2), &vec![]).unwrap();
    assert_eq!(buf, (0..16).collect::<Vec<u8>>());
}

#[test]
fn paint_on_an_empty_grid() {
    let mut buf: Vec<u8> = vec![];
    assert_eq!(paint(&mut buf, (0, 5), &vec![]), Ok(()));
    assert_eq!(paint(&mut buf, (0, 5), &vec![(0, 0)]), Err(CatenaryError::InvalidInput));
}

#[test]
fn paint_rejects_a_buffer_of_the_wrong_size() {
    let mut buf = vec![3u8; 15];
    assert_eq!(paint(&mut buf, (2, 2), &vec![(0, 0)]), Err(CatenaryError::InvalidInput));
    assert_eq!(buf, vec![3u8; 15]);
}

#[test]
fn paint_rejects_a_grid_beyond_the_address_space() {
    let mut buf = vec![3u8; 4];
    assert_eq!(
        paint(&mut buf, (usize::MAX, 2), &vec![]),
        Err(CatenaryError::InvalidInput)
    );
    assert_eq!(
        paint(&mut buf, (usize::MAX / 2, 1), &vec![]),
        Err(CatenaryError::InvalidInput)
    );
}

#[test]
fn paint_rejects_a_pixel_off_the_grid_and_draws_nothing() {
    let mut buf = vec![3u8; 16];
    let pixels = vec![(0, 0), (2, 0)];
    assert_eq!(paint(&mut buf, (2, 2), &pixels), Err(CatenaryError::InvalidInput));
    assert_eq!(buf, vec![3u8; 16]);
    let pixels = vec![(1, 1), (0, 2)];
    assert_eq!(paint(&mut buf, (2, 2), &pixels), Err(CatenaryError::InvalidInput));
    assert_eq!(buf, vec![3u8; 16]);
}

#[test]
fn painting_the_same_pixels_twice_changes_nothing_more() {
    let pixels = vec![(0, 1), (1, 0), (0, 1)];
    let mut once = vec![1u8; 16];
    paint(&mut once, (2, 2), &pixels).unwrap();
    let mut twice = once.clone();
    paint(&mut twice, (2, 2), &pixels).unwrap();
    assert_eq!(once, twice);
}

#[test]
fn painting_in_turn_is_painting_at_once() {
    let first = vec![(0, 0), (1, 1)];
    let second = vec![(1, 0), (1, 1)];
    let mut in_turn = vec![1u8; 16];
    paint(&mut in_turn, (2, 2), &first).unwrap();
    paint(&mut in_turn, (2, 2), &second).unwrap();
    let mut swapped = vec![1u8; 16];
    paint(&mut swapped, (2, 2), &second).unwrap();
    paint(&mut swapped, (2, 2), &first).unwrap();
    let mut at_once = vec![1u8; 16];
    let both: Vec<(usize, usize)> = first.iter().chain(second.iter()).copied().collect();
    paint(&mut at_once, (2, 2), &both).unwrap();
    assert_eq!(in_turn, at_once);
    assert_eq!(swapped, at_once);
    assert_eq!(at_once, vec![255, 255, 255, 255, 255, 255, 255, 255, 1, 1, 1, 1, 255, 255, 255, 255]);
}

#[test]
fn painting_each_scan_gives_the_whole_picture() {
    let cat = slope();
    let mut buf = vec![0u8; 24];
    paint(&mut buf, cat.bounds(), &cat.render_catenary_x()).unwrap();
    assert_eq!(buf, bytes(&[W, O, O, O, W, O]));
    let mut by_rows = vec![0u8; 24];
    paint(&mut by_rows, cat.bounds(), &cat.render_catenary_y()).unwrap();
    assert_eq!(by_rows, bytes(&[W, O, O, O, W, O]));
    paint(&mut buf, cat.bounds(), &cat.render_catenary_y()).unwrap();
    assert_eq!(buf, cat.render_new_tex(false));
}
