use fast_pixel_fix::grid::{Pixel, PixelGrid};
use fast_pixel_fix::partition::RowRange;

fn pixel(r: u8, g: u8, b: u8, a: u8) -> Pixel {
    Pixel { r, g, b, a }
}

fn counting_grid(width: u32, height: u32) -> PixelGrid {
    let bytes: Vec<u8> = (0..width * height * 4).map(|i| i as u8).collect();
    PixelGrid::from_raw(width, height, bytes).unwrap()
}

#[test]
fn buffer_must_hold_four_bytes_per_pixel() {
    assert!(PixelGrid::from_raw(2, 3, vec![0; 24]).is_some());
    assert!(PixelGrid::from_raw(2, 3, vec![0; 23]).is_none());
    assert!(PixelGrid::from_raw(2, 3, vec![0; 25]).is_none());
    assert!(PixelGrid::from_raw(2, 3, vec![0; 6]).is_none());
    assert!(PixelGrid::from_raw(2, 3, Vec::new()).is_none());
}

#[test]
fn grid_without_pixels() {
    let empty = PixelGrid::from_raw(0, 0, Vec::new()).unwrap();
    assert_eq!((empty.width(), empty.height(), empty.pixel_count()), (0, 0, 0));
    assert_eq!(empty.get_pixel(0, 0), None);
    let flat = PixelGrid::from_raw(7, 0, Vec::new()).unwrap();
    assert_eq!((flat.width(), flat.height(), flat.pixel_count()), (7, 0, 0));
    let thin = PixelGrid::from_raw(0, u32::MAX, Vec::new()).unwrap();
    assert_eq!(thin.pixel_count(), 0);
    assert!(PixelGrid::from_raw(0, 0, vec![0; 4]).is_none());
}

#[test]
fn huge_dimensions_without_a_buffer_are_refused() {
    assert!(PixelGrid::from_raw(u32::MAX, u32::MAX, Vec::new()).is_none());
    assert!(PixelGrid::from_raw(u32::MAX, u32::MAX, vec![0; 4]).is_none());
}

#[test]
fn dimensions_and_bytes() {
    let grid = counting_grid(3, 2);
    assert_eq!(grid.width(), 3);
    assert_eq!(grid.height(), 2);
    assert_eq!(grid.pixel_count(), 6);
    assert_eq!(grid.as_bytes().len(), 24);
    assert_eq!(grid.as_bytes()[23], 23);
    assert_eq!(grid.into_raw(), (0..24).collect::<Vec<u8>>());
}

#[test]
fn reads_pixels_row_by_row() {
    let grid = counting_grid(3, 2);
    assert_eq!(grid.get_pixel(0, 0), Some(pixel(0, 1, 2, 3)));
    assert_eq!(grid.get_pixel(2, 0), Some(pixel(8, 9, 10, 11)));
    assert_eq!(grid.get_pixel(0, 1), Some(pixel(12, 13, 14, 15)));
    assert_eq!(grid.get_pixel(2, 1), Some(pixel(20, 21, 22, 23)));
}

#[test]
fn reading_outside_the_grid_gives_nothing() {
    let grid = counting_grid(3, 2);
    assert_eq!(grid.get_pixel(3, 0), None);
    assert_eq!(grid.get_pixel(0, 2), None);
    assert_eq!(grid.get_pixel(3, 2), None);
    assert_eq!(grid.get_pixel(u32::MAX, u32::MAX), None);
}

#[test]
fn writes_one_pixel() {
    let mut grid = counting_grid(3, 2);
    assert!(grid.put_pixel(1, 1, pixel(200, 201, 202, 203)));
    let mut expected: Vec<u8> = (0..24).collect();
    expected[16..20].copy_from_slice(&[200, 201, 202, 203]);
    assert_eq!(grid.as_bytes(), &expected[..]);
    assert_eq!(grid.get_pixel(1, 1), Some(pixel(200, 201, 202, 203)));
}

#[test]
fn writing_outside_the_grid_changes_nothing() {
    let mut grid = counting_grid(3, 2);
    assert!(!grid.put_pixel(3, 1, pixel(1, 1, 1, 1)));
    assert!(!grid.put_pixel(1, 2, pixel(1, 1, 1, 1)));
    assert_eq!(grid.as_bytes(), &(0..24).collect::<Vec<u8>>()[..]);
}

#[test]
fn copy_is_equal_and_independent() {
    let grid = counting_grid(2, 2);
    let mut copy = grid.clone();
    assert_eq!(copy, grid);
    assert_eq!(copy.as_bytes(), grid.as_bytes());
    assert_eq!((copy.width(), copy.height()), (2, 2));
    assert!(copy.put_pixel(0, 0, pixel(9, 9, 9, 9)));
    assert_eq!(grid.get_pixel(0, 0), Some(pixel(0, 1, 2, 3)));
}

#[test]
fn grids_are_equal_when_size_and_bytes_are() {
    assert_eq!(counting_grid(3, 2), counting_grid(3, 2));
    assert_ne!(counting_grid(3, 2), counting_grid(2, 3));
    assert_ne!(counting_grid(3, 2), counting_grid(3, 1));
    let mut other = counting_grid(3, 2);
    assert!(other.put_pixel(2, 1, pixel(20, 21, 22, 24)));
    assert_ne!(counting_grid(3, 2), other);
    assert_ne!(
        PixelGrid::from_raw(0, 5, Vec::new()).unwrap(),
        PixelGrid::from_raw(5, 0, Vec::new()).unwrap()
    );
}

#[test]
fn where_rows_lie_in_the_buffer() {
    let grid = counting_grid(3, 4);
    assert_eq!(grid.band_bounds(RowRange { start: 0, end: 4 }), Some((0, 48)));
    assert_eq!(grid.band_bounds(RowRange { start: 1, end: 3 }), Some((12, 36)));
    assert_eq!(grid.band_bounds(RowRange { start: 2, end: 2 }), Some((24, 24)));
    assert_eq!(grid.band_bounds(RowRange { start: 4, end: 4 }), Some((48, 48)));
    assert_eq!(grid.band_bounds(RowRange { start: 3, end: 5 }), None);
    assert_eq!(grid.band_bounds(RowRange { start: 3, end: 2 }), None);
}

#[test]
fn opaque_means_any_alpha_but_zero() {
    assert!(pixel(0, 0, 0, 255).is_opaque());
    assert!(pixel(0, 0, 0, 1).is_opaque());
    assert!(pixel(0, 0, 0, 128).is_opaque());
    assert!(!pixel(255, 255, 255, 0).is_opaque());
}
