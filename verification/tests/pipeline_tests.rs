use fast_pixel_fix::average::{AverageColor, FixError};
use fast_pixel_fix::grid::{Pixel, PixelGrid};
use fast_pixel_fix::partition::partition_rows;
use fast_pixel_fix::pipeline::{average_color, fix_image, fix_image_on_host};

fn two_by_two() -> PixelGrid {
    let bytes = vec![255, 0, 0, 255, 0, 0, 0, 0, 0, 255, 0, 255, 0, 0, 0, 0];
    PixelGrid::from_raw(2, 2, bytes).unwrap()
}

/// A grid whose pixels differ from one to the next, about one in three of
/// them fully transparent.
fn speckled(width: u32, height: u32) -> PixelGrid {
    let mut bytes = Vec::new();
    for i in 0..width * height {
        let alpha = if i % 3 == 1 { 0 } else { (i % 251) as u8 + 1 };
        bytes.extend_from_slice(&[(i * 7) as u8, (i * 13 + 5) as u8, (i * 29 + 11) as u8, alpha]);
    }
    PixelGrid::from_raw(width, height, bytes).unwrap()
}

#[test]
fn two_by_two_average() {
    let grid = two_by_two();
    let ranges = partition_rows(2, 2);
    assert_eq!(average_color(&grid, &ranges), Ok(AverageColor { r: 127, g: 127, b: 0 }));
}

#[test]
fn two_by_two_transparent_pixels_get_the_average() {
    let fixed = fix_image(&two_by_two(), 2).unwrap();
    assert_eq!(fixed.get_pixel(1, 0), Some(Pixel { r: 127, g: 127, b: 0, a: 0 }));
    assert_eq!(fixed.get_pixel(1, 1), Some(Pixel { r: 127, g: 127, b: 0, a: 0 }));
}

#[test]
fn two_by_two_opaque_pixels_stay() {
    let fixed = fix_image(&two_by_two(), 2).unwrap();
    assert_eq!(fixed.get_pixel(0, 0), Some(Pixel { r: 255, g: 0, b: 0, a: 255 }));
    assert_eq!(fixed.get_pixel(0, 1), Some(Pixel { r: 0, g: 255, b: 0, a: 255 }));
    assert_eq!(
        fixed.as_bytes(),
        &[255, 0, 0, 255, 127, 127, 0, 0, 0, 255, 0, 255, 127, 127, 0, 0][..]
    );
}

#[test]
fn all_transparent_has_no_average() {
    let grid = PixelGrid::from_raw(2, 2, vec![9, 9, 9, 0, 1, 2, 3, 0, 0, 0, 0, 0, 255, 255, 255, 0])
        .unwrap();
    for workers in [1u32, 2, 7] {
        assert_eq!(fix_image(&grid, workers).err(), Some(FixError::NoOpaquePixels));
        assert_eq!(
            average_color(&grid, &partition_rows(2, workers)),
            Err(FixError::NoOpaquePixels)
        );
    }
}

#[test]
fn grid_without_pixels_has_no_average() {
    let grid = PixelGrid::from_raw(0, 0, Vec::new()).unwrap();
    assert_eq!(fix_image(&grid, 4).err(), Some(FixError::NoOpaquePixels));
    let flat = PixelGrid::from_raw(5, 0, Vec::new()).unwrap();
    assert_eq!(fix_image(&flat, 1).err(), Some(FixError::NoOpaquePixels));
    let thin = PixelGrid::from_raw(0, 5, Vec::new()).unwrap();
    assert_eq!(fix_image(&thin, 2).err(), Some(FixError::NoOpaquePixels));
}

#[test]
fn uniform_opaque_image_is_left_as_it_is() {
    let bytes: Vec<u8> = [10u8, 20, 30, 255].iter().copied().cycle().take(100 * 100 * 4).collect();
    let grid = PixelGrid::from_raw(100, 100, bytes.clone()).unwrap();
    assert_eq!(
        average_color(&grid, &partition_rows(100, 8)),
        Ok(AverageColor { r: 10, g: 20, b: 30 })
    );
    let fixed = fix_image(&grid, 8).unwrap();
    assert_eq!(fixed.as_bytes(), &bytes[..]);
    assert_eq!(fixed, grid);
}

#[test]
fn worker_count_does_not_change_the_average() {
    let grid = speckled(17, 23);
    let one = average_color(&grid, &partition_rows(23, 1));
    assert!(one.is_ok());
    for workers in [2u32, 7, 23, 24, 100] {
        assert_eq!(average_color(&grid, &partition_rows(23, workers)), one, "{workers} workers");
    }
}

#[test]
fn average_is_the_floor_of_the_mean_over_opaque_pixels() {
    let grid = speckled(17, 23);
    let (mut sums, mut count) = ([0u64; 3], 0u64);
    for px in grid.as_bytes().chunks(4) {
        if px[3] != 0 {
            for c in 0..3 {
                sums[c] += px[c] as u64;
            }
            count += 1;
        }
    }
    let expected = AverageColor {
        r: (sums[0] / count) as u8,
        g: (sums[1] / count) as u8,
        b: (sums[2] / count) as u8,
    };
    for workers in [1u32, 2, 7] {
        assert_eq!(average_color(&grid, &partition_rows(23, workers)), Ok(expected));
    }
}

#[test]
fn worker_count_does_not_change_the_result() {
    let grid = speckled(17, 23);
    let one = fix_image(&grid, 1).unwrap();
    for workers in [2u32, 7, 23, 24, 100] {
        assert_eq!(fix_image(&grid, workers).as_ref(), Ok(&one), "{workers} workers");
    }
}

#[test]
fn only_transparent_pixels_change_and_only_their_color() {
    let grid = speckled(9, 5);
    let average = average_color(&grid, &partition_rows(5, 3)).unwrap();
    let fixed = fix_image(&grid, 3).unwrap();
    for (before, after) in grid.as_bytes().chunks(4).zip(fixed.as_bytes().chunks(4)) {
        if before[3] == 0 {
            assert_eq!(after, &[average.r, average.g, average.b, 0][..]);
        } else {
            assert_eq!(after, before);
        }
    }
}

#[test]
fn second_repair_changes_nothing() {
    for grid in [two_by_two(), speckled(17, 23), speckled(1, 1), speckled(64, 3)] {
        let once = fix_image(&grid, 3).unwrap();
        let twice = fix_image(&once, 5).unwrap();
        assert_eq!(twice, once);
    }
}

#[test]
fn source_is_not_touched() {
    let grid = two_by_two();
    let _ = fix_image(&grid, 2).unwrap();
    assert_eq!(grid, two_by_two());
}

#[test]
fn repair_on_this_machine_gives_the_same() {
    let grid = speckled(31, 12);
    assert_eq!(fix_image_on_host(&grid), fix_image(&grid, 1));
    let blank = PixelGrid::from_raw(1, 1, vec![5, 5, 5, 0]).unwrap();
    assert_eq!(fix_image_on_host(&blank).err(), Some(FixError::NoOpaquePixels));
}
