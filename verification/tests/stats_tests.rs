use fast_pixel_fix::average::{resolve_average, AverageColor, FixError};
use fast_pixel_fix::grid::{Pixel, PixelGrid};
use fast_pixel_fix::partition::{partition_rows, RowRange};
use fast_pixel_fix::stats::{aggregate, scan_rows, PartialStats};

fn stats(sum_r: u64, sum_g: u64, sum_b: u64, opaque_count: u64) -> PartialStats {
    PartialStats { sum_r, sum_g, sum_b, opaque_count }
}

/// Three pixels wide, four rows: row `y` holds `(10y, 10y + 1, 10y + 2)`
/// three times, the middle pixel of every row fully transparent.
fn striped() -> PixelGrid {
    let mut bytes = Vec::new();
    for y in 0u8..4 {
        for x in 0u8..3 {
            let alpha = if x == 1 { 0 } else { 200 + x };
            bytes.extend_from_slice(&[10 * y, 10 * y + 1, 10 * y + 2, alpha]);
        }
    }
    PixelGrid::from_raw(3, 4, bytes).unwrap()
}

#[test]
fn fresh_stats_are_zero() {
    assert_eq!(PartialStats::new(), stats(0, 0, 0, 0));
}

#[test]
fn opaque_pixel_is_counted() {
    let mut s = stats(5, 6, 7, 1);
    s.add_pixel(Pixel { r: 10, g: 20, b: 30, a: 255 });
    assert_eq!(s, stats(15, 26, 37, 2));
}

#[test]
fn partly_transparent_pixel_counts_in_full() {
    let mut s = PartialStats::new();
    s.add_pixel(Pixel { r: 10, g: 20, b: 30, a: 1 });
    assert_eq!(s, stats(10, 20, 30, 1));
}

#[test]
fn fully_transparent_pixel_is_skipped() {
    let mut s = stats(5, 6, 7, 1);
    s.add_pixel(Pixel { r: 10, g: 20, b: 30, a: 0 });
    assert_eq!(s, stats(5, 6, 7, 1));
}

#[test]
fn merge_adds_field_by_field() {
    let mut total = stats(1, 2, 3, 4);
    total.merge(&stats(10, 20, 30, 40));
    assert_eq!(total, stats(11, 22, 33, 44));
    total.merge(&PartialStats::new());
    assert_eq!(total, stats(11, 22, 33, 44));
}

#[test]
fn try_merge_adds_when_the_sums_fit() {
    let mut total = stats(u64::MAX - 5, 2, 3, 4);
    assert!(total.try_merge(&stats(5, 20, 30, 40)));
    assert_eq!(total, stats(u64::MAX, 22, 33, 44));
}

#[test]
fn try_merge_leaves_the_total_when_a_sum_does_not_fit() {
    for other in [
        stats(6, 0, 0, 0),
        stats(0, u64::MAX, 0, 0),
        stats(0, 0, u64::MAX - 2, 0),
        stats(0, 0, 0, u64::MAX - 3),
    ] {
        let mut total = stats(u64::MAX - 5, 2, 3, 4);
        assert!(!total.try_merge(&other));
        assert_eq!(total, stats(u64::MAX - 5, 2, 3, 4));
    }
}

#[test]
fn scan_of_one_row() {
    let grid = striped();
    assert_eq!(scan_rows(&grid, RowRange { start: 2, end: 3 }), stats(40, 42, 44, 2));
}

#[test]
fn scan_of_several_rows() {
    let grid = striped();
    assert_eq!(scan_rows(&grid, RowRange { start: 1, end: 4 }), stats(120, 126, 132, 6));
    assert_eq!(scan_rows(&grid, RowRange { start: 0, end: 4 }), stats(120, 128, 136, 8));
}

#[test]
fn scan_of_no_rows() {
    let grid = striped();
    assert_eq!(scan_rows(&grid, RowRange { start: 2, end: 2 }), PartialStats::new());
    assert_eq!(scan_rows(&grid, RowRange { start: 4, end: 4 }), PartialStats::new());
}

#[test]
fn brightest_pixels_add_up_exactly() {
    let grid = PixelGrid::from_raw(50, 40, vec![255; 50 * 40 * 4]).unwrap();
    assert_eq!(
        scan_rows(&grid, RowRange { start: 0, end: 40 }),
        stats(510_000, 510_000, 510_000, 2000)
    );
}

#[test]
fn any_number_of_workers_finds_the_same_totals() {
    let grid = striped();
    let whole = scan_rows(&grid, RowRange { start: 0, end: 4 });
    for workers in [1u32, 2, 3, 4, 7, 64] {
        let ranges = partition_rows(grid.height(), workers);
        assert_eq!(aggregate(&grid, &ranges), whole, "{workers} workers");
    }
}

#[test]
fn aggregate_over_a_split_by_hand() {
    let grid = striped();
    let ranges = [
        RowRange { start: 0, end: 1 },
        RowRange { start: 1, end: 1 },
        RowRange { start: 1, end: 4 },
    ];
    assert_eq!(aggregate(&grid, &ranges), stats(120, 128, 136, 8));
}

#[test]
fn average_is_rounded_down() {
    assert_eq!(resolve_average(&stats(255, 255, 0, 2)), Ok(AverageColor { r: 127, g: 127, b: 0 }));
    assert_eq!(resolve_average(&stats(299, 300, 301, 100)), Ok(AverageColor { r: 2, g: 3, b: 3 }));
    assert_eq!(resolve_average(&stats(7, 8, 9, 1)), Ok(AverageColor { r: 7, g: 8, b: 9 }));
}

#[test]
fn average_of_nothing_is_an_error() {
    assert_eq!(resolve_average(&PartialStats::new()), Err(FixError::NoOpaquePixels));
    assert_eq!(resolve_average(&stats(10, 20, 30, 0)), Err(FixError::NoOpaquePixels));
}

#[test]
fn average_of_the_largest_sums() {
    let count = u64::MAX / 255;
    assert_eq!(
        resolve_average(&stats(255 * count, 254 * count, count - 1, count)),
        Ok(AverageColor { r: 255, g: 254, b: 0 })
    );
}

#[test]
fn quotient_too_large_for_a_channel_keeps_its_low_byte() {
    assert_eq!(
        resolve_average(&stats(1000, 256, 511, 1)),
        Ok(AverageColor { r: 232, g: 0, b: 255 })
    );
}

#[test]
fn average_of_a_grid_counts_only_opaque_pixels() {
    let grid = striped();
    let total = aggregate(&grid, &partition_rows(4, 3));
    assert_eq!(resolve_average(&total), Ok(AverageColor { r: 15, g: 16, b: 17 }));
}
