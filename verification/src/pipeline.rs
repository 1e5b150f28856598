//! The whole repair: split the rows, add up the opaque pixels, work out
//! the average, recolor the transparent pixels.

use vstd::prelude::*;
use crate::average::{lemma_mean_is_floor, mean_color, resolve_average, AverageColor, FixError};
use crate::fixer::{fix_pixels, lemma_recolor_keeps_totals, lemma_recolor_twice, recolored_grid};
use crate::grid::{pixel_at, GridModel, PixelGrid};
use crate::partition::{
    is_partition, lemma_partition_is_chain, partition, partition_rows, RowRange,
};
use crate::stats::{
    aggregate, lemma_count_zero, lemma_merged_is_whole, lemma_totals_bounds, merged, totals, Totals,
};
use crate::workers::host_workers;

verus! {

/// The totals over all pixels of a grid.
pub open spec fn whole(g: GridModel) -> Totals {
    totals(g.pixels, 0, g.pixel_count())
}

/// What repairing `g` gives: `g` with each fully transparent pixel
/// recolored with the average of the opaque ones, or that there is no
/// opaque pixel to take an average from.
pub open spec fn repaired(g: GridModel) -> Result<GridModel, FixError> {
    if whole(g).count == 0 {
        Err(FixError::NoOpaquePixels)
    } else {
        Ok(recolored_grid(g, mean_color(whole(g))))
    }
}

/// Finds the average color of `source` with one worker for each range.
pub fn average_color(source: &PixelGrid, ranges: &[RowRange]) -> (average: Result<
    AverageColor,
    FixError,
>)
    requires
        source.wf(),
        is_partition(ranges@, source@.height),
    ensures
        average == if whole(source@).count == 0 {
            Err::<AverageColor, FixError>(FixError::NoOpaquePixels)
        } else {
            Ok::<AverageColor, FixError>(mean_color(whole(source@)))
        },
{
    let total = aggregate(source, ranges);
    resolve_average(&total)
}

/// Repairs `source` with `workers` workers.
///
/// The result does not depend on the number of workers. It is
/// `NoOpaquePixels` exactly if `source` has no pixel with an alpha other
/// than zero; else it is a grid of the same size in which each pixel with
/// alpha zero has the average color of the others, and all else is as in
/// `source`.
pub fn fix_image(source: &PixelGrid, workers: u32) -> (result: Result<PixelGrid, FixError>)
    requires
        source.wf(),
        workers >= 1,
    ensures
        match result {
            Ok(out) => out.wf() && repaired(source@) == Ok::<GridModel, FixError>(out@),
            Err(e) => repaired(source@) == Err::<GridModel, FixError>(e),
        },
{
    let ranges = partition_rows(source.height(), workers);
    match average_color(source, ranges.as_slice()) {
        Ok(average) => Ok(fix_pixels(source, ranges.as_slice(), average)),
        Err(e) => Err(e),
    }
}

/// Repairs `source` with as many workers as this machine has logical
/// processors.
pub fn fix_image_on_host(source: &PixelGrid) -> (result: Result<PixelGrid, FixError>)
    requires
        source.wf(),
    ensures
        match result {
            Ok(out) => out.wf() && repaired(source@) == Ok::<GridModel, FixError>(out@),
            Err(e) => repaired(source@) == Err::<GridModel, FixError>(e),
        },
{
    fix_image(source, host_workers())
}

/// With at least one opaque pixel, the average that comes of the merged
/// stats of any number of workers is, channel by channel, the sum over the
/// opaque pixels divided by their number, rounded down. So any two numbers
/// of workers give the same average.
pub proof fn lemma_average_is_floor_mean(g: GridModel, workers: int)
    requires
        g.wf(),
        workers >= 1,
        exists|k: int| 0 <= k < g.pixel_count() && (#[trigger] pixel_at(g.pixels, k)).opaque(),
    ensures
        whole(g).count > 0,
        merged(g.pixels, g.width, partition(g.height, workers)) == whole(g),
        mean_color(merged(g.pixels, g.width, partition(g.height, workers))).r == whole(g).r / whole(
            g,
        ).count,
        mean_color(merged(g.pixels, g.width, partition(g.height, workers))).g == whole(g).g / whole(
            g,
        ).count,
        mean_color(merged(g.pixels, g.width, partition(g.height, workers))).b == whole(g).b / whole(
            g,
        ).count,
{
    lemma_partition_is_chain(g.height, workers);
    lemma_merged_is_whole(g, partition(g.height, workers));
    lemma_totals_bounds(g.pixels, 0, g.pixel_count());
    lemma_count_zero(g.pixels, 0, g.pixel_count());
    lemma_mean_is_floor(whole(g));
}

/// A grid cannot be repaired exactly if every one of its pixels is fully
/// transparent, as when it has no pixels at all.
pub proof fn lemma_no_average_iff_all_transparent(g: GridModel)
    requires
        g.wf(),
    ensures
        repaired(g) is Err <==> forall|k: int|
            0 <= k < g.pixel_count() ==> !(#[trigger] pixel_at(g.pixels, k)).opaque(),
{
    lemma_count_zero(g.pixels, 0, g.pixel_count());
}

/// Repairing a repaired grid gives the same grid again.
pub proof fn lemma_repair_is_idempotent(g: GridModel)
    requires
        g.wf(),
    ensures
        repaired(g) matches Ok(fixed) ==> fixed.wf() && repaired(fixed) == Ok::<
            GridModel,
            FixError,
        >(fixed),
{
    if whole(g).count != 0 {
        let average = mean_color(whole(g));
        let fixed = recolored_grid(g, average);
        lemma_recolor_keeps_totals(g.pixels, average, 0, g.pixel_count());
        lemma_recolor_twice(g.pixels, average);
        assert(whole(fixed) == whole(g));
    }
}

} // verus!
