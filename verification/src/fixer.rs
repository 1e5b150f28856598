//! Recoloring: every fully transparent pixel gets the average color and
//! stays transparent; every other pixel stays as it is.

use vstd::prelude::*;
use vstd::slice::{slice_subrange, slice_to_vec};
use crate::average::AverageColor;
use crate::grid::{lemma_row_offsets, pixel_at, GridModel, Pixel, PixelGrid};
use crate::partition::{
    is_partition, lemma_chain_bounds, lemma_partition_disjoint, partition, RowRange,
};
use crate::stats::totals;

verus! {

impl AverageColor {
    /// The channel that byte `c` of a pixel holds: red, green, blue for 0,
    /// 1, 2.
    pub open spec fn channel(self, c: int) -> u8 {
        if c == 0 {
            self.r
        } else if c == 1 {
            self.g
        } else {
            self.b
        }
    }
}

/// Byte `i` of a buffer after recoloring: a color byte of a pixel that is
/// fully transparent in `reference` becomes that channel of `average`; an
/// alpha byte, and any byte of another pixel, is as in `target`.
pub open spec fn recolored_byte(
    reference: Seq<u8>,
    target: Seq<u8>,
    average: AverageColor,
    i: int,
) -> u8 {
    if i % 4 != 3 && reference[i - i % 4 + 3] == 0 {
        average.channel(i % 4)
    } else {
        target[i]
    }
}

/// `target` after recoloring, within the bytes `lo`, ..., `hi - 1`, the
/// pixels that are fully transparent in `reference`.
pub open spec fn recolored_span(
    reference: Seq<u8>,
    target: Seq<u8>,
    lo: int,
    hi: int,
    average: AverageColor,
) -> Seq<u8> {
    Seq::new(
        target.len(),
        |i: int|
            if lo <= i < hi {
                recolored_byte(reference, target, average, i)
            } else {
                target[i]
            },
    )
}

/// `target` after recoloring the pixels that are fully transparent in
/// `reference`.
pub open spec fn recolored_onto(reference: Seq<u8>, target: Seq<u8>, average: AverageColor) -> Seq<
    u8,
> {
    recolored_span(reference, target, 0, target.len() as int, average)
}

/// `bytes` with each of its fully transparent pixels recolored.
pub open spec fn recolored(bytes: Seq<u8>, average: AverageColor) -> Seq<u8> {
    recolored_onto(bytes, bytes, average)
}

/// Pixel by pixel: recoloring gives a pixel with alpha zero the average
/// color and leaves its alpha at zero; any other pixel stays as it is.
pub proof fn lemma_recolored_pixel(bytes: Seq<u8>, average: AverageColor, k: int)
    requires
        0 <= k,
        4 * k + 3 < bytes.len(),
    ensures
        pixel_at(recolored(bytes, average), k) == if pixel_at(bytes, k).a == 0 {
            Pixel { r: average.r, g: average.g, b: average.b, a: 0 }
        } else {
            pixel_at(bytes, k)
        },
{
    let fixed = recolored(bytes, average);
    assert(fixed[4 * k] == recolored_byte(bytes, bytes, average, 4 * k));
    assert(fixed[4 * k + 1] == recolored_byte(bytes, bytes, average, 4 * k + 1));
    assert(fixed[4 * k + 2] == recolored_byte(bytes, bytes, average, 4 * k + 2));
    assert(fixed[4 * k + 3] == recolored_byte(bytes, bytes, average, 4 * k + 3));
}

/// Recolors one worker's band of the output buffer.
///
/// `reference` holds the same rows of the source image. Where a pixel of
/// `reference` has alpha zero, the three color bytes of that pixel in
/// `band` are set to `average`; nothing else in `band` is written.
pub fn fix_band(reference: &[u8], band: &mut [u8], average: AverageColor)
    requires
        reference@.len() == old(band)@.len(),
        reference@.len() % 4 == 0,
    ensures
        final(band)@ == recolored_onto(reference@, old(band)@, average),
{
    let n: usize = reference.len() / 4;
    let mut k: usize = 0;
    while k < n
        invariant
            k <= n,
            n * 4 == reference@.len() == band@.len() == old(band)@.len(),
            reference@.len() <= usize::MAX,
            forall|i: int|
                0 <= i < 4 * k ==> band@[i] == recolored_byte(reference@, old(band)@, average, i),
            forall|i: int| 4 * k <= i < band@.len() ==> band@[i] == old(band)@[i],
        decreases n - k,
    {
        if reference[4 * k + 3] == 0 {
            band[4 * k] = average.r;
            band[4 * k + 1] = average.g;
            band[4 * k + 2] = average.b;
        }
        k = k + 1;
    }
    assert(band@ =~= recolored_onto(reference@, old(band)@, average));
}

/// The alpha byte of the pixel that byte `i` belongs to lies in the same
/// whole number of pixels as `i`, and moves along with `i` when a whole
/// number of pixels is cut off in front.
proof fn lemma_alpha_index(i: int, lo: int, len: int)
    requires
        0 <= i < len,
        0 <= lo,
        lo % 4 == 0,
        len % 4 == 0,
    ensures
        0 <= i - i % 4 + 3 < len,
        (i + lo) % 4 == i % 4,
        (i - i % 4 + 3) % 4 == 3,
{
    assert(i == 4 * (i / 4) + i % 4);
    assert(len == 4 * (len / 4));
    assert(lo == 4 * (lo / 4));
}

/// Recoloring changes neither which pixels are opaque nor what they
/// hold, so it leaves the totals as they were.
pub proof fn lemma_recolor_keeps_totals(bytes: Seq<u8>, average: AverageColor, lo: int, hi: int)
    requires
        0 <= lo <= hi,
        4 * hi <= bytes.len(),
    ensures
        totals(recolored(bytes, average), lo, hi) == totals(bytes, lo, hi),
    decreases hi - lo,
{
    if lo < hi {
        lemma_recolor_keeps_totals(bytes, average, lo, hi - 1);
        lemma_recolored_pixel(bytes, average, hi - 1);
    }
}

/// Recoloring what has been recolored with the same color changes
/// nothing.
pub proof fn lemma_recolor_twice(bytes: Seq<u8>, average: AverageColor)
    requires
        bytes.len() % 4 == 0,
    ensures
        recolored(recolored(bytes, average), average) == recolored(bytes, average),
{
    let once = recolored(bytes, average);
    let twice = recolored(once, average);
    assert forall|i: int| 0 <= i < bytes.len() implies twice[i] == once[i] by {
        let alpha = i - i % 4 + 3;
        lemma_alpha_index(i, 0, bytes.len() as int);
        assert(once[alpha] == recolored_byte(bytes, bytes, average, alpha));
        assert(once[i] == recolored_byte(bytes, bytes, average, i));
        assert(twice[i] == recolored_byte(once, once, average, i));
    }
    assert(twice =~= once);
}

/// Byte for byte, recoloring a band that was cut out of a buffer at a
/// pixel boundary is recoloring the buffer at that place.
proof fn lemma_cut_byte(
    reference: Seq<u8>,
    before: Seq<u8>,
    lo: int,
    hi: int,
    average: AverageColor,
    j: int,
)
    requires
        0 <= lo <= j < hi <= before.len(),
        reference.len() == before.len(),
        lo % 4 == 0,
        (hi - lo) % 4 == 0,
    ensures
        recolored_byte(
            reference.subrange(lo, hi),
            before.subrange(lo, hi),
            average,
            j - lo,
        ) == recolored_byte(reference, before, average, j),
{
    let i = j - lo;
    lemma_alpha_index(i, lo, hi - lo);
    let alpha = i - i % 4 + 3;
    assert(reference.subrange(lo, hi)[alpha] == reference[alpha + lo]);
    assert(before.subrange(lo, hi)[i] == before[j]);
}

/// Recoloring a band that was cut out of a buffer at a pixel boundary,
/// and putting it back, recolors that span of the buffer.
proof fn lemma_band_in_place(
    reference: Seq<u8>,
    before: Seq<u8>,
    lo: int,
    hi: int,
    average: AverageColor,
)
    requires
        0 <= lo <= hi <= before.len(),
        reference.len() == before.len(),
        lo % 4 == 0,
        (hi - lo) % 4 == 0,
    ensures
        before.subrange(0, lo) + (recolored_onto(
            reference.subrange(lo, hi),
            before.subrange(lo, hi),
            average,
        ) + before.subrange(hi, before.len() as int)) == recolored_span(
            reference,
            before,
            lo,
            hi,
            average,
        ),
{
    let band = recolored_onto(reference.subrange(lo, hi), before.subrange(lo, hi), average);
    let after = before.subrange(0, lo) + (band + before.subrange(hi, before.len() as int));
    let wanted = recolored_span(reference, before, lo, hi, average);
    assert(after.len() == wanted.len());
    assert forall|j: int| 0 <= j < after.len() implies after[j] == wanted[j] by {
        if lo <= j < hi {
            assert(after[j] == band[j - lo]);
            lemma_cut_byte(reference, before, lo, hi, average, j);
        }
    }
    assert(after =~= wanted);
}

/// Recolors the rows of `range` in `output`, a buffer as large as that of
/// `source`: one worker's share of the repair.
///
/// Where a pixel of `source` in those rows has alpha zero, the three color
/// bytes of that pixel in `output` are set to `average`. Nothing else is
/// written: all bytes of other rows, and all alpha bytes, stay as they
/// were.
pub fn fix_rows(source: &PixelGrid, range: RowRange, output: &mut [u8], average: AverageColor)
    requires
        source.wf(),
        range.start <= range.end <= source@.height,
        old(output)@.len() == source@.pixels.len(),
    ensures
        final(output)@ == recolored_span(
            source@.pixels,
            old(output)@,
            range.start * source@.width * 4,
            range.end * source@.width * 4,
            average,
        ),
{
    let bounds: (usize, usize) = source.band_bounds(range).unwrap();
    let lo: usize = bounds.0;
    let hi: usize = bounds.1;
    let reference: &[u8] = slice_subrange(source.as_bytes(), lo, hi);
    let (_, rest) = output.split_at_mut(lo);
    let (band, _) = rest.split_at_mut(hi - lo);
    fix_band(reference, band, average);
    proof {
        lemma_band_in_place(source@.pixels, old(output)@, lo as int, hi as int, average);
    }
}

/// The grid `g` with each of its fully transparent pixels recolored.
pub open spec fn recolored_grid(g: GridModel, average: AverageColor) -> GridModel {
    GridModel { width: g.width, height: g.height, pixels: recolored(g.pixels, average) }
}

/// Runs one worker over each range, one after another, on a copy of
/// `source`, and hands back the copy: `source` with each of its fully
/// transparent pixels recolored.
pub fn fix_pixels(source: &PixelGrid, ranges: &[RowRange], average: AverageColor) -> (out:
    PixelGrid)
    requires
        source.wf(),
        is_partition(ranges@, source@.height),
    ensures
        out.wf(),
        out@ == recolored_grid(source@, average),
{
    let mut bytes: Vec<u8> = slice_to_vec(source.as_bytes());
    let mut i: usize = 0;
    let ghost mut done: int = 0;
    while i < ranges.len()
        invariant
            source.wf(),
            is_partition(ranges@, source@.height),
            i <= ranges@.len() == ranges.len(),
            i < ranges@.len() ==> done == ranges@[i as int].start * source@.width * 4,
            i == ranges@.len() ==> done == source@.pixels.len(),
            bytes@ == recolored_span(source@.pixels, source@.pixels, 0, done, average),
        decreases ranges.len() - i,
    {
        let range: RowRange = ranges[i];
        proof {
            lemma_chain_bounds(ranges@, source@.height, i as int);
            lemma_row_offsets(source@, range.start as int, range.end as int);
        }
        fix_rows(source, range, bytes.as_mut_slice(), average);
        proof {
            let hi = range.end * source@.width * 4;
            if i + 1 < ranges@.len() {
                assert(ranges@[i as int].end == ranges@[i + 1].start);
            } else {
                assert(hi == source@.pixels.len()) by (nonlinear_arith)
                    requires
                        hi == range.end * source@.width * 4,
                        range.end == source@.height,
                        source@.pixels.len() == source@.width * source@.height * 4,
                ;
            }
            assert(bytes@ =~= recolored_span(source@.pixels, source@.pixels, 0, hi, average));
            done = hi;
        }
        i = i + 1;
    }
    PixelGrid::from_raw(source.width(), source.height(), bytes).unwrap()
}

/// Two workers may run in either order: each reads only the source, never
/// what the other has written, so the buffer ends up the same.
pub proof fn lemma_fix_order(
    reference: Seq<u8>,
    target: Seq<u8>,
    first: (int, int),
    second: (int, int),
    average: AverageColor,
)
    ensures
        recolored_span(
            reference,
            recolored_span(reference, target, first.0, first.1, average),
            second.0,
            second.1,
            average,
        ) == recolored_span(
            reference,
            recolored_span(reference, target, second.0, second.1, average),
            first.0,
            first.1,
            average,
        ),
{
    let one = recolored_span(reference, target, first.0, first.1, average);
    let other = recolored_span(reference, target, second.0, second.1, average);
    assert(recolored_span(reference, one, second.0, second.1, average) =~= recolored_span(
        reference,
        other,
        first.0,
        first.1,
        average,
    ));
}

/// The rows that the worker of `range` writes in: those of its rows in
/// which `g` has a fully transparent pixel.
pub open spec fn rows_written(g: GridModel, range: RowRange) -> Set<int> {
    Set::new(
        |y: int|
            range.contains(y) && exists|x: int|
                0 <= x < g.width && !(#[trigger] g.pixel(x, y)).opaque(),
    )
}

/// A byte that the worker of `range` changes in a buffer lies in one of
/// the rows that it writes in.
pub proof fn lemma_changes_in_rows_written(
    g: GridModel,
    target: Seq<u8>,
    range: RowRange,
    average: AverageColor,
    j: int,
)
    requires
        g.wf(),
        target.len() == g.pixels.len(),
        range.start <= range.end <= g.height,
        0 <= j < target.len(),
        recolored_span(
            g.pixels,
            target,
            range.start * g.width * 4,
            range.end * g.width * 4,
            average,
        )[j] != target[j],
    ensures
        g.width > 0,
        rows_written(g, range).contains(j / (4 * g.width)),
{
    let w = g.width;
    let lo = range.start * w * 4;
    let hi = range.end * w * 4;
    assert(lo <= j < hi);
    assert(w > 0) by (nonlinear_arith)
        requires
            range.start * w * 4 < range.end * w * 4,
            0 <= w,
    ;
    lemma_row_offsets(g, range.start as int, range.end as int);
    let y = j / (4 * w);
    let k = j / 4;
    let x = k - y * w;
    assert(range.start <= y < range.end && 0 <= x < w && k == y * w + x) by (nonlinear_arith)
        requires
            w > 0,
            0 <= range.start * w * 4 <= j < range.end * w * 4,
            y == j / (4 * w),
            k == j / 4,
            x == k - y * w,
    ;
    assert(j - j % 4 + 3 == 4 * k + 3);
    assert(g.index_of(x, y) == k);
    assert(!g.pixel(x, y).opaque());
}

/// No row is written in by two different workers.
pub proof fn lemma_workers_write_apart(g: GridModel, workers: int, i: int, j: int)
    requires
        g.wf(),
        workers >= 1,
        0 <= i < workers,
        0 <= j < workers,
        i != j,
    ensures
        rows_written(g, partition(g.height, workers)[i]).disjoint(
            rows_written(g, partition(g.height, workers)[j]),
        ),
{
    lemma_partition_disjoint(g.height, workers);
    let p = partition(g.height, workers);
    assert forall|y: int| rows_written(g, p[i]).contains(y) implies !rows_written(g, p[j]).contains(
        y,
    ) by {
        assert(p[i].contains(y));
        if p[j].contains(y) {
            assert(false);
        }
    }
}

} // verus!
