//! The sums that the average color is made from: for each color channel
//! the sum over all opaque pixels, and the number of opaque pixels.

use vstd::prelude::*;
use crate::grid::{lemma_row_offsets, pixel_at, GridModel, Pixel, PixelGrid, MAX_PIXELS};
use crate::partition::{is_partition, lemma_chain_bounds, RowRange};

verus! {

/// Channel sums and a count of pixels, as plain numbers.
pub struct Totals {
    pub r: int,
    pub g: int,
    pub b: int,
    pub count: int,
}

impl Totals {
    /// Nothing counted yet.
    pub open spec fn zero() -> Totals {
        Totals { r: 0, g: 0, b: 0, count: 0 }
    }

    /// The two put together, field by field.
    pub open spec fn plus(self, other: Totals) -> Totals {
        Totals {
            r: self.r + other.r,
            g: self.g + other.g,
            b: self.b + other.b,
            count: self.count + other.count,
        }
    }

    /// What one pixel adds: its color and a count of one if it is opaque,
    /// nothing if it is fully transparent.
    pub open spec fn of_pixel(p: Pixel) -> Totals {
        if p.opaque() {
            Totals { r: p.r as int, g: p.g as int, b: p.b as int, count: 1 }
        } else {
            Totals::zero()
        }
    }
}

/// The totals over the pixels `lo`, `lo + 1`, ..., `hi - 1` of `bytes`.
pub open spec fn totals(bytes: Seq<u8>, lo: int, hi: int) -> Totals
    decreases hi - lo,
{
    if hi <= lo {
        Totals::zero()
    } else {
        totals(bytes, lo, hi - 1).plus(Totals::of_pixel(pixel_at(bytes, hi - 1)))
    }
}

/// The totals of a stretch of pixels are those of its two parts put
/// together, wherever it is cut.
pub proof fn lemma_totals_split(bytes: Seq<u8>, lo: int, mid: int, hi: int)
    requires
        lo <= mid <= hi,
    ensures
        totals(bytes, lo, hi) == totals(bytes, lo, mid).plus(totals(bytes, mid, hi)),
    decreases hi - mid,
{
    if mid < hi {
        lemma_totals_split(bytes, lo, mid, hi - 1);
    }
}

/// No more pixels are counted than there are, and no channel sum is more
/// than 255 for each pixel counted.
pub proof fn lemma_totals_bounds(bytes: Seq<u8>, lo: int, hi: int)
    requires
        lo <= hi,
    ensures
        0 <= totals(bytes, lo, hi).count <= hi - lo,
        0 <= totals(bytes, lo, hi).r <= 255 * totals(bytes, lo, hi).count,
        0 <= totals(bytes, lo, hi).g <= 255 * totals(bytes, lo, hi).count,
        0 <= totals(bytes, lo, hi).b <= 255 * totals(bytes, lo, hi).count,
    decreases hi - lo,
{
    if lo < hi {
        lemma_totals_bounds(bytes, lo, hi - 1);
    }
}

/// Nothing is counted exactly if every pixel of the stretch is fully
/// transparent.
pub proof fn lemma_count_zero(bytes: Seq<u8>, lo: int, hi: int)
    requires
        lo <= hi,
    ensures
        totals(bytes, lo, hi).count == 0 <==> forall|k: int|
            lo <= k < hi ==> !(#[trigger] pixel_at(bytes, k)).opaque(),
    decreases hi - lo,
{
    if lo < hi {
        lemma_count_zero(bytes, lo, hi - 1);
        lemma_totals_bounds(bytes, lo, hi - 1);
    }
}

/// What one worker has added up over its rows.
#[derive(Clone, Copy, Debug, PartialEq, Eq, Structural)]
pub struct PartialStats {
    pub sum_r: u64,
    pub sum_g: u64,
    pub sum_b: u64,
    pub opaque_count: u64,
}

impl View for PartialStats {
    type V = Totals;

    open spec fn view(&self) -> Totals {
        Totals {
            r: self.sum_r as int,
            g: self.sum_g as int,
            b: self.sum_b as int,
            count: self.opaque_count as int,
        }
    }
}

impl PartialStats {
    /// Whether the sums of `self` and `other` can be added up in 64 bits.
    pub open spec fn can_merge(self, other: PartialStats) -> bool {
        &&& self.sum_r + other.sum_r <= u64::MAX
        &&& self.sum_g + other.sum_g <= u64::MAX
        &&& self.sum_b + other.sum_b <= u64::MAX
        &&& self.opaque_count + other.opaque_count <= u64::MAX
    }

    /// The stats of a worker that has seen no pixel yet.
    pub fn new() -> (stats: PartialStats)
        ensures
            stats@ == Totals::zero(),
    {
        PartialStats { sum_r: 0, sum_g: 0, sum_b: 0, opaque_count: 0 }
    }

    /// Counts one more pixel: an opaque one adds its color and one to the
    /// count, a fully transparent one adds nothing.
    pub fn add_pixel(&mut self, pixel: Pixel)
        requires
            old(self).sum_r + Totals::of_pixel(pixel).r <= u64::MAX,
            old(self).sum_g + Totals::of_pixel(pixel).g <= u64::MAX,
            old(self).sum_b + Totals::of_pixel(pixel).b <= u64::MAX,
            old(self).opaque_count + Totals::of_pixel(pixel).count <= u64::MAX,
        ensures
            final(self)@ == old(self)@.plus(Totals::of_pixel(pixel)),
    {
        if pixel.is_opaque() {
            self.sum_r = self.sum_r + pixel.r as u64;
            self.sum_g = self.sum_g + pixel.g as u64;
            self.sum_b = self.sum_b + pixel.b as u64;
            self.opaque_count = self.opaque_count + 1;
        }
    }

    /// Adds what another worker has found to this accumulator.
    pub fn merge(&mut self, other: &PartialStats)
        requires
            old(self).can_merge(*other),
        ensures
            final(self)@ == old(self)@.plus(other@),
    {
        self.sum_r = self.sum_r + other.sum_r;
        self.sum_g = self.sum_g + other.sum_g;
        self.sum_b = self.sum_b + other.sum_b;
        self.opaque_count = self.opaque_count + other.opaque_count;
    }

    /// Adds what another worker has found to this accumulator if all four
    /// sums fit in 64 bits, and says whether they did; if not, the
    /// accumulator stays as it was.
    pub fn try_merge(&mut self, other: &PartialStats) -> (merged: bool)
        ensures
            merged == old(self).can_merge(*other),
            merged ==> final(self)@ == old(self)@.plus(other@),
            !merged ==> *final(self) == *old(self),
    {
        if self.sum_r > u64::MAX - other.sum_r || self.sum_g > u64::MAX - other.sum_g || self.sum_b
            > u64::MAX - other.sum_b || self.opaque_count > u64::MAX - other.opaque_count {
            return false;
        }
        self.merge(other);
        true
    }
}

/// Adds up the opaque pixels in the rows of `range`.
///
/// A pixel counts unless its alpha is exactly zero; one that is partly
/// transparent counts in full.
pub fn scan_rows(source: &PixelGrid, range: RowRange) -> (stats: PartialStats)
    requires
        source.wf(),
        range.start <= range.end <= source@.height,
    ensures
        stats@ == totals(
            source@.pixels,
            range.start * source@.width,
            range.end * source@.width,
        ),
{
    let bytes: &[u8] = source.as_bytes();
    let width: usize = source.width() as usize;
    proof {
        assert(bytes@.len() == bytes.len());
        lemma_row_offsets(source@, range.start as int, range.end as int);
    }
    let first: usize = (range.start as usize) * width;
    let end: usize = (range.end as usize) * width;
    let mut stats = PartialStats::new();
    let mut k: usize = first;
    while k < end
        invariant
            first <= k <= end,
            end * 4 <= bytes@.len() <= usize::MAX,
            end - first <= MAX_PIXELS,
            stats@ == totals(bytes@, first as int, k as int),
            stats.opaque_count <= k - first,
            stats.sum_r <= 255 * (k - first),
            stats.sum_g <= 255 * (k - first),
            stats.sum_b <= 255 * (k - first),
        decreases end - k,
    {
        let pixel = Pixel {
            r: bytes[4 * k],
            g: bytes[4 * k + 1],
            b: bytes[4 * k + 2],
            a: bytes[4 * k + 3],
        };
        stats.add_pixel(pixel);
        k = k + 1;
    }
    stats
}

/// What the workers of `ranges` find, each over its own rows of a grid
/// `width` pixels wide, merged one after another.
pub open spec fn merged(bytes: Seq<u8>, width: int, ranges: Seq<RowRange>) -> Totals
    decreases ranges.len(),
{
    if ranges.len() == 0 {
        Totals::zero()
    } else {
        merged(bytes, width, ranges.drop_last()).plus(
            totals(bytes, ranges.last().start * width, ranges.last().end * width),
        )
    }
}

/// The first `n` ranges of a chain, merged, give the totals of all pixels
/// above the row where range `n - 1` ends.
proof fn lemma_merged_prefix(g: GridModel, ranges: Seq<RowRange>, n: int)
    requires
        g.wf(),
        is_partition(ranges, g.height),
        1 <= n <= ranges.len(),
    ensures
        merged(g.pixels, g.width, ranges.take(n)) == totals(
            g.pixels,
            0,
            ranges[n - 1].end * g.width,
        ),
    decreases n,
{
    let head = ranges.take(n);
    let last = ranges[n - 1];
    assert(head.last() == last);
    assert(head.drop_last() =~= ranges.take(n - 1));
    assert(last.start <= last.end);
    lemma_chain_bounds(ranges, g.height, n - 1);
    lemma_row_offsets(g, last.start as int, last.end as int);
    if n == 1 {
        assert(last.start * g.width == 0) by (nonlinear_arith)
            requires
                last.start == 0,
        ;
        assert(merged(g.pixels, g.width, ranges.take(0)) == Totals::zero());
    } else {
        lemma_merged_prefix(g, ranges, n - 1);
        assert(ranges[n - 2].end == ranges[n - 1].start);
    }
    lemma_totals_split(g.pixels, 0, last.start * g.width, last.end * g.width);
}

/// However the rows of a grid are split into a chain of ranges, what the
/// workers find, merged, is the totals of the whole grid.
pub proof fn lemma_merged_is_whole(g: GridModel, ranges: Seq<RowRange>)
    requires
        g.wf(),
        is_partition(ranges, g.height),
    ensures
        merged(g.pixels, g.width, ranges) == totals(g.pixels, 0, g.pixel_count()),
{
    lemma_merged_prefix(g, ranges, ranges.len() as int);
    assert(ranges.take(ranges.len() as int) =~= ranges);
    assert(g.height * g.width == g.width * g.height) by (nonlinear_arith);
}

/// Taking one range out of the list takes out of the merged totals what
/// its worker finds.
proof fn lemma_merged_remove(bytes: Seq<u8>, width: int, ranges: Seq<RowRange>, k: int)
    requires
        0 <= k < ranges.len(),
    ensures
        merged(bytes, width, ranges) == merged(bytes, width, ranges.remove(k)).plus(
            totals(bytes, ranges[k].start * width, ranges[k].end * width),
        ),
    decreases ranges.len(),
{
    if k == ranges.len() - 1 {
        assert(ranges.remove(k) =~= ranges.drop_last());
    } else {
        lemma_merged_remove(bytes, width, ranges.drop_last(), k);
        assert(ranges.remove(k).last() == ranges.last());
        assert(ranges.remove(k).drop_last() =~= ranges.drop_last().remove(k));
    }
}

/// The merged totals do not depend on the order in which the workers
/// merge what they have found.
pub proof fn lemma_merge_order(
    bytes: Seq<u8>,
    width: int,
    first: Seq<RowRange>,
    second: Seq<RowRange>,
)
    requires
        first.to_multiset() == second.to_multiset(),
    ensures
        merged(bytes, width, first) == merged(bytes, width, second),
    decreases first.len(),
{
    first.to_multiset_ensures();
    second.to_multiset_ensures();
    if first.len() > 0 {
        let last = first.last();
        assert(first.contains(last));
        assert(first.to_multiset().count(last) > 0);
        assert(second.to_multiset().count(last) > 0);
        assert(second.contains(last));
        let k = choose|k: int| 0 <= k < second.len() && second[k] == last;
        assert(first.drop_last() =~= first.remove(first.len() - 1));
        assert(first.remove(first.len() - 1).to_multiset() =~= first.to_multiset().remove(last));
        assert(second.remove(k).to_multiset() =~= second.to_multiset().remove(last));
        lemma_merge_order(bytes, width, first.drop_last(), second.remove(k));
        lemma_merged_remove(bytes, width, second, k);
    } else {
        assert(second.len() == 0);
    }
}

/// Runs one worker over each range, one after another, and merges what
/// they find.
pub fn aggregate(source: &PixelGrid, ranges: &[RowRange]) -> (total: PartialStats)
    requires
        source.wf(),
        is_partition(ranges@, source@.height),
    ensures
        total@ == merged(source@.pixels, source@.width, ranges@),
        total@ == totals(source@.pixels, 0, source@.pixel_count()),
{
    let mut total = PartialStats::new();
    let mut i: usize = 0;
    assert(ranges@.take(0) =~= Seq::<RowRange>::empty());
    while i < ranges.len()
        invariant
            source.wf(),
            is_partition(ranges@, source@.height),
            i <= ranges@.len() == ranges.len(),
            total@ == merged(source@.pixels, source@.width, ranges@.take(i as int)),
        decreases ranges.len() - i,
    {
        let range: RowRange = ranges[i];
        proof {
            let g = source@;
            lemma_chain_bounds(ranges@, g.height, i as int);
            lemma_merged_prefix(g, ranges@, i + 1);
            if i > 0 {
                lemma_merged_prefix(g, ranges@, i as int);
            }
            lemma_row_offsets(g, 0, range.end as int);
            lemma_totals_bounds(g.pixels, 0, range.end * g.width);
            assert(ranges@.take(i + 1).drop_last() =~= ranges@.take(i as int));
        }
        let found = scan_rows(source, range);
        total.merge(&found);
        i = i + 1;
    }
    proof {
        assert(ranges@.take(i as int) =~= ranges@);
        lemma_merged_is_whole(source@, ranges@);
    }
    total
}

} // verus!
