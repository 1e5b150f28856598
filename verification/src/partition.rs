//! Splitting the rows of an image among workers.

use vstd::prelude::*;
use vstd::arithmetic::div_mod::{
    lemma_div_is_ordered, lemma_div_multiples_vanish, lemma_fundamental_div_mod,
    lemma_mod_pos_bound,
};

verus! {

/// A half-open span of image rows, `[start, end)`, assigned to one worker.
#[derive(Clone, Copy, Debug, PartialEq, Eq, Structural)]
pub struct RowRange {
    pub start: u32,
    pub end: u32,
}

impl RowRange {
    /// Whether row `y` lies in this range.
    pub open spec fn contains(self, y: int) -> bool {
        self.start <= y < self.end
    }

    /// How many rows the range spans.
    pub open spec fn rows(self) -> int {
        self.end - self.start
    }

    /// The number of rows in the range; a range that ends before it starts
    /// holds none.
    pub fn len(&self) -> (n: u32)
        ensures
            n == if self.start <= self.end { self.rows() } else { 0 },
    {
        if self.start <= self.end {
            self.end - self.start
        } else {
            0
        }
    }

    /// Whether the range holds no row at all.
    pub fn is_empty(&self) -> (b: bool)
        ensures
            b <==> forall|y: int| !self.contains(y),
    {
        let b = self.start >= self.end;
        proof {
            if !b {
                assert(self.contains(self.start as int));
            }
        }
        b
    }
}

/// The row at which the share of worker `i` begins when `height` rows are
/// split among `workers` workers: `floor(height * i / workers)`.
pub open spec fn boundary(height: int, workers: int, i: int) -> int {
    (height * i) / workers
}

/// The share of worker `i`: from its own boundary up to the next one.
pub open spec fn share(height: int, workers: int, i: int) -> RowRange {
    RowRange {
        start: boundary(height, workers, i) as u32,
        end: boundary(height, workers, i + 1) as u32,
    }
}

/// The ranges that `height` rows are split into for `workers` workers, in
/// row order.
pub open spec fn partition(height: int, workers: int) -> Seq<RowRange> {
    Seq::new(workers as nat, |i: int| share(height, workers, i))
}

/// The ranges follow one another without gap or overlap, from row 0 to
/// row `height`.
pub open spec fn is_partition(ranges: Seq<RowRange>, height: int) -> bool {
    &&& ranges.len() >= 1
    &&& ranges[0].start == 0
    &&& ranges[ranges.len() - 1].end == height
    &&& forall|i: int| 0 <= i < ranges.len() ==> (#[trigger] ranges[i]).start <= ranges[i].end
    &&& forall|i: int|
        0 <= i < ranges.len() - 1 ==> (#[trigger] ranges[i]).end == ranges[i + 1].start
}

/// Boundaries never decrease, the first is 0 and the last is `height`.
pub proof fn lemma_boundary_bounds(height: int, workers: int, i: int)
    requires
        0 <= height,
        1 <= workers,
        0 <= i < workers,
    ensures
        boundary(height, workers, 0) == 0,
        boundary(height, workers, workers) == height,
        0 <= boundary(height, workers, i) <= boundary(height, workers, i + 1) <= height,
{
    assert(height * 0 == 0);
    assert(0 <= height * i <= height * (i + 1) <= height * workers) by (nonlinear_arith)
        requires
            0 <= height,
            0 <= i < workers,
    ;
    lemma_div_multiples_vanish(height, workers);
    assert(height * workers == workers * height) by (nonlinear_arith);
    lemma_div_is_ordered(0, height * i, workers);
    lemma_div_is_ordered(height * i, height * (i + 1), workers);
    lemma_div_is_ordered(height * (i + 1), height * workers, workers);
}

/// Splits the rows `[0, height)` among `workers` workers.
///
/// Worker `i` gets the rows from `floor(height * i / workers)` up to
/// `floor(height * (i + 1) / workers)`; the last worker's range ends at
/// `height`. With fewer rows than workers some ranges are empty.
pub fn partition_rows(height: u32, workers: u32) -> (ranges: Vec<RowRange>)
    requires
        workers >= 1,
    ensures
        ranges@ == partition(height as int, workers as int),
        is_partition(ranges@, height as int),
{
    let mut ranges: Vec<RowRange> = Vec::new();
    let mut i: u32 = 0;
    let mut start: u32 = 0;
    proof {
        lemma_boundary_bounds(height as int, workers as int, 0);
    }
    while i < workers
        invariant
            workers >= 1,
            i <= workers,
            ranges@.len() == i,
            start == boundary(height as int, workers as int, i as int),
            forall|k: int| 0 <= k < i ==> ranges@[k] == share(height as int, workers as int, k),
        decreases workers - i,
    {
        proof {
            lemma_boundary_bounds(height as int, workers as int, i as int);
        }
        let end: u32 = if i == workers - 1 {
            height
        } else {
            assert(height * (i + 1) <= u64::MAX) by (nonlinear_arith)
                requires
                    height <= u32::MAX,
                    i + 1 <= u32::MAX,
            ;
            let scaled: u64 = (height as u64) * ((i + 1) as u64);
            (scaled / (workers as u64)) as u32
        };
        ranges.push(RowRange { start, end });
        start = end;
        i = i + 1;
    }
    proof {
        assert(ranges@ =~= partition(height as int, workers as int));
        lemma_partition_is_chain(height as int, workers as int);
    }
    ranges
}

/// The ranges of `partition` follow one another from row 0 to row `height`.
pub proof fn lemma_partition_is_chain(height: int, workers: int)
    requires
        0 <= height <= u32::MAX,
        1 <= workers,
    ensures
        is_partition(partition(height, workers), height),
{
    let p = partition(height, workers);
    lemma_boundary_bounds(height, workers, 0);
    lemma_boundary_bounds(height, workers, workers - 1);
    assert forall|i: int| 0 <= i < p.len() implies (#[trigger] p[i]).start <= p[i].end by {
        lemma_boundary_bounds(height, workers, i);
    }
    assert forall|i: int| 0 <= i < p.len() - 1 implies (#[trigger] p[i]).end == p[i + 1].start by {
        lemma_boundary_bounds(height, workers, i);
    }
}

/// In a chain of ranges, a later range starts where an earlier one has
/// ended, or further on.
pub proof fn lemma_chain_ordered(ranges: Seq<RowRange>, height: int, i: int, j: int)
    requires
        is_partition(ranges, height),
        0 <= i < j < ranges.len(),
    ensures
        ranges[i].end <= ranges[j].start,
    decreases j - i,
{
    if i + 1 < j {
        lemma_chain_ordered(ranges, height, i, j - 1);
        assert(ranges[j - 1].start <= ranges[j - 1].end);
        assert(ranges[j - 1].end == ranges[j].start);
    } else {
        assert(ranges[i].end == ranges[i + 1].start);
    }
}

/// In a chain of ranges over `[0, height)` no range reaches past `height`.
pub proof fn lemma_chain_bounds(ranges: Seq<RowRange>, height: int, i: int)
    requires
        is_partition(ranges, height),
        0 <= i < ranges.len(),
    ensures
        0 <= ranges[i].start <= ranges[i].end <= height,
{
    assert(ranges[i].start <= ranges[i].end);
    if i < ranges.len() - 1 {
        lemma_chain_ordered(ranges, height, i, ranges.len() - 1);
        assert(ranges[ranges.len() - 1].start <= ranges[ranges.len() - 1].end);
    }
}

/// In a chain of ranges over `[0, height)`, every row below `height` lies
/// in some range at or after any range that starts at or before it.
pub proof fn lemma_chain_locate(ranges: Seq<RowRange>, height: int, y: int, from: int) -> (i: int)
    requires
        is_partition(ranges, height),
        0 <= from < ranges.len(),
        ranges[from].start <= y < height,
    ensures
        from <= i < ranges.len(),
        ranges[i].contains(y),
    decreases ranges.len() - from,
{
    if y < ranges[from].end {
        from
    } else {
        assert(from < ranges.len() - 1);
        assert(ranges[from].end == ranges[from + 1].start);
        lemma_chain_locate(ranges, height, y, from + 1)
    }
}

/// Whether some range of `ranges` holds row `y`.
pub open spec fn covers(ranges: Seq<RowRange>, y: int) -> bool {
    exists|i: int| 0 <= i < ranges.len() && #[trigger] ranges[i].contains(y)
}

/// The ranges made for `workers` workers cover the rows `[0, height)` and
/// nothing else: a row lies in one of them exactly if it is below `height`.
pub proof fn lemma_partition_covers(height: int, workers: int)
    requires
        0 <= height <= u32::MAX,
        1 <= workers,
    ensures
        forall|y: int| #[trigger] covers(partition(height, workers), y) <==> 0 <= y < height,
{
    let p = partition(height, workers);
    lemma_partition_is_chain(height, workers);
    assert forall|y: int| #[trigger] covers(p, y) <==> 0 <= y < height by {
        if 0 <= y < height {
            let i = lemma_chain_locate(p, height, y, 0);
            assert(p[i].contains(y));
        }
        if covers(p, y) {
            let i = choose|i: int| 0 <= i < p.len() && #[trigger] p[i].contains(y);
            lemma_boundary_bounds(height, workers, i);
        }
    }
}

/// No row lies in the ranges of two different workers.
pub proof fn lemma_partition_disjoint(height: int, workers: int)
    requires
        0 <= height <= u32::MAX,
        1 <= workers,
    ensures
        forall|i: int, j: int, y: int|
            0 <= i < workers && 0 <= j < workers && i != j ==> !(#[trigger] partition(
                height,
                workers,
            )[i].contains(y) && #[trigger] partition(height, workers)[j].contains(y)),
{
    let p = partition(height, workers);
    lemma_partition_is_chain(height, workers);
    assert forall|i: int, j: int, y: int| 0 <= i < workers && 0 <= j < workers && i != j implies !(
    #[trigger] p[i].contains(y) && #[trigger] p[j].contains(y)) by {
        if i < j {
            lemma_chain_ordered(p, height, i, j);
        } else {
            lemma_chain_ordered(p, height, j, i);
        }
    }
}

/// `workers` times the size of any one share lies strictly between
/// `height - workers` and `height + workers`.
proof fn lemma_share_size(height: int, workers: int, i: int)
    requires
        0 <= height <= u32::MAX,
        1 <= workers,
        0 <= i < workers,
    ensures
        share(height, workers, i).rows() == boundary(height, workers, i + 1) - boundary(
            height,
            workers,
            i,
        ),
        height - workers < workers * share(height, workers, i).rows() < height + workers,
{
    lemma_boundary_bounds(height, workers, i);
    let lo = boundary(height, workers, i);
    let hi = boundary(height, workers, i + 1);
    lemma_fundamental_div_mod(height * i, workers);
    lemma_fundamental_div_mod(height * (i + 1), workers);
    lemma_mod_pos_bound(height * i, workers);
    lemma_mod_pos_bound(height * (i + 1), workers);
    let rlo = (height * i) % workers;
    let rhi = (height * (i + 1)) % workers;
    assert(height - workers < workers * (hi - lo) < height + workers) by (nonlinear_arith)
        requires
            height * i == workers * lo + rlo,
            height * (i + 1) == workers * hi + rhi,
            0 <= rlo < workers,
            0 <= rhi < workers,
    ;
}

/// The sizes of any two ranges made for `workers` workers differ by at most
/// one row.
pub proof fn lemma_partition_balanced(height: int, workers: int)
    requires
        0 <= height <= u32::MAX,
        1 <= workers,
    ensures
        forall|i: int, j: int|
            0 <= i < workers && 0 <= j < workers ==> #[trigger] partition(height, workers)[i].rows()
                <= #[trigger] partition(height, workers)[j].rows() + 1,
{
    let p = partition(height, workers);
    assert forall|i: int, j: int| 0 <= i < workers && 0 <= j < workers implies #[trigger] p[i].rows()
        <= #[trigger] p[j].rows() + 1 by {
        lemma_share_size(height, workers, i);
        lemma_share_size(height, workers, j);
        let a = p[i].rows();
        let b = p[j].rows();
        assert(a <= b + 1) by (nonlinear_arith)
            requires
                1 <= workers,
                workers * a < height + workers,
                height - workers < workers * b,
        ;
    }
}

/// With at least as many rows as workers, every worker gets a row.
pub proof fn lemma_partition_nonempty(height: int, workers: int)
    requires
        0 <= height <= u32::MAX,
        1 <= workers <= height,
    ensures
        forall|i: int| 0 <= i < workers ==> #[trigger] partition(height, workers)[i].rows() >= 1,
{
    let p = partition(height, workers);
    assert forall|i: int| 0 <= i < workers implies #[trigger] p[i].rows() >= 1 by {
        lemma_share_size(height, workers, i);
        let a = p[i].rows();
        assert(a >= 1) by (nonlinear_arith)
            requires
                1 <= workers <= height,
                height - workers < workers * a,
        ;
    }
}

} // verus!
