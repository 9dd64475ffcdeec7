//! The date-range engine: descending, contiguous, fixed-width windows.
use vstd::prelude::*;

use crate::date::{day_count, Date};

verus! {

/// Calculates the date ranges according to the parameters.
/// For example when `range_size == 30`, `iters == 3` and `from_date` is today,
/// the result is a 3-element vector containing ranges of the last 30 days,
/// the 30 days before that, and the 30 days before the latter one.
///
/// Each returned pair holds the later bound first; window `i` spans
/// `[from_date - i*range_size - (range_size - 1), from_date - i*range_size]`,
/// both ends inclusive. The windows are exactly `iters` many, each exactly
/// `range_size` days wide, strictly descending and contiguous: no gaps and
/// no overlaps.
pub fn get_date_ranges(from_date: Date, range_size: usize, iters: usize) -> (r: Vec<(Date, Date)>)
    requires
        from_date.valid(),
        range_size >= 1,
        range_size * iters <= from_date@ + 1,
    ensures
        r.len() == iters,
        forall|i: int|
            0 <= i < iters ==> (#[trigger] r[i]).0@ == from_date@ - i * range_size,
        forall|i: int|
            0 <= i < iters ==> (#[trigger] r[i]).1@ == from_date@ - i * range_size - (range_size
                - 1),
        forall|i: int| 0 <= i < iters ==> (#[trigger] r[i]).0.valid() && r[i].1.valid(),
        // each window is exactly `range_size` days wide
        forall|i: int| 0 <= i < iters ==> (#[trigger] r[i]).0@ - r[i].1@ == range_size - 1,
        // descending and contiguous: the next window ends right below this one
        forall|i: int| 0 <= i && i + 1 < iters ==> (#[trigger] r[i + 1]).0@ == r[i].1@ - 1,
{
    let mut r: Vec<(Date, Date)> = Vec::new();
    let mut i: usize = 0;
    while i < iters
        invariant
            0 <= i <= iters,
            from_date.valid(),
            range_size >= 1,
            range_size * iters <= from_date@ + 1,
            r.len() == i,
            forall|j: int|
                0 <= j < i ==> (#[trigger] r[j]).0@ == from_date@ - j * range_size,
            forall|j: int|
                0 <= j < i ==> (#[trigger] r[j]).1@ == from_date@ - j * range_size - (range_size
                    - 1),
            forall|j: int| 0 <= j < i ==> (#[trigger] r[j]).0.valid() && r[j].1.valid(),
        decreases iters - i,
    {
        proof {
            crate::date::lemma_days_before_year_bounds(10000);
            assert((i + 1) * range_size <= iters * range_size) by (nonlinear_arith)
                requires
                    i + 1 <= iters,
                    range_size >= 0,
            ;
            assert((i + 1) * range_size == i * range_size + range_size) by (nonlinear_arith);
            assert(i * range_size >= 0) by (nonlinear_arith)
                requires
                    i >= 0,
                    range_size >= 0,
            ;
            assert(i * range_size + (range_size - 1) <= from_date@);
        }
        let start_offset: usize = i * range_size;
        let end_offset: usize = start_offset + (range_size - 1);
        let later = from_date.minus_days(start_offset as u32);
        let earlier = from_date.minus_days(end_offset as u32);
        r.push((later, earlier));
        i = i + 1;
    }
    proof {
        assert forall|i: int| 0 <= i && i + 1 < iters implies (#[trigger] r[i + 1]).0@ == r[i].1@
            - 1 by {
            assert((i + 1) * range_size == i * range_size + range_size) by (nonlinear_arith);
        }
    }
    r
}

/// Every day between the windows' overall bounds falls in exactly one window.
///
/// For any day `d` within the span that `get_date_ranges(from_date, range_size,
/// iters)` covers, there is exactly one window index whose bounds enclose `d`.
pub proof fn lemma_ranges_partition_days(
    r: Seq<(Date, Date)>,
    from: int,
    range_size: int,
    iters: int,
    d: int,
)
    requires
        range_size >= 1,
        iters >= 1,
        r.len() == iters,
        forall|i: int| 0 <= i < iters ==> (#[trigger] r[i]).0@ == from - i * range_size,
        forall|i: int|
            0 <= i < iters ==> (#[trigger] r[i]).1@ == from - i * range_size - (range_size - 1),
        from - iters * range_size < d <= from,
    ensures
        exists|i: int| 0 <= i < iters && (#[trigger] r[i]).1@ <= d <= r[i].0@,
        forall|i: int, j: int|
            0 <= i < iters && 0 <= j < iters && (#[trigger] r[i]).1@ <= d <= r[i].0@ && (
            #[trigger] r[j]).1@ <= d <= r[j].0@ ==> i == j,
{
    let i = (from - d) / range_size;
    assert(0 <= i < iters && r[i].1@ <= d <= r[i].0@) by (nonlinear_arith)
        requires
            range_size >= 1,
            iters >= 1,
            from - iters * range_size < d <= from,
            i == (from - d) / range_size,
            r.len() == iters,
            forall|k: int| 0 <= k < iters ==> (#[trigger] r[k]).0@ == from - k * range_size,
            forall|k: int|
                0 <= k < iters ==> (#[trigger] r[k]).1@ == from - k * range_size - (range_size
                    - 1),
    ;
    assert forall|i: int, j: int|
        0 <= i < iters && 0 <= j < iters && (#[trigger] r[i]).1@ <= d <= r[i].0@ && (
        #[trigger] r[j]).1@ <= d <= r[j].0@ implies i == j by {
        assert(i == j) by (nonlinear_arith)
            requires
                range_size >= 1,
                r[i].0@ == from - i * range_size,
                r[i].1@ == from - i * range_size - (range_size - 1),
                r[j].0@ == from - j * range_size,
                r[j].1@ == from - j * range_size - (range_size - 1),
                r[i].1@ <= d <= r[i].0@,
                r[j].1@ <= d <= r[j].0@,
        ;
    }
}

} // verus!
