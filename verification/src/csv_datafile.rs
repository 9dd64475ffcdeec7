//! The flat-file diary backend: a complete in-memory image of a
//! comma-delimited data file, ordered by date.
use vstd::prelude::*;

use crate::datafile::{missing_days, DataError, SuccessfulUpdate};
use crate::date::{day_count, Date};

verus! {

/// One tracked day: its date and one flag per header category.
#[derive(Debug)]
pub struct DayRow {
    pub date: Date,
    pub values: Vec<bool>,
}

/// A complete in-memory representation of a flat diary file: the category
/// names of the header, and one row per tracked date, strictly ascending.
#[derive(Debug)]
pub struct DiaryDataCsv {
    pub header: Vec<String>,
    pub rows: Vec<DayRow>,
}

/// A usable category name: at least one byte, and none of the bytes that
/// structure the file (the delimiter and line breaks). Multi-byte characters
/// are harmless: their UTF-8 bytes never collide with ASCII bytes.
pub open spec fn valid_name(s: Seq<char>) -> bool {
    let b = vstd::utf8::encode_utf8(s);
    &&& b.len() > 0
    &&& forall|i: int| 0 <= i < b.len() ==> #[trigger] b[i] != 44u8 && b[i] != 10u8 && b[i] != 13u8
}

/// Rows are strictly ascending by date.
pub open spec fn rows_sorted(s: Seq<DayRow>) -> bool {
    forall|i: int, j: int| 0 <= i < j < s.len() ==> s[i].date@ < s[j].date@
}

/// Rows are sorted, within the supported years, and as wide as the header.
pub open spec fn rows_wf(s: Seq<DayRow>, width: int) -> bool {
    &&& rows_sorted(s)
    &&& forall|i: int| 0 <= i < s.len() ==> (#[trigger] s[i]).values@.len() == width
    &&& forall|i: int| 0 <= i < s.len() ==> (#[trigger] s[i]).date.valid()
}

/// Whether some row carries day number `day`.
pub open spec fn has_day(s: Seq<DayRow>, day: int) -> bool {
    exists|i: int| 0 <= i < s.len() && s[i].date@ == day
}

/// The index of the row carrying `day` (unique when the rows are sorted).
pub open spec fn day_index(s: Seq<DayRow>, day: int) -> int {
    choose|i: int| 0 <= i < s.len() && s[i].date@ == day
}

/// The flag vector stored for `day`.
pub open spec fn row_of(s: Seq<DayRow>, day: int) -> Seq<bool> {
    s[day_index(s, day)].values@
}

impl DiaryDataCsv {
    /// The structural invariant of the flat-file image.
    pub open spec fn wf(self) -> bool {
        &&& self.header@.len() >= 1
        &&& forall|i: int| 0 <= i < self.header@.len() ==> valid_name(#[trigger] self.header@[i]@)
        &&& rows_wf(self.rows@, self.header@.len() as int)
    }

    /// The list of habit names tracked by the diary.
    pub fn get_header(&self) -> (r: &Vec<String>)
        ensures
            r == &self.header,
    {
        &self.header
    }

    /// Whether the diary holds any tracked date.
    pub fn is_empty(&self) -> (r: bool)
        ensures
            r <==> self.rows@.len() == 0,
    {
        self.rows.len() == 0
    }

    /// The habit data for a particular date, if that date is tracked.
    pub fn get_row(&self, date: Date) -> (r: Option<Vec<bool>>)
        requires
            self.wf(),
        ensures
            r is Some <==> has_day(self.rows@, date@),
            r is Some ==> r.unwrap()@ == row_of(self.rows@, date@),
    {
        let mut i: usize = 0;
        while i < self.rows.len()
            invariant
                self.wf(),
                0 <= i <= self.rows@.len(),
                forall|j: int| 0 <= j < i ==> (#[trigger] self.rows@[j]).date@ != date@,
            decreases self.rows@.len() - i,
        {
            if self.rows[i].date.eq_date(date) {
                let v = copy_bools(&self.rows[i].values);
                proof {
                    assert(has_day(self.rows@, date@));
                    lemma_day_index_unique(self.rows@, date@, i as int);
                }
                return Some(v);
            }
            i = i + 1;
        }
        None
    }

    /// The earliest and latest tracked date; an error when the diary is empty.
    pub fn get_date_range(&self) -> (r: Result<(Date, Date), DataError>)
        requires
            self.wf(),
        ensures
            self.rows@.len() == 0 ==> r == Result::<(Date, Date), DataError>::Err(
                DataError::EmptyDiary,
            ),
            self.rows@.len() > 0 ==> {
                &&& r is Ok
                &&& r.unwrap().0 == self.rows@[0].date
                &&& r.unwrap().1 == self.rows@[self.rows@.len() - 1].date
                &&& forall|i: int|
                    0 <= i < self.rows@.len() ==> r.unwrap().0@ <= (#[trigger] self.rows@[i]).date@
                        <= r.unwrap().1@
            },
    {
        if self.rows.len() == 0 {
            return Err(DataError::EmptyDiary);
        }
        Ok((self.rows[0].date, self.rows[self.rows.len() - 1].date))
    }

    /// Replaces or adds the row of `date`; reports which of the two happened.
    /// A row of the wrong width is rejected and nothing changes.
    pub fn update_data(&mut self, date: Date, new_row: &Vec<bool>) -> (r: Result<
        SuccessfulUpdate,
        DataError,
    >)
        requires
            old(self).wf(),
            date.valid(),
        ensures
            final(self).header == old(self).header,
            new_row@.len() != old(self).header@.len() ==> {
                &&& r == Result::<SuccessfulUpdate, DataError>::Err(
                    DataError::UpdateWidthMismatch {
                        expected: old(self).header.len(),
                        found: new_row.len(),
                    },
                )
                &&& *final(self) == *old(self)
            },
            new_row@.len() == old(self).header@.len() ==> {
                &&& final(self).wf()
                &&& r is Ok
                &&& (r.unwrap() == SuccessfulUpdate::AddedNew <==> !has_day(
                    old(self).rows@,
                    date@,
                ))
                &&& (r.unwrap() == SuccessfulUpdate::ReplacedExisting <==> has_day(
                    old(self).rows@,
                    date@,
                ))
                &&& has_day(final(self).rows@, date@)
                &&& row_of(final(self).rows@, date@) == new_row@
                &&& forall|d: int|
                    d != date@ ==> (has_day(final(self).rows@, d) <==> has_day(old(self).rows@, d))
                &&& forall|d: int|
                    d != date@ && has_day(old(self).rows@, d) ==> row_of(final(self).rows@, d) == row_of(
                        old(self).rows@,
                        d,
                    )
            },
    {
        if new_row.len() != self.header.len() {
            return Err(DataError::UpdateWidthMismatch {
                expected: self.header.len(),
                found: new_row.len(),
            });
        }
        let mut i: usize = 0;
        while i < self.rows.len() && self.rows[i].date.lt(date)
            invariant
                0 <= i <= self.rows@.len(),
                forall|j: int| 0 <= j < i ==> (#[trigger] self.rows@[j]).date@ < date@,
            decreases self.rows@.len() - i,
        {
            i = i + 1;
        }
        let values = copy_bools(new_row);
        if i < self.rows.len() && self.rows[i].date.eq_date(date) {
            proof {
                assert(has_day(self.rows@, date@));
            }
            self.rows[i] = DayRow { date, values };
            proof {
                lemma_rows_update_effect(old(self).rows@, self.rows@, i as int, date@, new_row@);
                assert forall|k: int| 0 <= k < self.rows@.len() implies (#[trigger] self.rows@[k]).values@.len()
                    == self.header@.len() && self.rows@[k].date.valid() by {
                    if k != i {
                        assert(self.rows@[k] == old(self).rows@[k]);
                    }
                }
            }
            Ok(SuccessfulUpdate::ReplacedExisting)
        } else {
            proof {
                assert forall|j: int| 0 <= j < old(self).rows@.len() implies (#[trigger] old(
                    self,
                ).rows@[j]).date@ != date@ by {
                    if j >= i {
                        assert(old(self).rows@[i as int].date@ <= old(self).rows@[j].date@);
                    }
                }
                assert(!has_day(self.rows@, date@));
            }
            self.rows.insert(i, DayRow { date, values });
            proof {
                assert forall|j: int| i <= j < old(self).rows@.len() implies (#[trigger] old(
                    self,
                ).rows@[j]).date@ > date@ by {
                    assert(old(self).rows@[j].date@ != date@);
                    if j > i {
                        assert(old(self).rows@[i as int].date@ < old(self).rows@[j].date@);
                        assert(old(self).rows@[i as int].date@ >= date@);
                    }
                }
                lemma_rows_insert_effect(old(self).rows@, self.rows@, i as int, date@, new_row@);
                assert forall|k: int| 0 <= k < self.rows@.len() implies (#[trigger] self.rows@[k]).values@.len()
                    == self.header@.len() && self.rows@[k].date.valid() by {
                    if k < i {
                        assert(self.rows@[k] == old(self).rows@[k]);
                    } else if k > i {
                        assert(self.rows@[k] == old(self).rows@[k - 1]);
                    }
                }
            }
            Ok(SuccessfulUpdate::AddedNew)
        }
    }
}

/// Occurrences of category `cat` among the rows dated within `[lo, hi]`.
pub open spec fn count_in_range(s: Seq<DayRow>, cat: int, lo: int, hi: int) -> nat
    decreases s.len(),
{
    if s.len() == 0 {
        0
    } else {
        count_in_range(s.drop_last(), cat, lo, hi) + (if lo <= s.last().date@ <= hi && 0 <= cat
            < s.last().values@.len() && s.last().values@[cat] {
            1nat
        } else {
            0nat
        })
    }
}

pub proof fn lemma_count_in_range_le_len(s: Seq<DayRow>, cat: int, lo: int, hi: int)
    ensures
        count_in_range(s, cat, lo, hi) <= s.len(),
    decreases s.len(),
{
    if s.len() > 0 {
        lemma_count_in_range_le_len(s.drop_last(), cat, lo, hi);
    }
}

/// Whether some batch item carries day number `d`.
pub open spec fn batch_has(items: Seq<DayRow>, d: int) -> bool {
    exists|k: int| 0 <= k < items.len() && items[k].date@ == d
}

/// The values of the last batch item carrying day number `d`.
pub open spec fn batch_last(items: Seq<DayRow>, d: int) -> Seq<bool>
    decreases items.len(),
{
    if items.len() == 0 {
        Seq::empty()
    } else if items.last().date@ == d {
        items.last().values@
    } else {
        batch_last(items.drop_last(), d)
    }
}

/// The index of the first batch item whose width disagrees with the header,
/// or the batch's length when every width matches.
pub open spec fn first_width_mismatch(items: Seq<DayRow>, width: int) -> int
    decreases items.len(),
{
    if items.len() == 0 {
        0
    } else if items.first().values@.len() != width {
        0
    } else {
        1 + first_width_mismatch(items.drop_first(), width)
    }
}

pub proof fn lemma_first_width_mismatch(items: Seq<DayRow>, width: int)
    ensures
        0 <= first_width_mismatch(items, width) <= items.len(),
        first_width_mismatch(items, width) < items.len() ==> items[first_width_mismatch(
            items,
            width,
        )].values@.len() != width,
        forall|j: int|
            0 <= j < first_width_mismatch(items, width) ==> (#[trigger] items[j]).values@.len()
                == width,
    decreases items.len(),
{
    if items.len() > 0 && items.first().values@.len() == width {
        lemma_first_width_mismatch(items.drop_first(), width);
        assert forall|j: int| 0 <= j < first_width_mismatch(items, width) implies (
        #[trigger] items[j]).values@.len() == width by {
            if j >= 1 {
                assert(items.drop_first()[j - 1] == items[j]);
            }
        }
    }
}

impl DiaryDataCsv {
    /// Applies `update_data` for every item in order, stopping at the first
    /// item whose width does not match the header. Later items overwrite
    /// earlier ones with the same date; on an error exactly the items before
    /// the offending one stay applied (the caller decides whether to
    /// persist).
    pub fn update_data_batch(&mut self, items: &Vec<DayRow>) -> (r: Result<(), DataError>)
        requires
            old(self).wf(),
            forall|k: int| 0 <= k < items@.len() ==> (#[trigger] items@[k]).date.valid(),
        ensures
            final(self).header == old(self).header,
            final(self).wf(),
            (r is Ok <==> forall|k: int|
                0 <= k < items@.len() ==> (#[trigger] items@[k]).values@.len()
                    == old(self).header@.len()),
            r is Ok ==> {
                &&& forall|d: int|
                    #![trigger has_day(final(self).rows@, d)]
                    has_day(final(self).rows@, d) <==> (has_day(old(self).rows@, d) || batch_has(
                        items@,
                        d,
                    ))
                &&& forall|d: int|
                    batch_has(items@, d) ==> row_of(final(self).rows@, d) == batch_last(items@, d)
                &&& forall|d: int|
                    !batch_has(items@, d) && has_day(old(self).rows@, d) ==> row_of(
                        final(self).rows@,
                        d,
                    ) == row_of(old(self).rows@, d)
            },
            r is Err ==> ({
                let fm = first_width_mismatch(items@, old(self).header@.len() as int);
                let applied = items@.take(fm);
                &&& 0 <= fm < items@.len()
                &&& r == Result::<(), DataError>::Err(
                    DataError::UpdateWidthMismatch {
                        expected: old(self).header.len(),
                        found: items@[fm].values.len(),
                    },
                )
                &&& forall|d: int|
                    #![trigger has_day(final(self).rows@, d)]
                    has_day(final(self).rows@, d) <==> (has_day(old(self).rows@, d) || batch_has(
                        applied,
                        d,
                    ))
                &&& forall|d: int|
                    batch_has(applied, d) ==> row_of(final(self).rows@, d) == batch_last(applied, d)
                &&& forall|d: int|
                    !batch_has(applied, d) && has_day(old(self).rows@, d) ==> row_of(
                        final(self).rows@,
                        d,
                    ) == row_of(old(self).rows@, d)
            }),
    {
        let mut k: usize = 0;
        while k < items.len()
            invariant
                self.wf(),
                self.header == old(self).header,
                0 <= k <= items@.len(),
                forall|j: int| 0 <= j < items@.len() ==> (#[trigger] items@[j]).date.valid(),
                forall|j: int|
                    0 <= j < k ==> (#[trigger] items@[j]).values@.len() == old(
                        self,
                    ).header@.len(),
                forall|d: int|
                    #![trigger has_day(self.rows@, d)]
                    has_day(self.rows@, d) <==> (has_day(old(self).rows@, d) || batch_has(
                        items@.take(k as int),
                        d,
                    )),
                forall|d: int|
                    batch_has(items@.take(k as int), d) ==> row_of(self.rows@, d) == batch_last(
                        items@.take(k as int),
                        d,
                    ),
                forall|d: int|
                    !batch_has(items@.take(k as int), d) && has_day(old(self).rows@, d) ==> row_of(
                        self.rows@,
                        d,
                    ) == row_of(old(self).rows@, d),
            decreases items@.len() - k,
        {
            let ghost pre = self.rows@;
            match self.update_data(items[k].date, &items[k].values) {
                Ok(_) => {},
                Err(e) => {
                    proof {
                        lemma_batch_take_step(items@, k as int);
                        assert(items@[k as int].values@.len() != old(self).header@.len());
                        lemma_first_width_mismatch(items@, old(self).header@.len() as int);
                        let fm = first_width_mismatch(items@, old(self).header@.len() as int);
                        assert(fm == k) by {
                            if fm < k {
                                assert(items@[fm].values@.len() == old(self).header@.len());
                            }
                        }
                    }
                    return Err(e);
                },
            }
            proof {
                lemma_batch_take_step(items@, k as int);
                let day = items@[k as int].date@;
                assert forall|d: int|
                    batch_has(items@.take(k as int + 1), d) implies row_of(self.rows@, d)
                    == batch_last(items@.take(k as int + 1), d) by {
                    if d != day {
                        assert(batch_has(items@.take(k as int), d));
                        assert(row_of(self.rows@, d) == row_of(pre, d));
                    }
                }
            }
            k = k + 1;
        }
        proof {
            assert(items@.take(items@.len() as int) =~= items@);
        }
        Ok(())
    }

    /// Calculates the occurrences of all habits in the prescribed date
    /// interval; both limits inclusive. Cell `c` of the result counts the
    /// tracked dates within `[from, to]` whose flag for category `c` is set.
    pub fn calculate_data_counts(&self, from: Date, to: Date) -> (r: Vec<usize>)
        requires
            self.wf(),
        ensures
            r@.len() == self.header@.len(),
            forall|c: int|
                0 <= c < r@.len() ==> r@[c] == count_in_range(self.rows@, c, from@, to@),
    {
        let width = self.header.len();
        let mut counts: Vec<usize> = Vec::new();
        let mut c: usize = 0;
        while c < width
            invariant
                counts@.len() == c <= width,
                forall|j: int| 0 <= j < c ==> counts@[j] == 0,
            decreases width - c,
        {
            counts.push(0);
            c = c + 1;
        }
        proof {
            assert forall|j: int| 0 <= j < width implies counts@[j] == count_in_range(
                self.rows@.take(0),
                j,
                from@,
                to@,
            ) by {
                reveal_with_fuel(count_in_range, 1);
            }
        }
        let mut i: usize = 0;
        while i < self.rows.len()
            invariant
                self.wf(),
                0 <= i <= self.rows@.len(),
                counts@.len() == self.header@.len(),
                forall|j: int|
                    0 <= j < counts@.len() ==> counts@[j] == count_in_range(
                        self.rows@.take(i as int),
                        j,
                        from@,
                        to@,
                    ),
            decreases self.rows@.len() - i,
        {
            proof {
                assert(self.rows@.take(i as int + 1).drop_last() =~= self.rows@.take(i as int));
                assert(self.rows@.take(i as int + 1).last() == self.rows@[i as int]);
            }
            let in_range = from.le(self.rows[i].date) && self.rows[i].date.le(to);
            if in_range {
                let mut j: usize = 0;
                while j < counts.len()
                    invariant
                        self.wf(),
                        0 <= i < self.rows@.len(),
                        0 <= j <= counts@.len(),
                        counts@.len() == self.header@.len(),
                        from@ <= self.rows@[i as int].date@ <= to@,
                        self.rows@.take(i as int + 1).drop_last() =~= self.rows@.take(i as int),
                        self.rows@.take(i as int + 1).last() == self.rows@[i as int],
                        forall|p: int|
                            0 <= p < j ==> counts@[p] == count_in_range(
                                self.rows@.take(i as int + 1),
                                p,
                                from@,
                                to@,
                            ),
                        forall|p: int|
                            j <= p < counts@.len() ==> counts@[p] == count_in_range(
                                self.rows@.take(i as int),
                                p,
                                from@,
                                to@,
                            ),
                    decreases counts@.len() - j,
                {
                    proof {
                        lemma_count_in_range_le_len(self.rows@.take(i as int), j as int, from@, to@);
                        assert(self.rows@.take(i as int).len() == i as int);
                        vstd::std_specs::vec::axiom_spec_len(&self.rows);
                        assert(counts@[j as int] <= i < usize::MAX);
                    }
                    if self.rows[i].values[j] {
                        counts[j] = counts[j] + 1;
                    }
                    j = j + 1;
                }
            } else {
                proof {
                    assert forall|p: int| 0 <= p < counts@.len() implies counts@[p]
                        == count_in_range(self.rows@.take(i as int + 1), p, from@, to@) by {}
                }
            }
            i = i + 1;
        }
        proof {
            assert(self.rows@.take(self.rows@.len() as int) =~= self.rows@);
        }
        counts
    }

    /// Calculates the occurrences of all habits over every supplied date
    /// range. The outer order matches the ranges; each range is handed as
    /// `(later bound, earlier bound)` as `get_date_ranges` produces them.
    pub fn calculate_data_counts_per_iter(&self, date_ranges: &Vec<(Date, Date)>) -> (r: Vec<
        Vec<usize>,
    >)
        requires
            self.wf(),
        ensures
            r@.len() == date_ranges@.len(),
            forall|i: int|
                0 <= i < r@.len() ==> (#[trigger] r@[i])@.len() == self.header@.len(),
            forall|i: int, c: int|
                0 <= i < r@.len() && 0 <= c < self.header@.len() ==> (#[trigger] r@[i]@[c])
                    == count_in_range(self.rows@, c, date_ranges@[i].1@, date_ranges@[i].0@),
    {
        let mut r: Vec<Vec<usize>> = Vec::new();
        let mut i: usize = 0;
        while i < date_ranges.len()
            invariant
                self.wf(),
                0 <= i <= date_ranges@.len(),
                r@.len() == i,
                forall|k: int|
                    0 <= k < i ==> (#[trigger] r@[k])@.len() == self.header@.len(),
                forall|k: int, c: int|
                    0 <= k < i && 0 <= c < self.header@.len() ==> (#[trigger] r@[k]@[c])
                        == count_in_range(self.rows@, c, date_ranges@[k].1@, date_ranges@[k].0@),
            decreases date_ranges@.len() - i,
        {
            let (later, earlier) = date_ranges[i];
            r.push(self.calculate_data_counts(earlier, later));
            i = i + 1;
        }
        r
    }

    /// The lower bound that `get_missing_dates` scans from.
    pub open spec fn missing_lower_bound(self, from: Option<Date>) -> int {
        if from is Some {
            from.unwrap()@
        } else if self.rows@.len() > 0 {
            self.rows@[0].date@
        } else {
            0
        }
    }

    /// The dates between `from` (or the earliest tracked date) and `until`,
    /// both inclusive, that the diary does not track, ascending. An empty
    /// diary without an explicit lower bound has no gaps to report.
    pub fn get_missing_dates(&self, from: Option<Date>, until: Date) -> (r: Vec<Date>)
        requires
            self.wf(),
            until.valid(),
            from is Some ==> from.unwrap().valid(),
        ensures
            from is None && self.rows@.len() == 0 ==> r@.len() == 0,
            forall|i: int| 0 <= i < r@.len() ==> (#[trigger] r@[i]).valid(),
            forall|i: int|
                0 <= i < r@.len() ==> self.missing_lower_bound(from) <= (#[trigger] r@[i])@
                    <= until@,
            forall|i: int, j: int| 0 <= i < j < r@.len() ==> r@[i]@ < r@[j]@,
            (from is Some || self.rows@.len() > 0) ==> forall|d: int|
                self.missing_lower_bound(from) <= d <= until@ ==> ((exists|i: int|
                    0 <= i < r@.len() && (#[trigger] r@[i])@ == d) <==> !has_day(self.rows@, d)),
    {
        let lo: Date = match from {
            Some(f) => f,
            None => {
                if self.rows.len() == 0 {
                    return Vec::new();
                }
                self.rows[0].date
            },
        };
        let present = day_values(&self.rows);
        let r = missing_days(&present, lo.day_value(), until.day_value());
        proof {
            assert forall|d: int| lo@ <= d <= until@ implies ((exists|i: int|
                0 <= i < r@.len() && (#[trigger] r@[i])@ == d) <==> !has_day(self.rows@, d)) by {
                let du = d as u32;
                assert(du as int == d);
                if present@.contains(du) {
                    let j = choose|j: int| 0 <= j < present@.len() && present@[j] == du;
                    assert(self.rows@[j].date@ == d);
                    assert(has_day(self.rows@, d));
                }
                if has_day(self.rows@, d) {
                    let j = choose|j: int|
                        0 <= j < self.rows@.len() && self.rows@[j].date@ == d;
                    assert(present@[j] == du);
                    assert(present@.contains(du));
                }
            }
        }
        r
    }
}

/// The day numbers of the rows, in row order.
fn day_values(rows: &Vec<DayRow>) -> (r: Vec<u32>)
    ensures
        r@.len() == rows@.len(),
        forall|j: int| 0 <= j < r@.len() ==> (#[trigger] r@[j]) as int == rows@[j].date@,
{
    let mut r: Vec<u32> = Vec::new();
    let mut i: usize = 0;
    while i < rows.len()
        invariant
            0 <= i <= rows@.len(),
            r@.len() == i,
            forall|j: int| 0 <= j < i ==> (#[trigger] r@[j]) as int == rows@[j].date@,
        decreases rows@.len() - i,
    {
        r.push(rows[i].date.day_value());
        i = i + 1;
    }
    r
}

/// Checks a category name for use in a flat file.
pub fn is_valid_name(s: &String) -> (r: bool)
    ensures
        r == valid_name(s@),
{
    let b = s.as_str().as_bytes();
    if b.len() == 0 {
        return false;
    }
    let mut i: usize = 0;
    while i < b.len()
        invariant
            0 <= i <= b@.len(),
            b@ == vstd::utf8::encode_utf8(s@),
            forall|j: int|
                0 <= j < i ==> #[trigger] b@[j] != 44u8 && b@[j] != 10u8 && b@[j] != 13u8,
        decreases b@.len() - i,
    {
        let x = b[i];
        if x == 44u8 || x == 10u8 || x == 13u8 {
            return false;
        }
        i = i + 1;
    }
    true
}

/// Creates a new flat-file diary from a header list. The header must name at
/// least one category, and no name may be empty or hold the delimiter or a
/// line break.
pub fn create_new_csv(headers: Vec<String>) -> (r: Result<DiaryDataCsv, DataError>)
    ensures
        (r is Ok <==> headers@.len() >= 1 && forall|i: int|
            0 <= i < headers@.len() ==> valid_name(#[trigger] headers@[i]@)),
        r is Err ==> r == Result::<DiaryDataCsv, DataError>::Err(DataError::EmptyHeader),
        r is Ok ==> {
            &&& r.unwrap().wf()
            &&& r.unwrap().header == headers
            &&& r.unwrap().rows@.len() == 0
        },
{
    if headers.len() == 0 {
        return Err(DataError::EmptyHeader);
    }
    let mut i: usize = 0;
    while i < headers.len()
        invariant
            0 <= i <= headers@.len(),
            forall|j: int| 0 <= j < i ==> valid_name(#[trigger] headers@[j]@),
        decreases headers@.len() - i,
    {
        if !is_valid_name(&headers[i]) {
            return Err(DataError::EmptyHeader);
        }
        i = i + 1;
    }
    Ok(DiaryDataCsv { header: headers, rows: Vec::new() })
}

/// The per-item step of the batch model: one more item extends the batch's
/// reach by its date and overrides that date's values.
proof fn lemma_batch_take_step(items: Seq<DayRow>, k: int)
    requires
        0 <= k < items.len(),
    ensures
        forall|d: int|
            batch_has(items.take(k + 1), d) <==> (batch_has(items.take(k), d) || items[k].date@
                == d),
        forall|d: int|
            #![trigger batch_last(items.take(k + 1), d)]
            batch_last(items.take(k + 1), d) == (if d == items[k].date@ {
                items[k].values@
            } else {
                batch_last(items.take(k), d)
            }),
{
    assert(items.take(k + 1).drop_last() =~= items.take(k));
    assert(items.take(k + 1).last() == items[k]);
    assert forall|d: int| batch_has(items.take(k + 1), d) <==> (batch_has(items.take(k), d)
        || items[k].date@ == d) by {
        if batch_has(items.take(k + 1), d) {
            let j = choose|j: int|
                0 <= j < items.take(k + 1).len() && (#[trigger] items.take(k + 1)[j]).date@ == d;
            if j < k {
                assert(items.take(k)[j].date@ == d);
            }
        }
        if batch_has(items.take(k), d) {
            let j = choose|j: int|
                0 <= j < items.take(k).len() && (#[trigger] items.take(k)[j]).date@ == d;
            assert(items.take(k + 1)[j].date@ == d);
        }
        if items[k].date@ == d {
            assert(items.take(k + 1)[k].date@ == d);
        }
    }
}

/// With sorted rows, a day occurs at one index only, so `day_index` is it.
pub proof fn lemma_day_index_unique(s: Seq<DayRow>, day: int, i: int)
    requires
        rows_sorted(s),
        0 <= i < s.len(),
        s[i].date@ == day,
    ensures
        day_index(s, day) == i,
        row_of(s, day) == s[i].values@,
{
    assert(has_day(s, day));
    let j = day_index(s, day);
    assert(0 <= j < s.len() && s[j].date@ == day);
    if i < j {
        assert(s[i].date@ < s[j].date@);
    }
    if j < i {
        assert(s[j].date@ < s[i].date@);
    }
}

/// Replacing the row at index `i` by an equal-dated row touches no other day.
proof fn lemma_rows_update_effect(
    old_rows: Seq<DayRow>,
    new_rows: Seq<DayRow>,
    i: int,
    day: int,
    values: Seq<bool>,
)
    requires
        rows_sorted(old_rows),
        0 <= i < old_rows.len(),
        old_rows[i].date@ == day,
        new_rows.len() == old_rows.len(),
        new_rows[i].date@ == day,
        new_rows[i].values@ == values,
        forall|j: int| 0 <= j < old_rows.len() && j != i ==> new_rows[j] == old_rows[j],
    ensures
        rows_sorted(new_rows),
        has_day(new_rows, day),
        row_of(new_rows, day) == values,
        forall|d: int| d != day ==> (has_day(new_rows, d) <==> has_day(old_rows, d)),
        forall|d: int|
            d != day && has_day(old_rows, d) ==> row_of(new_rows, d) == row_of(old_rows, d),
{
    assert(forall|k: int|
        0 <= k < new_rows.len() ==> (#[trigger] new_rows[k]).date@ == old_rows[k].date@);
    assert(has_day(new_rows, day));
    lemma_day_index_unique(new_rows, day, i);
    assert forall|d: int| d != day implies (has_day(new_rows, d) <==> has_day(old_rows, d)) by {
        if has_day(new_rows, d) {
            let k = choose|k: int| 0 <= k < new_rows.len() && new_rows[k].date@ == d;
            assert(old_rows[k].date@ == d);
        }
        if has_day(old_rows, d) {
            let k = choose|k: int| 0 <= k < old_rows.len() && old_rows[k].date@ == d;
            assert(new_rows[k].date@ == d);
        }
    }
    assert forall|d: int| d != day && has_day(old_rows, d) implies row_of(new_rows, d) == row_of(
        old_rows,
        d,
    ) by {
        let k = choose|k: int| 0 <= k < old_rows.len() && old_rows[k].date@ == d;
        lemma_day_index_unique(old_rows, d, k);
        assert(k != i);
        lemma_day_index_unique(new_rows, d, k);
    }
}

/// Inserting a fresh-dated row at its sorted position touches no other day.
proof fn lemma_rows_insert_effect(
    old_rows: Seq<DayRow>,
    new_rows: Seq<DayRow>,
    i: int,
    day: int,
    values: Seq<bool>,
)
    requires
        rows_sorted(old_rows),
        0 <= i <= old_rows.len(),
        forall|j: int| 0 <= j < i ==> (#[trigger] old_rows[j]).date@ < day,
        forall|j: int| i <= j < old_rows.len() ==> (#[trigger] old_rows[j]).date@ > day,
        new_rows.len() == old_rows.len() + 1,
        new_rows[i].date@ == day,
        new_rows[i].values@ == values,
        forall|j: int| 0 <= j < i ==> new_rows[j] == old_rows[j],
        forall|j: int| i < j < new_rows.len() ==> new_rows[j] == old_rows[j - 1],
    ensures
        rows_sorted(new_rows),
        has_day(new_rows, day),
        row_of(new_rows, day) == values,
        forall|d: int| d != day ==> (has_day(new_rows, d) <==> has_day(old_rows, d)),
        forall|d: int|
            d != day && has_day(old_rows, d) ==> row_of(new_rows, d) == row_of(old_rows, d),
{
    assert forall|p: int, q: int| 0 <= p < q < new_rows.len() implies new_rows[p].date@
        < new_rows[q].date@ by {
        if p < i && q > i {
            assert(new_rows[p].date@ < day);
            assert(new_rows[q].date@ > day);
        }
    }
    assert(has_day(new_rows, day));
    lemma_day_index_unique(new_rows, day, i);
    assert forall|d: int| d != day implies (has_day(new_rows, d) <==> has_day(old_rows, d)) by {
        if has_day(new_rows, d) {
            let k = choose|k: int| 0 <= k < new_rows.len() && new_rows[k].date@ == d;
            if k < i {
                assert(old_rows[k].date@ == d);
            } else {
                assert(k != i);
                assert(old_rows[k - 1].date@ == d);
            }
        }
        if has_day(old_rows, d) {
            let k = choose|k: int| 0 <= k < old_rows.len() && old_rows[k].date@ == d;
            if k < i {
                assert(new_rows[k].date@ == d);
            } else {
                assert(new_rows[k + 1].date@ == d);
            }
        }
    }
    assert forall|d: int| d != day && has_day(old_rows, d) implies row_of(new_rows, d) == row_of(
        old_rows,
        d,
    ) by {
        let k = choose|k: int| 0 <= k < old_rows.len() && old_rows[k].date@ == d;
        lemma_day_index_unique(old_rows, d, k);
        if k < i {
            lemma_day_index_unique(new_rows, d, k);
        } else {
            lemma_day_index_unique(new_rows, d, k + 1);
        }
    }
}

/// Copies a flag vector element by element.
pub fn copy_bools(v: &Vec<bool>) -> (r: Vec<bool>)
    ensures
        r@ == v@,
{
    let mut r: Vec<bool> = Vec::new();
    let mut i: usize = 0;
    while i < v.len()
        invariant
            0 <= i <= v@.len(),
            r@ == v@.take(i as int),
        decreases v@.len() - i,
    {
        r.push(v[i]);
        proof {
            assert(r@ =~= v@.take(i as int + 1));
        }
        i = i + 1;
    }
    proof {
        assert(r@ =~= v@);
    }
    r
}

} // verus!

verus! {

/// Occurrences of the exact flag vector `sig` among the rows dated within
/// `[lo, hi]`.
pub open spec fn sig_count(s: Seq<DayRow>, sig: Seq<bool>, lo: int, hi: int) -> nat
    decreases s.len(),
{
    if s.len() == 0 {
        0
    } else {
        sig_count(s.drop_last(), sig, lo, hi) + (if lo <= s.last().date@ <= hi
            && s.last().values@ == sig {
            1nat
        } else {
            0nat
        })
    }
}

proof fn lemma_sig_count_le_len(s: Seq<DayRow>, sig: Seq<bool>, lo: int, hi: int)
    ensures
        sig_count(s, sig, lo, hi) <= s.len(),
    decreases s.len(),
{
    if s.len() > 0 {
        lemma_sig_count_le_len(s.drop_last(), sig, lo, hi);
    }
}

/// Whether two flag vectors are equal.
fn eq_bools(a: &Vec<bool>, b: &Vec<bool>) -> (r: bool)
    ensures
        r == (a@ == b@),
{
    if a.len() != b.len() {
        proof {
            assert(a@ != b@);
        }
        return false;
    }
    let mut i: usize = 0;
    while i < a.len()
        invariant
            a@.len() == b@.len(),
            0 <= i <= a@.len(),
            forall|j: int| 0 <= j < i ==> a@[j] == b@[j],
        decreases a@.len() - i,
    {
        if a[i] != b[i] {
            proof {
                assert(a@ != b@);
            }
            return false;
        }
        i = i + 1;
    }
    proof {
        assert(a@ =~= b@);
    }
    true
}

/// Whether a signature already stands among the collected groups.
fn contains_sig(groups: &Vec<(Vec<bool>, usize)>, sig: &Vec<bool>) -> (r: bool)
    ensures
        r == exists|i: int| 0 <= i < groups@.len() && (#[trigger] groups@[i]).0@ == sig@,
{
    let mut i: usize = 0;
    while i < groups.len()
        invariant
            0 <= i <= groups@.len(),
            forall|j: int| 0 <= j < i ==> (#[trigger] groups@[j]).0@ != sig@,
        decreases groups@.len() - i,
    {
        if eq_bools(&groups[i].0, sig) {
            proof {
                assert((groups@[i as int]).0@ == sig@);
            }
            return true;
        }
        i = i + 1;
    }
    false
}

impl DiaryDataCsv {
    /// Counts the tracked dates within `[lo, hi]` whose flag vector is `sig`.
    fn count_sig(&self, sig: &Vec<bool>, lo: Date, hi: Date) -> (r: usize)
        requires
            self.wf(),
        ensures
            r == sig_count(self.rows@, sig@, lo@, hi@),
    {
        let mut count: usize = 0;
        let mut i: usize = 0;
        while i < self.rows.len()
            invariant
                self.wf(),
                0 <= i <= self.rows@.len(),
                count == sig_count(self.rows@.take(i as int), sig@, lo@, hi@),
            decreases self.rows@.len() - i,
        {
            proof {
                assert(self.rows@.take(i as int + 1).drop_last() =~= self.rows@.take(i as int));
                assert(self.rows@.take(i as int + 1).last() == self.rows@[i as int]);
                lemma_sig_count_le_len(self.rows@.take(i as int), sig@, lo@, hi@);
                vstd::std_specs::vec::axiom_spec_len(&self.rows);
            }
            let row = &self.rows[i];
            if lo.le(row.date) && row.date.le(hi) && eq_bools(&row.values, sig) {
                count = count + 1;
            }
            i = i + 1;
        }
        proof {
            assert(self.rows@.take(self.rows@.len() as int) =~= self.rows@);
        }
        count
    }

    /// Groups the tracked dates of `[from_or_all, until]` by their exact flag
    /// vector and returns the groups by descending occurrence count, at most
    /// `max_count` many. Every listed group carries its exact occurrence
    /// count, no signature is listed twice, and a signature is left out only
    /// when the limit cut it, in which case it occurs no more often than the
    /// last listed one. Groups of equal count keep the order in which their
    /// signatures first occur in the diary.
    #[verifier::rlimit(100)]
    pub fn get_most_frequent_daily_data(
        &self,
        from: Option<Date>,
        until: Date,
        max_count: Option<usize>,
    ) -> (r: Vec<(Vec<bool>, usize)>)
        requires
            self.wf(),
        ensures
            ({
                let lo: int = if from is Some {
                    from.unwrap()@
                } else {
                    0
                };
                &&& forall|i: int|
                    0 <= i < r@.len() ==> (#[trigger] r@[i]).1 == sig_count(
                        self.rows@,
                        r@[i].0@,
                        lo,
                        until@,
                    ) && r@[i].1 >= 1
                &&& forall|i: int, j: int| 0 <= i < j < r@.len() ==> r@[i].0@ != r@[j].0@
                &&& forall|i: int, j: int| 0 <= i < j < r@.len() ==> r@[i].1 >= r@[j].1
                &&& max_count is Some ==> r@.len() <= max_count.unwrap()
                &&& forall|k: int|
                    0 <= k < self.rows@.len() && lo <= (#[trigger] self.rows@[k]).date@ <= until@
                        ==> ((exists|i: int|
                        0 <= i < r@.len() && (#[trigger] r@[i]).0@ == self.rows@[k].values@) || (
                    max_count is Some && r@.len() == max_count.unwrap() && (r@.len() == 0
                        || sig_count(self.rows@, self.rows@[k].values@, lo, until@) <= r@[r@.len()
                        - 1].1)))
            }),
    {
        proof {
            crate::date::lemma_days_before_year_bounds(10000);
        }
        let lo: Date = match from {
            Some(f) => f,
            None => Date::from_day_number(0),
        };
        let mut groups: Vec<(Vec<bool>, usize)> = Vec::new();
        let mut k: usize = 0;
        while k < self.rows.len()
            invariant
                self.wf(),
                lo@ == (if from is Some {
                    from.unwrap()@
                } else {
                    0
                }),
                0 <= k <= self.rows@.len(),
                forall|i: int|
                    0 <= i < groups@.len() ==> (#[trigger] groups@[i]).1 == sig_count(
                        self.rows@,
                        groups@[i].0@,
                        lo@,
                        until@,
                    ) && groups@[i].1 >= 1,
                forall|i: int, j: int|
                    0 <= i < j < groups@.len() ==> groups@[i].0@ != groups@[j].0@,
                forall|p: int|
                    0 <= p < k && lo@ <= (#[trigger] self.rows@[p]).date@ <= until@ ==> exists|
                        i: int,
                    |
                        0 <= i < groups@.len() && (#[trigger] groups@[i]).0@
                            == self.rows@[p].values@,
            decreases self.rows@.len() - k,
        {
            let ghost pre_groups = groups@;
            let row = &self.rows[k];
            if lo.le(row.date) && row.date.le(until) {
                if !contains_sig(&groups, &row.values) {
                    let c = self.count_sig(&row.values, lo, until);
                    proof {
                        assert(sig_count(self.rows@, self.rows@[k as int].values@, lo@, until@)
                            >= 1) by {
                            lemma_sig_count_at_least_one(self.rows@, k as int, lo@, until@);
                        }
                    }
                    let sig = copy_bools(&row.values);
                    groups.push((sig, c));
                }
            }
            proof {
                assert forall|p: int|
                    0 <= p < k + 1 && lo@ <= (#[trigger] self.rows@[p]).date@ <= until@ implies
                    exists|i: int|
                        0 <= i < groups@.len() && (#[trigger] groups@[i]).0@
                            == self.rows@[p].values@ by {
                    if p < k && exists|i: int|
                        0 <= i < pre_groups.len() && (#[trigger] pre_groups[i]).0@
                            == self.rows@[p].values@ {
                        let i = choose|i: int|
                            0 <= i < pre_groups.len() && (#[trigger] pre_groups[i]).0@
                                == self.rows@[p].values@;
                        assert(groups@[i].0@ == self.rows@[p].values@);
                    }
                    if p == k {
                        if exists|i: int|
                            0 <= i < pre_groups.len() && (#[trigger] pre_groups[i]).0@
                                == self.rows@[p].values@ {
                            let i = choose|i: int|
                                0 <= i < pre_groups.len() && (#[trigger] pre_groups[i]).0@
                                    == self.rows@[p].values@;
                            assert(groups@[i].0@ == self.rows@[p].values@);
                        } else {
                            assert(groups@[groups@.len() - 1].0@ == self.rows@[p].values@);
                        }
                    }
                }
            }
            k = k + 1;
        }
        // order the groups by descending count
        let mut i: usize = 0;
        while i < groups.len()
            invariant
                0 <= i <= groups@.len(),
                forall|p: int|
                    0 <= p < groups@.len() ==> (#[trigger] groups@[p]).1 == sig_count(
                        self.rows@,
                        groups@[p].0@,
                        (if from is Some {
                            from.unwrap()@
                        } else {
                            0
                        }),
                        until@,
                    ) && groups@[p].1 >= 1,
                forall|p: int, q: int|
                    0 <= p < q < groups@.len() ==> groups@[p].0@ != groups@[q].0@,
                forall|p: int, q: int| 0 <= p < q < i ==> (#[trigger] groups@[p]).1 >= (
                #[trigger] groups@[q]).1,
                forall|p: int, q: int|
                    0 <= p < i <= q < groups@.len() ==> (#[trigger] groups@[p]).1 >= (
                    #[trigger] groups@[q]).1,
                forall|k: int|
                    0 <= k < self.rows@.len() && (if from is Some {
                        from.unwrap()@
                    } else {
                        0
                    }) <= (#[trigger] self.rows@[k]).date@ <= until@ ==> exists|p: int|
                        0 <= p < groups@.len() && (#[trigger] groups@[p]).0@
                            == self.rows@[k].values@,
            decreases groups@.len() - i,
        {
            let mut best: usize = i;
            let mut j: usize = i + 1;
            while j < groups.len()
                invariant
                    0 <= i <= best < j <= groups@.len(),
                    forall|q: int| i <= q < j ==> (#[trigger] groups@[q]).1 <= groups@[best as int].1,
                decreases groups@.len() - j,
            {
                if groups[j].1 > groups[best].1 {
                    best = j;
                }
                j = j + 1;
            }
            if best != i {
                let ghost pre = groups@;
                let picked = groups.remove(best);
                groups.insert(i, picked);
                proof {
                    lemma_permute_to_front(pre, groups@, i as int, best as int);
                    assert forall|p: int, q: int|
                        0 <= p < q < groups@.len() implies groups@[p].0@ != groups@[q].0@ by {
                        let a: int = if p < i {
                            p
                        } else if p == i {
                            best as int
                        } else if p <= best {
                            p - 1
                        } else {
                            p
                        };
                        let b: int = if q < i {
                            q
                        } else if q == i {
                            best as int
                        } else if q <= best {
                            q - 1
                        } else {
                            q
                        };
                        assert(groups@[p] == pre[a]);
                        assert(groups@[q] == pre[b]);
                        assert(a != b);
                        if a < b {
                            assert(pre[a].0@ != pre[b].0@);
                        } else {
                            assert(pre[b].0@ != pre[a].0@);
                        }
                    }
                    assert forall|k: int|
                        0 <= k < self.rows@.len() && (if from is Some {
                            from.unwrap()@
                        } else {
                            0
                        }) <= (#[trigger] self.rows@[k]).date@ <= until@ implies exists|p: int|
                        0 <= p < groups@.len() && (#[trigger] groups@[p]).0@
                            == self.rows@[k].values@ by {
                        let q = choose|q: int|
                            0 <= q < pre.len() && (#[trigger] pre[q]).0@ == self.rows@[k].values@;
                        let p: int = if q < i {
                            q
                        } else if q == best {
                            i as int
                        } else if q < best {
                            q + 1
                        } else {
                            q
                        };
                        assert(groups@[p] == pre[q]);
                    }
                }
            }
            i = i + 1;
        }
        match max_count {
            Some(limit) => {
                if groups.len() > limit {
                    let ghost pre = groups@;
                    groups.truncate(limit);
                    proof {
                        assert(groups@ =~= pre.take(limit as int));
                        assert forall|k: int|
                            0 <= k < self.rows@.len() && (if from is Some {
                                from.unwrap()@
                            } else {
                                0
                            }) <= (#[trigger] self.rows@[k]).date@ <= until@ && !(exists|p: int|
                                0 <= p < groups@.len() && (#[trigger] groups@[p]).0@
                                    == self.rows@[k].values@) implies groups@.len() == 0
                            || sig_count(
                            self.rows@,
                            self.rows@[k].values@,
                            (if from is Some {
                                from.unwrap()@
                            } else {
                                0
                            }),
                            until@,
                        ) <= groups@[groups@.len() - 1].1 by {
                            if limit > 0 {
                                let q = choose|q: int|
                                    0 <= q < pre.len() && (#[trigger] pre[q]).0@
                                        == self.rows@[k].values@;
                                if q < limit {
                                    assert(groups@[q] == pre[q]);
                                    assert(false);
                                }
                                assert(pre[limit as int - 1].1 >= pre[q].1);
                                assert(pre[q].1 == sig_count(
                                    self.rows@,
                                    pre[q].0@,
                                    (if from is Some {
                                        from.unwrap()@
                                    } else {
                                        0
                                    }),
                                    until@,
                                ));
                                assert(groups@[limit as int - 1] == pre[limit as int - 1]);
                            }
                        }
                    }
                }
                groups
            },
            None => groups,
        }
    }
}

/// A row within the span makes its own signature occur at least once.
proof fn lemma_sig_count_at_least_one(s: Seq<DayRow>, k: int, lo: int, hi: int)
    requires
        0 <= k < s.len(),
        lo <= s[k].date@ <= hi,
    ensures
        sig_count(s, s[k].values@, lo, hi) >= 1,
    decreases s.len(),
{
    if k == s.len() - 1 {
    } else {
        assert(s.drop_last()[k] == s[k]);
        lemma_sig_count_at_least_one(s.drop_last(), k, lo, hi);
    }
}

/// Moving one element to the front of the unsorted region keeps the list a
/// rearrangement: same length, every element still present both ways.
proof fn lemma_permute_to_front(
    pre: Seq<(Vec<bool>, usize)>,
    post: Seq<(Vec<bool>, usize)>,
    i: int,
    best: int,
)
    requires
        0 <= i <= best < pre.len(),
        post.len() == pre.len(),
        post == pre.remove(best).insert(i, pre[best]),
    ensures
        forall|p: int| 0 <= p < i ==> #[trigger] post[p] == pre[p],
        post[i] == pre[best],
        forall|p: int| i < p <= best ==> #[trigger] post[p] == pre[p - 1],
        forall|p: int| best < p < post.len() ==> #[trigger] post[p] == pre[p],
{
    assert forall|p: int| 0 <= p < post.len() implies (if p < i {
        post[p] == pre[p]
    } else if p == i {
        post[p] == pre[best]
    } else if p <= best {
        post[p] == pre[p - 1]
    } else {
        post[p] == pre[p]
    }) by {}
}

} // verus!
