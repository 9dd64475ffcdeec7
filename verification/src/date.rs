//! Calendar dates with day precision.
//!
//! A [`Date`] is stored as the number of days since the first day of year 1
//! of the proleptic Gregorian calendar; years 1 through 9999 are supported.
//! The view of a `Date` is that day number as a mathematical integer, which
//! makes date comparisons and day-distance arithmetic plain integer facts.
use vstd::prelude::*;

verus! {

/// Gregorian leap-year rule.
pub open spec fn is_leap_year(y: int) -> bool {
    (y % 4 == 0 && y % 100 != 0) || y % 400 == 0
}

/// Number of days in month `m` (1-based) of year `y`.
pub open spec fn days_in_month(y: int, m: int) -> int {
    if m == 2 {
        if is_leap_year(y) {
            29
        } else {
            28
        }
    } else if m == 4 || m == 6 || m == 9 || m == 11 {
        30
    } else {
        31
    }
}

pub open spec fn days_in_year(y: int) -> int {
    if is_leap_year(y) {
        366
    } else {
        365
    }
}

/// Days in all years before year `y`, counting from year 1.
pub open spec fn days_before_year(y: int) -> int
    decreases y,
{
    if y <= 1 {
        0
    } else {
        days_before_year(y - 1) + days_in_year(y - 1)
    }
}

/// Days in all months of year `y` before month `m`.
pub open spec fn days_before_month(y: int, m: int) -> int
    decreases m,
{
    if m <= 1 {
        0
    } else {
        days_before_month(y, m - 1) + days_in_month(y, m - 1)
    }
}

pub open spec fn valid_ymd(y: int, m: int, d: int) -> bool {
    &&& 1 <= y <= 9999
    &&& 1 <= m <= 12
    &&& 1 <= d <= days_in_month(y, m)
}

/// The day number of a calendar date: days elapsed since year 1, month 1, day 1.
pub open spec fn day_number(y: int, m: int, d: int) -> int {
    days_before_year(y) + days_before_month(y, m) + (d - 1)
}

/// One past the largest supported day number (the day count of years 1..=9999).
pub open spec fn day_count() -> int {
    days_before_year(10000)
}

pub proof fn lemma_days_before_year_bounds(y: int)
    requires
        1 <= y,
    ensures
        365 * (y - 1) <= days_before_year(y) <= 366 * (y - 1),
    decreases y,
{
    if y > 1 {
        lemma_days_before_year_bounds(y - 1);
    }
}

pub proof fn lemma_days_before_year_monotone(y1: int, y2: int)
    requires
        y1 <= y2,
    ensures
        days_before_year(y1) <= days_before_year(y2),
    decreases y2 - y1,
{
    if y1 < y2 {
        lemma_days_before_year_monotone(y1, y2 - 1);
    }
}

pub proof fn lemma_days_before_month_bounds(y: int, m: int)
    requires
        1 <= m <= 13,
    ensures
        28 * (m - 1) <= days_before_month(y, m) <= 31 * (m - 1),
    decreases m,
{
    if m > 1 {
        lemma_days_before_month_bounds(y, m - 1);
    }
}

/// The months of a year sum to the year's day count.
pub proof fn lemma_months_fill_year(y: int)
    ensures
        days_before_month(y, 13) == days_in_year(y),
{
    reveal_with_fuel(days_before_month, 14);
}

/// A valid date's day number lies below the day count of all supported years.
pub proof fn lemma_day_number_in_range(y: int, m: int, d: int)
    requires
        valid_ymd(y, m, d),
    ensures
        0 <= day_number(y, m, d) < day_count(),
{
    lemma_days_before_year_bounds(y);
    lemma_days_before_month_bounds(y, m);
    lemma_months_fill_year(y);
    assert(days_before_month(y, m) + (d - 1) < days_before_month(y, 13)) by {
        lemma_days_before_month_le(y, m + 1, 13);
    }
    lemma_days_before_year_monotone(y + 1, 10000);
}

pub proof fn lemma_days_before_month_le(y: int, m1: int, m2: int)
    requires
        m1 <= m2,
    ensures
        days_before_month(y, m1) <= days_before_month(y, m2),
    decreases m2 - m1,
{
    if m1 < m2 {
        lemma_days_before_month_le(y, m1, m2 - 1);
    }
}

/// A valid date's day number falls within its year's days.
pub proof fn lemma_day_number_year_span(y: int, m: int, d: int)
    requires
        valid_ymd(y, m, d),
    ensures
        days_before_year(y) <= day_number(y, m, d) < days_before_year(y + 1),
{
    lemma_days_before_month_bounds(y, m);
    lemma_days_before_month_le(y, m + 1, 13);
    lemma_months_fill_year(y);
}

/// Distinct valid calendar triples have distinct day numbers.
pub proof fn lemma_day_number_injective(y1: int, m1: int, d1: int, y2: int, m2: int, d2: int)
    requires
        valid_ymd(y1, m1, d1),
        valid_ymd(y2, m2, d2),
        day_number(y1, m1, d1) == day_number(y2, m2, d2),
    ensures
        y1 == y2 && m1 == m2 && d1 == d2,
{
    lemma_day_number_year_span(y1, m1, d1);
    lemma_day_number_year_span(y2, m2, d2);
    if y1 < y2 {
        lemma_days_before_year_monotone(y1 + 1, y2);
        assert(false);
    }
    if y2 < y1 {
        lemma_days_before_year_monotone(y2 + 1, y1);
        assert(false);
    }
    let v1 = days_before_month(y1, m1) + (d1 - 1);
    let v2 = days_before_month(y1, m2) + (d2 - 1);
    assert(v1 == v2);
    assert(days_before_month(y1, m1) <= v1 < days_before_month(y1, m1 + 1));
    assert(days_before_month(y1, m2) <= v2 < days_before_month(y1, m2 + 1));
    if m1 < m2 {
        lemma_days_before_month_le(y1, m1 + 1, m2);
        assert(false);
    }
    if m2 < m1 {
        lemma_days_before_month_le(y1, m2 + 1, m1);
        assert(false);
    }
}

/// The calendar triple of a day number: the unique valid triple with that
/// day number, where one exists.
pub open spec fn ymd_of(day: int) -> (int, int, int) {
    choose|t: (int, int, int)| valid_ymd(t.0, t.1, t.2) && day_number(t.0, t.1, t.2) == day
}

/// `ymd_of` inverts `day_number` on valid triples.
pub proof fn lemma_ymd_of_day_number(y: int, m: int, d: int)
    requires
        valid_ymd(y, m, d),
    ensures
        ymd_of(day_number(y, m, d)) == (y, m, d),
{
    let day = day_number(y, m, d);
    let w = (y, m, d);
    assert(valid_ymd(w.0, w.1, w.2) && day_number(w.0, w.1, w.2) == day);
    assert(exists|t: (int, int, int)| valid_ymd(t.0, t.1, t.2) && day_number(t.0, t.1, t.2) == day);
    let t = ymd_of(day);
    assert(valid_ymd(t.0, t.1, t.2) && day_number(t.0, t.1, t.2) == day);
    lemma_day_number_injective(t.0, t.1, t.2, y, m, d);
}

proof fn lemma_find_year(day: int, y: int)
    requires
        1 <= y <= 9999,
        days_before_year(y) <= day < day_count(),
    ensures
        exists|yy: int|
            1 <= yy <= 9999 && #[trigger] days_before_year(yy) <= day < days_before_year(yy + 1),
    decreases 10000 - y,
{
    if day < days_before_year(y + 1) {
        assert(1 <= y <= 9999 && #[trigger] days_before_year(y) <= day < days_before_year(y
            + 1));
    } else {
        assert(y + 1 <= 9999) by {
            if y == 9999 {
                assert(days_before_year(y + 1) == day_count());
            }
        }
        lemma_find_year(day, y + 1);
    }
}

proof fn lemma_find_month(y: int, v: int, m: int)
    requires
        1 <= m <= 12,
        days_before_month(y, m) <= v < days_in_year(y),
    ensures
        exists|mm: int|
            1 <= mm <= 12 && #[trigger] days_before_month(y, mm) <= v < days_before_month(
                y,
                mm + 1,
            ),
    decreases 13 - m,
{
    lemma_months_fill_year(y);
    if v < days_before_month(y, m + 1) {
        assert(1 <= m <= 12 && #[trigger] days_before_month(y, m) <= v < days_before_month(
            y,
            m + 1,
        ));
    } else {
        assert(m + 1 <= 12) by {
            if m == 12 {
                assert(days_before_month(y, 13) == days_in_year(y));
            }
        }
        lemma_find_month(y, v, m + 1);
    }
}

/// Every supported day number is the day number of a valid calendar triple,
/// so `ymd_of` is defined on all of them.
pub proof fn lemma_ymd_of_valid(day: int)
    requires
        0 <= day < day_count(),
    ensures
        valid_ymd(ymd_of(day).0, ymd_of(day).1, ymd_of(day).2),
        day_number(ymd_of(day).0, ymd_of(day).1, ymd_of(day).2) == day,
{
    lemma_find_year(day, 1);
    let y = choose|yy: int|
        1 <= yy <= 9999 && #[trigger] days_before_year(yy) <= day < days_before_year(yy + 1);
    let v = day - days_before_year(y);
    lemma_months_fill_year(y);
    lemma_find_month(y, v, 1);
    let m = choose|mm: int|
        1 <= mm <= 12 && #[trigger] days_before_month(y, mm) <= v < days_before_month(y, mm + 1);
    let d = v - days_before_month(y, m) + 1;
    assert(valid_ymd(y, m, d));
    assert(day_number(y, m, d) == day);
    assert(exists|t: (int, int, int)| valid_ymd(t.0, t.1, t.2) && day_number(t.0, t.1, t.2) == day)
        by {
        let w = (y, m, d);
        assert(valid_ymd(w.0, w.1, w.2) && day_number(w.0, w.1, w.2) == day);
    }
}

/// A calendar date, held as its day number.
#[derive(Clone, Copy, PartialEq, Eq, Structural, Debug, Hash, PartialOrd, Ord)]
pub struct Date {
    days: u32,
}

impl View for Date {
    type V = int;

    closed spec fn view(&self) -> int {
        self.days as int
    }
}

impl Date {
    /// The date lies within the supported years 1 through 9999.
    pub open spec fn valid(self) -> bool {
        0 <= self@ < day_count()
    }

    pub closed spec fn spec_from_days(days: int) -> Date {
        Date { days: days as u32 }
    }

    /// Builds the date for a calendar triple.
    pub fn from_ymd(y: u32, m: u32, d: u32) -> (r: Date)
        requires
            valid_ymd(y as int, m as int, d as int),
        ensures
            r@ == day_number(y as int, m as int, d as int),
            r.valid(),
    {
        proof {
            lemma_day_number_in_range(y as int, m as int, d as int);
            lemma_days_before_year_bounds(y as int);
        }
        let mut yy: u32 = 1;
        let mut acc: u32 = 0;
        while yy < y
            invariant
                1 <= yy <= y,
                y <= 9999,
                acc == days_before_year(yy as int),
                days_before_year(y as int) <= 366 * 9999,
            decreases y - yy,
        {
            proof {
                lemma_days_before_year_monotone(yy as int + 1, y as int);
                lemma_days_before_year_bounds(yy as int);
            }
            acc = acc + days_in_year_exec(yy);
            yy = yy + 1;
        }
        let mut mm: u32 = 1;
        while mm < m
            invariant
                1 <= mm <= m,
                m <= 12,
                yy == y,
                acc == days_before_year(y as int) + days_before_month(y as int, mm as int),
                days_before_year(y as int) <= 366 * 9999,
            decreases m - mm,
        {
            proof {
                lemma_days_before_month_bounds(y as int, mm as int + 1);
            }
            acc = acc + days_in_month_exec(y, mm);
            mm = mm + 1;
        }
        proof {
            lemma_days_before_month_bounds(y as int, m as int);
        }
        Date { days: acc + (d - 1) }
    }

    /// Recovers the calendar triple of a date.
    pub fn ymd(self) -> (r: (u32, u32, u32))
        requires
            self.valid(),
        ensures
            valid_ymd(r.0 as int, r.1 as int, r.2 as int),
            day_number(r.0 as int, r.1 as int, r.2 as int) == self@,
    {
        let mut yy: u32 = 1;
        let mut acc: u32 = 0;
        proof {
            lemma_days_before_year_bounds(10000);
        }
        while yy < 9999 && acc + days_in_year_exec(yy) <= self.days
            invariant
                1 <= yy <= 9999,
                acc == days_before_year(yy as int),
                acc <= self.days,
                self.valid(),
                self@ == self.days as int,
                days_before_year(10000) <= 366 * 9999,
            decreases 9999 - yy,
        {
            proof {
                lemma_days_before_year_bounds(yy as int);
            }
            acc = acc + days_in_year_exec(yy);
            yy = yy + 1;
        }
        proof {
            if yy == 9999 && acc + days_in_year(9999) <= self.days as int {
                assert(days_before_year(10000) == days_before_year(9999) + days_in_year(9999));
                assert(self.days as int >= days_before_year(10000));
            }
            lemma_months_fill_year(yy as int);
        }
        // now acc == days_before_year(yy) <= self.days < acc + days_in_year(yy)
        let mut mm: u32 = 1;
        while mm < 12 && acc + days_in_month_exec(yy, mm) <= self.days
            invariant
                1 <= mm <= 12,
                1 <= yy <= 9999,
                acc == days_before_year(yy as int) + days_before_month(yy as int, mm as int),
                acc <= self.days,
                self@ == self.days as int,
                self.days < days_before_year(yy as int) + days_in_year(yy as int),
                days_before_month(yy as int, 13) == days_in_year(yy as int),
                days_before_year(yy as int) <= 366 * 9999,
            decreases 12 - mm,
        {
            proof {
                lemma_days_before_month_bounds(yy as int, mm as int + 1);
            }
            acc = acc + days_in_month_exec(yy, mm);
            mm = mm + 1;
        }
        proof {
            if mm == 12 && acc + days_in_month(yy as int, 12) <= self.days as int {
                assert(days_before_month(yy as int, 13) == days_before_month(yy as int, 12)
                    + days_in_month(yy as int, 12));
            }
        }
        (yy, mm, self.days - acc + 1)
    }

    /// Day-number constructor, for walking intervals a day at a time.
    pub fn from_day_number(days: u32) -> (r: Date)
        requires
            days < day_count(),
        ensures
            r@ == days as int,
            r.valid(),
    {
        Date { days }
    }

    /// The day number as an executable value.
    pub fn day_value(self) -> (r: u32)
        ensures
            r as int == self@,
    {
        self.days
    }

    pub fn le(self, other: Date) -> (r: bool)
        ensures
            r == (self@ <= other@),
    {
        self.days <= other.days
    }

    pub fn lt(self, other: Date) -> (r: bool)
        ensures
            r == (self@ < other@),
    {
        self.days < other.days
    }

    pub fn eq_date(self, other: Date) -> (r: bool)
        ensures
            r == (self@ == other@),
    {
        self.days == other.days
    }

    /// The following day.
    pub fn next_day(self) -> (r: Date)
        requires
            self@ + 1 < day_count(),
        ensures
            r@ == self@ + 1,
            r.valid(),
    {
        proof {
            lemma_days_before_year_bounds(10000);
        }
        Date { days: self.days + 1 }
    }

    /// The date `n` days earlier.
    pub fn minus_days(self, n: u32) -> (r: Date)
        requires
            self.valid(),
            n <= self@,
        ensures
            r@ == self@ - n,
            r.valid(),
    {
        Date { days: self.days - n }
    }

    /// The date `n` days later.
    pub fn plus_days(self, n: u32) -> (r: Date)
        requires
            self.valid(),
            self@ + n < day_count(),
        ensures
            r@ == self@ + n,
            r.valid(),
    {
        proof {
            lemma_days_before_year_bounds(10000);
        }
        Date { days: self.days + n }
    }
}

pub fn is_leap_year_exec(y: u32) -> (r: bool)
    ensures
        r == is_leap_year(y as int),
{
    (y % 4 == 0 && y % 100 != 0) || y % 400 == 0
}

pub fn days_in_year_exec(y: u32) -> (r: u32)
    ensures
        r == days_in_year(y as int),
{
    if is_leap_year_exec(y) {
        366
    } else {
        365
    }
}

pub fn days_in_month_exec(y: u32, m: u32) -> (r: u32)
    ensures
        r == days_in_month(y as int, m as int),
{
    if m == 2 {
        if is_leap_year_exec(y) {
            29
        } else {
            28
        }
    } else if m == 4 || m == 6 || m == 9 || m == 11 {
        30
    } else {
        31
    }
}

} // verus!
