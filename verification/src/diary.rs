//! The diary connection interface: one closed type over the two backends,
//! picked once at open time by the file extension (see
//! [`crate::datafile::is_flat_file_path`]) and offering the operations whose
//! shape both backends share. Backend-specific row shapes (positional flags
//! for the flat file, category identifiers for the database) stay on the
//! backend types.
use vstd::prelude::*;

use crate::csv_datafile::{count_in_range, DiaryDataCsv};
use crate::datafile::DataError;
use crate::date::Date;
use crate::sqlite_datafile::{visible_cats, DiaryDataSqlite};

verus! {

/// An open diary: a flat file held in memory, or a relational database.
pub enum Diary {
    FlatFile(DiaryDataCsv),
    Relational(DiaryDataSqlite),
}

impl Diary {
    /// The structural invariant of the connection.
    pub open spec fn wf(self) -> bool {
        match self {
            Diary::FlatFile(d) => d.wf(),
            Diary::Relational(_) => true,
        }
    }

    /// Whether the diary holds any tracked date.
    pub fn is_empty(&self) -> (r: Result<bool, DataError>)
        ensures
            self matches Diary::FlatFile(d) ==> r == Result::<bool, DataError>::Ok(
                d.rows@.len() == 0,
            ),
    {
        match self {
            Diary::FlatFile(d) => Ok(d.is_empty()),
            Diary::Relational(d) => d.is_empty(),
        }
    }

    /// The currently visible category names, in stable creation order.
    pub fn header_names(&self) -> (r: Vec<String>)
        ensures
            self matches Diary::FlatFile(d) ==> r@ == d.header@,
            self matches Diary::Relational(d) ==> {
                &&& r@.len() == visible_cats(d.cats_view()).len()
                &&& forall|i: int|
                    0 <= i < r@.len() ==> (#[trigger] r@[i])@ == visible_cats(
                        d.cats_view(),
                    )[i].name@
            },
    {
        match self {
            Diary::FlatFile(d) => {
                let mut names: Vec<String> = Vec::new();
                let header = d.get_header();
                let mut i: usize = 0;
                while i < header.len()
                    invariant
                        0 <= i <= header@.len(),
                        names@.len() == i,
                        forall|j: int| 0 <= j < i ==> names@[j] == header@[j],
                    decreases header@.len() - i,
                {
                    names.push(header[i].clone());
                    i = i + 1;
                }
                proof {
                    assert(names@ =~= header@);
                }
                names
            },
            Diary::Relational(d) => {
                let pairs = d.get_header();
                let mut names: Vec<String> = Vec::new();
                let mut i: usize = 0;
                while i < pairs.len()
                    invariant
                        0 <= i <= pairs@.len(),
                        names@.len() == i,
                        forall|j: int| 0 <= j < i ==> names@[j] == pairs@[j].0,
                    decreases pairs@.len() - i,
                {
                    names.push(pairs[i].0.clone());
                    i = i + 1;
                }
                names
            },
        }
    }

    /// The earliest and latest tracked date; an error when the diary is
    /// empty.
    pub fn get_date_range(&self) -> (r: Result<(Date, Date), DataError>)
        requires
            self.wf(),
        ensures
            r is Ok ==> r.unwrap().0@ <= r.unwrap().1@,
            self matches Diary::FlatFile(d) ==> {
                &&& (r is Ok <==> d.rows@.len() > 0)
                &&& d.rows@.len() > 0 ==> r.unwrap().0 == d.rows@[0].date && r.unwrap().1
                    == d.rows@[d.rows@.len() - 1].date
            },
    {
        match self {
            Diary::FlatFile(d) => {
                let r = d.get_date_range();
                proof {
                    if d.rows@.len() > 0 {
                        assert(d.rows@[0].date@ <= d.rows@[d.rows@.len() - 1].date@);
                    }
                }
                r
            },
            Diary::Relational(d) => d.get_date_range(),
        }
    }

    /// The dates between `from` (or the earliest tracked date) and `until`,
    /// both inclusive, that the diary does not track, ascending.
    pub fn get_missing_dates(&self, from: Option<Date>, until: Date) -> (r: Result<
        Vec<Date>,
        DataError,
    >)
        requires
            self.wf(),
            until.valid(),
            from is Some ==> from.unwrap().valid(),
        ensures
            r is Ok ==> forall|i: int, j: int|
                0 <= i < j < r.unwrap()@.len() ==> r.unwrap()@[i]@ < r.unwrap()@[j]@,
            r is Ok ==> forall|i: int|
                0 <= i < r.unwrap()@.len() ==> (#[trigger] r.unwrap()@[i]).valid()
                    && r.unwrap()@[i]@ <= until@,
    {
        match self {
            Diary::FlatFile(d) => Ok(d.get_missing_dates(from, until)),
            Diary::Relational(d) => d.get_missing_dates(from, until),
        }
    }

    /// The occurrences of every visible habit over every supplied window,
    /// each handed as `(later bound, earlier bound)`.
    pub fn calculate_data_counts_per_iter(&self, date_ranges: &Vec<(Date, Date)>) -> (r: Result<
        Vec<Vec<u64>>,
        DataError,
    >)
        requires
            self.wf(),
            forall|i: int|
                0 <= i < date_ranges@.len() ==> (#[trigger] date_ranges@[i]).0.valid()
                    && date_ranges@[i].1.valid(),
        ensures
            r is Ok ==> r.unwrap()@.len() == date_ranges@.len(),
            self matches Diary::FlatFile(d) ==> r is Ok && forall|i: int, c: int|
                0 <= i < date_ranges@.len() && 0 <= c < d.header@.len() ==> (
                #[trigger] r.unwrap()@[i]@[c]) == count_in_range(
                    d.rows@,
                    c,
                    date_ranges@[i].1@,
                    date_ranges@[i].0@,
                ),
    {
        match self {
            Diary::FlatFile(d) => {
                let counts = d.calculate_data_counts_per_iter(date_ranges);
                let mut wide: Vec<Vec<u64>> = Vec::new();
                let mut i: usize = 0;
                while i < counts.len()
                    invariant
                        0 <= i <= counts@.len(),
                        wide@.len() == i,
                        forall|k: int|
                            0 <= k < i ==> (#[trigger] wide@[k])@.len() == counts@[k]@.len(),
                        forall|k: int, c: int|
                            0 <= k < i && 0 <= c < counts@[k]@.len() ==> (#[trigger] wide@[k]@[c])
                                == counts@[k]@[c],
                    decreases counts@.len() - i,
                {
                    let row = &counts[i];
                    let mut wide_row: Vec<u64> = Vec::new();
                    let mut c: usize = 0;
                    while c < row.len()
                        invariant
                            0 <= c <= row@.len(),
                            wide_row@.len() == c,
                            forall|p: int| 0 <= p < c ==> (#[trigger] wide_row@[p]) == row@[p],
                        decreases row@.len() - c,
                    {
                        wide_row.push(row[c] as u64);
                        c = c + 1;
                    }
                    wide.push(wide_row);
                    i = i + 1;
                }
                Ok(wide)
            },
            Diary::Relational(d) => {
                let counts = match d.calculate_data_counts_per_iter(date_ranges) {
                    Ok(counts) => counts,
                    Err(e) => {
                        return Err(e);
                    },
                };
                let mut wide: Vec<Vec<u64>> = Vec::new();
                let mut i: usize = 0;
                while i < counts.len()
                    invariant
                        0 <= i <= counts@.len(),
                        wide@.len() == i,
                    decreases counts@.len() - i,
                {
                    let row = &counts[i];
                    let mut wide_row: Vec<u64> = Vec::new();
                    let mut c: usize = 0;
                    while c < row.len()
                        invariant
                            0 <= c <= row@.len(),
                        decreases row@.len() - c,
                    {
                        let v = row[c];
                        if v >= 0 {
                            wide_row.push(v as u64);
                        } else {
                            wide_row.push(0);
                        }
                        c = c + 1;
                    }
                    wide.push(wide_row);
                    i = i + 1;
                }
                Ok(wide)
            },
        }
    }
}

} // verus!
