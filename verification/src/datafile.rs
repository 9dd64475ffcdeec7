//! Shared outcome types, the error taxonomy, and gap detection used by both
//! diary backends.
use vstd::prelude::*;

use crate::date::{day_count, Date};

verus! {

/// Result of an update of a diary row.
#[derive(Debug, PartialEq, Eq, Structural)]
pub enum SuccessfulUpdate {
    /// The new date was not present in the diary, but it was added.
    AddedNew,
    /// The date was already present in the diary, but was replaced.
    ReplacedExisting,
}

/// Result from the call to `add_category`.
#[derive(Debug, PartialEq, Eq, Structural)]
pub enum AddCategoryResult {
    /// Created a new category.
    AddedNew,
    /// Made a previously hidden category visible again.
    Unhide,
    /// The category is already present and is visible.
    AlreadyPresent,
}

/// Result from the call to `hide_category`.
#[derive(Debug, PartialEq, Eq, Structural)]
pub enum HideCategoryResult {
    /// The specified category was visible previously and was hidden.
    Hidden,
    /// The specified category is already hidden, nothing was changed.
    AlreadyHidden,
    /// The specified category does not exist.
    NonExistingCategory,
}

/// Failures that diary operations report. Expected named outcomes (a category
/// already present, a date already hidden) are not errors; they live in the
/// result enums above.
#[derive(Debug, PartialEq)]
pub enum DataError {
    /// An update row does not match the diary header in size.
    UpdateWidthMismatch { expected: usize, found: usize },
    /// A date-range query was made against a diary with no entries.
    EmptyDiary,
    /// A flat file holds no categories in its header, or an empty name.
    EmptyHeader,
    /// A flat-file line does not start with a well-formed date.
    BadDate { line: usize },
    /// A flat-file line holds a different number of cells than the header.
    RowWidthMismatch { line: usize, expected: usize, found: usize },
    /// A flat file holds the same date on two lines.
    DuplicateDate { line: usize },
    /// A flat-file line holds a date earlier than the line before it.
    OutOfOrderDate { line: usize },
    /// A category name is empty or holds a delimiter or line break.
    BadCategoryName,
    /// Bytes that should hold text are not valid UTF-8.
    BadUtf8,
    /// The database reported an error; the message is passed on unchanged.
    Database(String),
    /// The database handed back a malformed value (a negative identifier, a
    /// malformed signature string).
    CorruptRecord,
    /// An update names a category identifier that the diary does not hold.
    UnknownCategoryId { id: i64 },
}

/// Whether `v` holds the day number `d`.
pub fn contains_day(v: &Vec<u32>, d: u32) -> (r: bool)
    ensures
        r == v@.contains(d),
{
    let mut i: usize = 0;
    while i < v.len()
        invariant
            0 <= i <= v.len(),
            forall|j: int| 0 <= j < i ==> v@[j] != d,
        decreases v.len() - i,
    {
        if v[i] == d {
            return true;
        }
        i = i + 1;
    }
    false
}

/// The days of `[lo, hi]` that are absent from `present`, in ascending order.
///
/// This is the gap-detection core of `get_missing_dates` shared by both
/// backends: the result holds exactly the day numbers of the span that have
/// no diary entry, each exactly once, ascending.
pub fn missing_days(present: &Vec<u32>, lo: u32, hi: u32) -> (r: Vec<Date>)
    requires
        hi < day_count(),
    ensures
        forall|i: int| 0 <= i < r.len() ==> (#[trigger] r[i]).valid(),
        forall|i: int| 0 <= i < r.len() ==> lo <= (#[trigger] r[i])@ <= hi,
        forall|i: int, j: int| 0 <= i < j < r.len() ==> r[i]@ < r[j]@,
        forall|d: u32|
            lo <= d <= hi ==> ((exists|i: int| 0 <= i < r.len() && (#[trigger] r[i])@ == d)
                <==> !present@.contains(d)),
{
    let mut r: Vec<Date> = Vec::new();
    if lo > hi {
        return r;
    }
    let mut day: u32 = lo;
    while day <= hi
        invariant
            lo <= day <= hi + 1,
            hi < day_count(),
            forall|i: int| 0 <= i < r.len() ==> (#[trigger] r[i]).valid(),
            forall|i: int| 0 <= i < r.len() ==> lo <= (#[trigger] r[i])@ < day,
            forall|i: int, j: int| 0 <= i < j < r.len() ==> r[i]@ < r[j]@,
            forall|d: u32|
                lo <= d < day ==> ((exists|i: int| 0 <= i < r.len() && (#[trigger] r[i])@ == d)
                    <==> !present@.contains(d)),
        decreases hi + 1 - day,
    {
        proof {
            crate::date::lemma_days_before_year_bounds(10000);
        }
        let ghost prev = r@;
        if !contains_day(present, day) {
            r.push(Date::from_day_number(day));
        }
        proof {
            assert forall|d: u32| lo <= d < day + 1 implies ((exists|i: int|
                0 <= i < r.len() && (#[trigger] r[i])@ == d) <==> !present@.contains(d)) by {
                if d < day {
                    if exists|i: int| 0 <= i < prev.len() && (#[trigger] prev[i])@ == d {
                        let i = choose|i: int| 0 <= i < prev.len() && (#[trigger] prev[i])@ == d;
                        assert(r[i]@ == d);
                    }
                    if exists|i: int| 0 <= i < r.len() && (#[trigger] r[i])@ == d {
                        let i = choose|i: int| 0 <= i < r.len() && (#[trigger] r[i])@ == d;
                        assert(i < prev.len() && prev[i]@ == d);
                    }
                } else {
                    if !present@.contains(d) {
                        assert(r[r.len() - 1]@ == d);
                    }
                }
            }
        }
        day = day + 1;
    }
    r
}

} // verus!

verus! {

/// Relies on String::from_utf8: it succeeds exactly on valid UTF-8 input and
/// returns the string of those bytes.
#[verifier::external_body]
pub(crate) fn bytes_to_string(v: Vec<u8>) -> (r: Option<String>)
    ensures
        r is Some <==> vstd::utf8::valid_utf8(v@),
        r is Some ==> vstd::utf8::encode_utf8(r.unwrap()@) == v@,
{
    match String::from_utf8(v) {
        Ok(s) => Some(s),
        Err(_) => None,
    }
}

/// Whether a path selects the flat-file backend: its name ends in a `.csv`
/// extension whose dot is not the first byte of the final path segment.
/// Stated over the path's UTF-8 bytes; bytes of multi-byte characters are
/// never mistaken for the dot, the slash or the extension letters.
pub open spec fn flat_file_path(path: Seq<char>) -> bool {
    let b = vstd::utf8::encode_utf8(path);
    &&& b.len() >= 5
    &&& b[b.len() - 4] == 46u8
    &&& b[b.len() - 3] == 99u8
    &&& b[b.len() - 2] == 115u8
    &&& b[b.len() - 1] == 118u8
    &&& b[b.len() - 5] != 47u8
}

/// The dispatch rule of diary paths: a `csv` extension selects the
/// flat-file backend, everything else the relational one.
pub fn is_flat_file_path(path: &String) -> (r: bool)
    ensures
        r == flat_file_path(path@),
{
    let sref = path.as_str();
    let b = sref.as_bytes();
    if b.len() < 5 {
        return false;
    }
    let n = b.len();
    b[n - 4] == 46 && b[n - 3] == 99 && b[n - 2] == 115 && b[n - 1] == 118 && b[n - 5] != 47
}

} // verus!

verus! {

/// One step of splitting bytes on the comma: `cur` carries the piece read
/// so far.
pub open spec fn split_commas_rec(b: Seq<u8>, cur: Seq<u8>) -> Seq<Seq<u8>>
    decreases b.len(),
{
    if b.len() == 0 {
        seq![cur]
    } else if b.first() == 44u8 {
        seq![cur] + split_commas_rec(b.drop_first(), Seq::empty())
    } else {
        split_commas_rec(b.drop_first(), cur.push(b.first()))
    }
}

/// The comma-separated pieces of a byte string; empty text is one empty piece.
pub open spec fn split_commas(b: Seq<u8>) -> Seq<Seq<u8>> {
    split_commas_rec(b, Seq::empty())
}

/// Splits a comma-separated category list into names: the text is accepted
/// exactly when every comma-separated piece is nonempty, and the names are
/// those pieces in order.
pub fn parse_category_list(spec_text: &String) -> (r: Result<Vec<String>, DataError>)
    ensures
        ({
            let pieces = split_commas(vstd::utf8::encode_utf8(spec_text@));
            &&& (r is Ok <==> forall|p: int|
                0 <= p < pieces.len() ==> (#[trigger] pieces[p]).len() >= 1)
            &&& r is Err ==> r == Result::<Vec<String>, DataError>::Err(DataError::EmptyHeader)
            &&& r is Ok ==> r.unwrap()@.len() == pieces.len() && r.unwrap()@.len() >= 1
            &&& r is Ok ==> forall|p: int|
                0 <= p < pieces.len() ==> vstd::utf8::encode_utf8((#[trigger] r.unwrap()@[p])@)
                    == pieces[p]
        }),
{
    let sref = spec_text.as_str();
    let b = sref.as_bytes();
    let ghost eb = vstd::utf8::encode_utf8(spec_text@);
    let n = b.len();
    let mut names: Vec<String> = Vec::new();
    let mut start: usize = 0;
    let mut i: usize = 0;
    proof {
        vstd::utf8::encode_utf8_valid_utf8(spec_text@);
        assert(eb.skip(0) =~= eb);
        assert(eb.subrange(0, 0) =~= Seq::<u8>::empty());
        assert(names@.map_values(|nm: String| vstd::utf8::encode_utf8(nm@)) =~= Seq::<
            Seq<u8>,
        >::empty());
    }
    while i < n
        invariant
            0 <= start <= i <= n,
            n == b@.len(),
            b@ == eb,
            eb == vstd::utf8::encode_utf8(spec_text@),
            vstd::utf8::valid_utf8(eb.skip(start as int)),
            forall|k: int|
                0 <= k < names@.len() ==> vstd::utf8::encode_utf8(
                    (#[trigger] names@[k])@,
                ).len() >= 1,
            split_commas(eb) == names@.map_values(|nm: String| vstd::utf8::encode_utf8(nm@))
                + split_commas_rec(eb.skip(i as int), eb.subrange(start as int, i as int)),
        decreases n - i,
    {
        proof {
            assert(eb.skip(i as int).first() == eb[i as int]);
            assert(eb.skip(i as int).drop_first() =~= eb.skip(i as int + 1));
        }
        if b[i] == 44 {
            let ghost cur = eb.subrange(start as int, i as int);
            let ghost mapped = names@.map_values(|nm: String| vstd::utf8::encode_utf8(nm@));
            proof {
                assert(split_commas(eb) =~= mapped + (seq![cur] + split_commas_rec(
                    eb.skip(i as int + 1),
                    Seq::empty(),
                )));
            }
            if i == start {
                proof {
                    assert(cur =~= Seq::<u8>::empty());
                    assert(split_commas(eb)[mapped.len() as int] == cur);
                }
                return Err(DataError::EmptyHeader);
            }
            proof {
                // the piece sits between character boundaries, so it is text
                let tail = eb.skip(start as int);
                assert(cur =~= tail.subrange(0, i - start));
                assert(tail[i - start] == eb[i as int]);
                assert(!vstd::utf8::is_continuation_byte(44u8)) by (bit_vector);
                vstd::utf8::is_char_boundary_iff_not_is_continuation_byte(tail, i - start);
                vstd::utf8::valid_utf8_split(tail, i - start);
                assert(vstd::utf8::valid_utf8(cur));
                // past the comma the remainder is text again
                let rem = tail.subrange(i - start, tail.len() as int);
                assert(rem =~= eb.skip(i as int));
                assert(vstd::utf8::length_of_first_scalar(eb.skip(i as int)) == 1);
                assert(vstd::utf8::pop_first_scalar(eb.skip(i as int)) =~= eb.skip(i as int + 1));
                assert(vstd::utf8::valid_utf8(eb.skip(i as int + 1)));
            }
            match bytes_to_string(copy_byte_range(b, start, i)) {
                Some(name) => {
                    let ghost pre = names@;
                    names.push(name);
                    proof {
                        assert(names@.map_values(|nm: String| vstd::utf8::encode_utf8(nm@)) =~= pre.map_values(
                            |nm: String| vstd::utf8::encode_utf8(nm@),
                        ) + seq![cur]);
                        assert(eb.subrange(i as int + 1, i as int + 1) =~= Seq::<u8>::empty());
                        assert(split_commas(eb) =~= (mapped + seq![cur]) + split_commas_rec(
                            eb.skip(i as int + 1),
                            Seq::empty(),
                        ));
                        assert(split_commas(eb) =~= names@.map_values(
                            |nm: String| vstd::utf8::encode_utf8(nm@),
                        ) + split_commas_rec(
                            eb.skip(i as int + 1),
                            eb.subrange(i as int + 1, i as int + 1),
                        ));
                    }
                },
                None => {
                    proof {
                        assert(false);
                    }
                    return Err(DataError::EmptyHeader);
                },
            }
            start = i + 1;
        } else {
            proof {
                assert(eb.subrange(start as int, i as int + 1) =~= eb.subrange(
                    start as int,
                    i as int,
                ).push(eb[i as int]));
            }
        }
        i = i + 1;
    }
    let ghost cur = eb.subrange(start as int, n as int);
    let ghost mapped = names@.map_values(|nm: String| vstd::utf8::encode_utf8(nm@));
    proof {
        assert(eb.skip(n as int) =~= Seq::<u8>::empty());
        assert(split_commas(eb) =~= mapped + seq![cur]);
    }
    if n == start {
        proof {
            assert(cur =~= Seq::<u8>::empty());
            assert(split_commas(eb)[mapped.len() as int] == cur);
        }
        return Err(DataError::EmptyHeader);
    }
    proof {
        assert(cur =~= eb.skip(start as int));
    }
    match bytes_to_string(copy_byte_range(b, start, n)) {
        Some(name) => {
            let ghost pre = names@;
            names.push(name);
            proof {
                assert(names@.map_values(|nm: String| vstd::utf8::encode_utf8(nm@)) =~= pre.map_values(
                    |nm: String| vstd::utf8::encode_utf8(nm@),
                ) + seq![cur]);
                assert forall|p: int|
                    0 <= p < split_commas(eb).len() implies (#[trigger] split_commas(eb)[p]).len()
                    >= 1 by {
                    assert(split_commas(eb)[p] == vstd::utf8::encode_utf8(names@[p]@));
                }
            }
            Ok(names)
        },
        None => {
            proof {
                assert(false);
            }
            Err(DataError::EmptyHeader)
        },
    }
}

} // verus!

verus! {

/// Copies `b[start..end)`.
fn copy_byte_range(b: &[u8], start: usize, end: usize) -> (r: Vec<u8>)
    requires
        start <= end <= b@.len(),
    ensures
        r@ == b@.subrange(start as int, end as int),
{
    let mut r: Vec<u8> = Vec::new();
    let mut j: usize = start;
    while j < end
        invariant
            start <= j <= end <= b@.len(),
            r@ == b@.subrange(start as int, j as int),
        decreases end - j,
    {
        r.push(b[j]);
        proof {
            assert(b@.subrange(start as int, j as int + 1) =~= b@.subrange(
                start as int,
                j as int,
            ).push(b@[j as int]));
        }
        j = j + 1;
    }
    r
}

} // verus!
